//! The opener's rules: which application opens which file extension, and
//! the embedded default used when no configuration file can be read.
use vstd::prelude::*;

verus! {

/// One rule: files whose extension is listed in `file_types` are opened
/// with `app`; `tui` says whether the application takes over the terminal,
/// so the explorer must suspend its own screen around it.
#[derive(Debug)]
pub struct AppRule {
    pub app: String,
    pub tui: bool,
    pub file_types: Vec<String>,
}

/// The rule behind the `$` key: a shell command run on demand.
#[derive(Debug)]
pub struct SpecialRule {
    pub app: String,
}

/// The opener's configuration: application rules tried in order, and the
/// special rule.
#[derive(Debug)]
pub struct Config {
    pub app_rule: Vec<AppRule>,
    pub special_rule: SpecialRule,
}

/// The rule lists `ext` among its extensions (matching is exact-case).
pub open spec fn rule_covers(rule: AppRule, ext: Seq<char>) -> bool {
    exists|i: int| 0 <= i < rule.file_types@.len() && rule.file_types@[i]@ == ext
}

/// `b` carries the same content as `a`.
pub open spec fn rule_like(a: AppRule, b: AppRule) -> bool {
    a.app@ == b.app@ && a.tui == b.tui && a.file_types.deep_view() == b.file_types.deep_view()
}

/// Does the vector hold a string with this content?
fn contains_string(v: &Vec<String>, s: &String) -> (r: bool)
    ensures
        r == exists|i: int| 0 <= i < v@.len() && v@[i]@ == s@,
{
    let n: usize = v.len();
    let mut i: usize = 0;
    while i < n
        invariant
            i <= n,
            n == v@.len(),
            forall|k: int| 0 <= k < i ==> v@[k]@ != s@,
        decreases n - i,
    {
        if v[i].eq(s) {
            return true;
        }
        i = i + 1;
    }
    false
}

impl Config {
    /// The first rule whose extension list holds `extension`, copied out;
    /// `None` exactly when no rule covers the extension. The configuration
    /// itself is left unchanged.
    pub fn app_from_type(&mut self, extension: String) -> (r: Option<AppRule>)
        ensures
            *final(self) == *old(self),
            match r {
                Some(rule) => exists|j: int|
                    #![auto]
                    {
                        &&& 0 <= j < old(self).app_rule@.len()
                        &&& rule_covers(old(self).app_rule@[j], extension@)
                        &&& rule_like(old(self).app_rule@[j], rule)
                        &&& forall|i: int|
                            0 <= i < j ==> !rule_covers(old(self).app_rule@[i], extension@)
                    },
                None => forall|i: int|
                    0 <= i < old(self).app_rule@.len() ==> !rule_covers(
                        old(self).app_rule@[i],
                        extension@,
                    ),
            },
    {
        let n: usize = self.app_rule.len();
        let mut j: usize = 0;
        while j < n
            invariant
                j <= n,
                n == self.app_rule@.len(),
                *self == *old(self),
                forall|i: int| 0 <= i < j ==> !rule_covers(self.app_rule@[i], extension@),
            decreases n - j,
        {
            let rule = &self.app_rule[j];
            if contains_string(&rule.file_types, &extension) {
                let copy = AppRule {
                    app: rule.app.clone(),
                    tui: rule.tui,
                    file_types: rule.file_types.clone(),
                };
                proof {
                    assert(rule_covers(self.app_rule@[j as int], extension@));
                    assert forall|k: int|
                        0 <= k < rule.file_types@.len() implies copy.file_types@[k]@
                        == rule.file_types@[k]@ by {
                        assert(vstd::pervasive::cloned::<String>(
                            rule.file_types@[k],
                            copy.file_types@[k],
                        ));
                    }
                    assert(copy.file_types.deep_view() =~= rule.file_types.deep_view());
                    assert(rule_like(self.app_rule@[j as int], copy));
                }
                return Some(copy);
            }
            j = j + 1;
        }
        None
    }

    /// The embedded default configuration: `txt` files open with `vim` as
    /// a terminal application, and the special rule runs `vim`.
    pub fn default_config() -> (r: Config)
        ensures
            r.app_rule@.len() == 1,
            r.app_rule@[0].app@ == "vim"@,
            r.app_rule@[0].tui == true,
            r.app_rule@[0].file_types@.len() == 1,
            r.app_rule@[0].file_types@[0]@ == "txt"@,
            r.special_rule.app@ == "vim"@,
    {
        let mut file_types: Vec<String> = Vec::new();
        file_types.push("txt".to_owned());
        let mut app_rule: Vec<AppRule> = Vec::new();
        app_rule.push(AppRule { app: "vim".to_owned(), tui: true, file_types });
        Config { app_rule, special_rule: SpecialRule { app: "vim".to_owned() } }
    }
}

} // verus!
