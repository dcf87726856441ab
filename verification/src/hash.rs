//! The hash/prefix kernel: a rolling hash over lowercased file names, the
//! composite stack-hash that packs a depth with a hash state, prefix
//! comparison, and trailing-segment extraction.
use vstd::prelude::*;
use vstd::string::*;

verus! {

/// Greatest number of characters the rolling hash accepts. The modulus
/// counter starts at 255 and grows by one per character, and the running
/// sum, which also takes a 16-bit term, must stay inside `u32`.
pub const MAX_HASH_CHARS: usize = 0xFFFE_0000;

/// What `str::to_lowercase` returns, as a function of the characters alone.
pub uninterp spec fn lower_of(s: Seq<char>) -> Seq<char>;

/// Relies on `str::to_lowercase`: the lowercase form of a string depends on
/// its characters alone, an empty string stays empty, and a nonempty string
/// stays nonempty (every character maps to one or more characters).
#[verifier::external_body]
pub(crate) fn lowercase(s: &str) -> (r: String)
    ensures
        r@ == lower_of(s@),
        s@.len() == 0 ==> r@.len() == 0,
        s@.len() > 0 ==> r@.len() > 0,
{
    s.to_lowercase()
}

/// The characters of a string collected into a vector, in order.
pub fn chars_vec(s: &str) -> (r: Vec<char>)
    ensures
        r@ == s@,
{
    let n: usize = s.unicode_len();
    let mut r: Vec<char> = Vec::new();
    let mut i: usize = 0;
    while i < n
        invariant
            i <= n,
            n == s@.len(),
            r@ == s@.subrange(0, i as int),
        decreases n - i,
    {
        let c = s.get_char(i);
        r.push(c);
        i = i + 1;
        proof {
            assert(r@ =~= s@.subrange(0, i as int));
        }
    }
    proof {
        assert(r@ =~= s@);
    }
    r
}

/// The low byte of a character, as the hash consumes it: a `char` cast to
/// `u16` keeps only its low sixteen bits, and the shift by eight keeps only
/// the low eight of those.
pub open spec fn low_byte(c: char) -> u16 {
    (c as u32 % 256) as u16
}

/// The bigram register after consuming `s`: the low byte of the last
/// character shifted high, merged with the whole previous register.
pub open spec fn hash_num_c(s: Seq<char>) -> u16
    decreases s.len(),
{
    if s.len() == 0 {
        0u16
    } else {
        (low_byte(s.last()) << 8) | hash_num_c(s.drop_last())
    }
}

/// The rolling sum after consuming `s`: starts at 2, adds the bigram
/// register and reduces by a modulus that starts at 255 and grows by one
/// per character.
pub open spec fn hash_roll(s: Seq<char>) -> int
    decreases s.len(),
{
    if s.len() == 0 {
        2int
    } else {
        (hash_roll(s.drop_last()) + hash_num_c(s)) % (254 + s.len() as int)
    }
}

/// The rolling hash of an already-lowercased character vector.
pub fn hash_chars(cs: &Vec<char>) -> (r: (u16, u32))
    requires
        cs@.len() <= MAX_HASH_CHARS,
    ensures
        r.0 == hash_num_c(cs@),
        r.1 as int == hash_roll(cs@),
{
    let n: usize = cs.len();
    let mut i: u32 = 255;
    let mut rolling_hash: u32 = 2;
    let mut num_c: u16 = 0;
    let mut last_c: u16 = 0;
    let mut j: usize = 0;
    while j < n
        invariant
            j <= n,
            n == cs@.len(),
            n <= MAX_HASH_CHARS,
            i as int == 255 + j,
            num_c == hash_num_c(cs@.subrange(0, j as int)),
            last_c == num_c,
            rolling_hash as int == hash_roll(cs@.subrange(0, j as int)),
            j > 0 ==> (rolling_hash as int) < i as int,
            j == 0 ==> rolling_hash == 2,
        decreases n - j,
    {
        let c = cs[j];
        let cb: u16 = ((c as u32) % 256) as u16;
        num_c = (cb << 8) | last_c;
        proof {
            assert(cs@.subrange(0, j + 1).drop_last() =~= cs@.subrange(0, j as int));
            assert(cs@.subrange(0, j + 1).last() == c);
            assert(num_c == hash_num_c(cs@.subrange(0, j + 1)));
        }
        rolling_hash = (rolling_hash + num_c as u32) % i;
        proof {
            assert(rolling_hash as int == hash_roll(cs@.subrange(0, j + 1)));
        }
        i = i + 1;
        last_c = num_c;
        j = j + 1;
    }
    proof {
        assert(cs@.subrange(0, n as int) =~= cs@);
    }
    (num_c, rolling_hash)
}

/// The terminal rolling-hash state of a name: the name is lowercased and
/// its characters are fed through the rolling hash in order.
pub fn get_hash(s: &str) -> (r: (u16, u32))
    requires
        lower_of(s@).len() <= MAX_HASH_CHARS,
    ensures
        r.0 == hash_num_c(lower_of(s@)),
        r.1 as int == hash_roll(lower_of(s@)),
{
    let low = lowercase(s);
    let cs = chars_vec(low.as_str());
    hash_chars(&cs)
}

/// Like [`get_hash`], but checks the length bound at run time instead of
/// asking it of the caller; `None` exactly when the lowercased name is too
/// long for the rolling hash.
pub fn try_get_hash(s: &str) -> (r: Option<(u16, u32)>)
    ensures
        match r {
            Some(h) => lower_of(s@).len() <= MAX_HASH_CHARS && h.0 == hash_num_c(lower_of(s@))
                && h.1 as int == hash_roll(lower_of(s@)),
            None => lower_of(s@).len() > MAX_HASH_CHARS,
        },
{
    let low = lowercase(s);
    let cs = chars_vec(low.as_str());
    if cs.len() <= MAX_HASH_CHARS {
        Some(get_hash(s))
    } else {
        None
    }
}

/// The 64-bit index key packing a depth with a hash state:
/// bits 63..48 the stack, bits 47..32 the bigram register, bits 31..0 the
/// rolling sum.
pub open spec fn spec_stack_hash(stack: u16, num_c: u16, rolling_hash: u32) -> u64 {
    ((stack as u64) << 48) | ((num_c as u64) << 32) | (rolling_hash as u64)
}

/// Packs a depth and a hash state into one 64-bit index key.
pub fn stack_hash(stack: u16, num_c: u16, rolling_hash: u32) -> (r: u64)
    ensures
        r == spec_stack_hash(stack, num_c, rolling_hash),
{
    let upper_u32: u32 = (stack as u32) << 16;
    let lower_u32: u32 = num_c as u32;
    let upper_u64: u64 = ((upper_u32 | lower_u32) as u64) << 32;
    let lower_u64: u64 = rolling_hash as u64;
    let r = upper_u64 | lower_u64;
    proof {
        assert(((((stack as u32) << 16) | (num_c as u32)) as u64) << 32 | (rolling_hash as u64)
            == ((stack as u64) << 48) | ((num_c as u64) << 32) | (rolling_hash as u64))
            by (bit_vector);
    }
    r
}

/// Law: the stack-hash packing is bijective between triples and 64-bit
/// keys: the high sixteen bits recover the stack, the next sixteen the
/// bigram register, the low thirty-two the rolling sum, and every 64-bit
/// value is the packing of the triple so recovered.
pub proof fn lemma_stack_hash_bijective(stack: u16, num_c: u16, rolling_hash: u32, h: u64)
    ensures
        spec_stack_hash(stack, num_c, rolling_hash) >> 48 == stack as u64,
        (spec_stack_hash(stack, num_c, rolling_hash) >> 32) & 0xFFFF == num_c as u64,
        spec_stack_hash(stack, num_c, rolling_hash) & 0xFFFF_FFFF == rolling_hash as u64,
        spec_stack_hash((h >> 48) as u16, ((h >> 32) & 0xFFFF) as u16, (h & 0xFFFF_FFFF) as u32)
            == h,
{
    assert((((stack as u64) << 48) | ((num_c as u64) << 32) | (rolling_hash as u64)) >> 48
        == stack as u64) by (bit_vector);
    assert(((((stack as u64) << 48) | ((num_c as u64) << 32) | (rolling_hash as u64)) >> 32)
        & 0xFFFF == num_c as u64) by (bit_vector);
    assert((((stack as u64) << 48) | ((num_c as u64) << 32) | (rolling_hash as u64)) & 0xFFFF_FFFF
        == rolling_hash as u64) by (bit_vector);
    assert(((((h >> 48) as u16) as u64) << 48) | ((((h >> 32) & 0xFFFF) as u16 as u64) << 32) | (
    ((h & 0xFFFF_FFFF) as u32) as u64) == h) by (bit_vector);
}

/// Law: two triples packing to the same key are the same triple.
pub proof fn lemma_stack_hash_injective(
    s1: u16,
    n1: u16,
    r1: u32,
    s2: u16,
    n2: u16,
    r2: u32,
)
    requires
        spec_stack_hash(s1, n1, r1) == spec_stack_hash(s2, n2, r2),
    ensures
        s1 == s2 && n1 == n2 && r1 == r2,
{
    lemma_stack_hash_bijective(s1, n1, r1, 0);
    lemma_stack_hash_bijective(s2, n2, r2, 0);
}

/// The index key of `name` at depth `stack` for its prefix of length `k`.
pub open spec fn prefix_hash(stack: u16, name: Seq<char>, k: int) -> u64 {
    spec_stack_hash(
        stack,
        hash_num_c(name.subrange(0, k)),
        hash_roll(name.subrange(0, k)) as u32,
    )
}

/// The keys a (lowercased) name is indexed under at a given depth: one per
/// prefix length from 1 to the name's length.
pub open spec fn hash_seq(stack: u16, name: Seq<char>) -> Seq<u64> {
    Seq::new(name.len(), |k: int| prefix_hash(stack, name, k + 1))
}

/// The index keys of an already-lowercased name at the given depth.
fn hashes_of_chars(stack: u16, cs: &Vec<char>) -> (r: Vec<u64>)
    requires
        cs@.len() <= MAX_HASH_CHARS,
    ensures
        r@ == hash_seq(stack, cs@),
{
    let n: usize = cs.len();
    let mut r: Vec<u64> = Vec::new();
    let mut i: u32 = 255;
    let mut rolling_hash: u32 = 2;
    let mut num_c: u16 = 0;
    let mut last_c: u16 = 0;
    let mut j: usize = 0;
    while j < n
        invariant
            j <= n,
            n == cs@.len(),
            n <= MAX_HASH_CHARS,
            i as int == 255 + j,
            num_c == hash_num_c(cs@.subrange(0, j as int)),
            last_c == num_c,
            rolling_hash as int == hash_roll(cs@.subrange(0, j as int)),
            j > 0 ==> (rolling_hash as int) < i as int,
            j == 0 ==> rolling_hash == 2,
            r@ == hash_seq(stack, cs@).subrange(0, j as int),
        decreases n - j,
    {
        let c = cs[j];
        let cb: u16 = ((c as u32) % 256) as u16;
        num_c = (cb << 8) | last_c;
        proof {
            assert(cs@.subrange(0, j + 1).drop_last() =~= cs@.subrange(0, j as int));
            assert(cs@.subrange(0, j + 1).last() == c);
            assert(num_c == hash_num_c(cs@.subrange(0, j + 1)));
        }
        rolling_hash = (rolling_hash + num_c as u32) % i;
        proof {
            assert(rolling_hash as int == hash_roll(cs@.subrange(0, j + 1)));
        }
        let h = stack_hash(stack, num_c, rolling_hash);
        r.push(h);
        proof {
            assert(h == prefix_hash(stack, cs@, j + 1));
            assert(r@ =~= hash_seq(stack, cs@).subrange(0, j + 1));
        }
        i = i + 1;
        last_c = num_c;
        j = j + 1;
    }
    proof {
        assert(r@ =~= hash_seq(stack, cs@));
    }
    r
}

/// The keys a name is indexed under at the given depth: the name is
/// lowercased and one key is emitted per prefix of it, so the key list is
/// empty exactly when the name is.
pub fn get_hashset(stack: u16, s: &str) -> (r: Vec<u64>)
    requires
        lower_of(s@).len() <= MAX_HASH_CHARS,
    ensures
        r@ == hash_seq(stack, lower_of(s@)),
        (r@.len() == 0) == (s@.len() == 0),
{
    let low = lowercase(s);
    let cs = chars_vec(low.as_str());
    hashes_of_chars(stack, &cs)
}

/// The candidate keys for a query: its terminal hash state combined with
/// every depth from 0 up to and including `max_stack`.
pub open spec fn query_hashes(max_stack: u16, q: Seq<char>) -> Seq<u64> {
    Seq::new(
        max_stack as nat + 1,
        |d: int| spec_stack_hash(d as u16, hash_num_c(q), hash_roll(q) as u32),
    )
}

/// The keys a query fans out to, one per depth up to and including
/// `max_stack`: the query's terminal hash state is depth-agnostic, so the
/// bucket of every depth the index has seen could hold a match.
pub fn get_possible_hashes(max_stack: u16, s: &str) -> (r: Vec<u64>)
    requires
        lower_of(s@).len() <= MAX_HASH_CHARS,
    ensures
        r@ == query_hashes(max_stack, lower_of(s@)),
{
    let (num_c, rolling_hash) = get_hash(s);
    let mut r: Vec<u64> = Vec::new();
    let bound: u32 = max_stack as u32;
    let mut d: u32 = 0;
    while d <= bound
        invariant
            d <= bound + 1,
            bound == max_stack as u32,
            num_c == hash_num_c(lower_of(s@)),
            rolling_hash as int == hash_roll(lower_of(s@)),
            r@ == query_hashes(max_stack, lower_of(s@)).subrange(0, d as int),
        decreases bound + 1 - d,
    {
        let h = stack_hash(d as u16, num_c, rolling_hash);
        r.push(h);
        d = d + 1;
        proof {
            assert(r@ =~= query_hashes(max_stack, lower_of(s@)).subrange(0, d as int));
        }
    }
    proof {
        assert(r@ =~= query_hashes(max_stack, lower_of(s@)));
    }
    r
}

/// Law: the rolling hash is prefix-stable: the hash state of a query equal
/// to a prefix of a name is exactly the state the name produces at that
/// prefix length.
pub proof fn lemma_hash_prefix_stability(q: Seq<char>, name: Seq<char>)
    requires
        q.is_prefix_of(name),
    ensures
        hash_num_c(q) == hash_num_c(name.subrange(0, q.len() as int)),
        hash_roll(q) == hash_roll(name.subrange(0, q.len() as int)),
{
    assert(q =~= name.subrange(0, q.len() as int));
}

/// Law: when the (lowercased) query equals a prefix of a (lowercased)
/// name, the key the searcher probes at a depth is exactly the key the
/// name was indexed under at that prefix length and depth.
pub proof fn lemma_query_key_is_index_key(q: Seq<char>, name: Seq<char>, stack: u16)
    requires
        q.is_prefix_of(name),
    ensures
        prefix_hash(stack, name, q.len() as int) == spec_stack_hash(
            stack,
            hash_num_c(q),
            hash_roll(q) as u32,
        ),
{
    lemma_hash_prefix_stability(q, name);
}

/// The suffix of `s` after its last `/`; `s` itself when no `/` occurs.
pub open spec fn tail_after_slash(s: Seq<char>) -> Seq<char>
    decreases s.len(),
{
    if s.len() == 0 {
        Seq::empty()
    } else if s.last() == '/' {
        Seq::empty()
    } else {
        tail_after_slash(s.drop_last()).push(s.last())
    }
}

proof fn lemma_tail_characterization(s: Seq<char>, start: int)
    requires
        0 <= start <= s.len(),
        forall|i: int| start <= i < s.len() ==> s[i] != '/',
        start > 0 ==> s[start - 1] == '/',
    ensures
        tail_after_slash(s) == s.subrange(start, s.len() as int),
    decreases s.len(),
{
    if s.len() == 0 {
        assert(tail_after_slash(s) =~= s.subrange(start, s.len() as int));
    } else if start == s.len() {
        assert(s.last() == '/');
        assert(tail_after_slash(s) =~= s.subrange(start, s.len() as int));
    } else {
        let sd = s.drop_last();
        assert(s.last() != '/');
        assert(forall|i: int| start <= i < sd.len() ==> sd[i] != '/');
        lemma_tail_characterization(sd, start);
        assert(sd.subrange(start, sd.len() as int) =~= s.subrange(start, s.len() - 1));
        assert(tail_after_slash(s) =~= s.subrange(start, s.len() as int));
    }
}

/// Returns the trailing segment of a path: the suffix after the last `/`,
/// or the whole string when it holds no `/`.
pub fn last_chars_until_forward_slash(s: &str) -> (r: &str)
    ensures
        r@ == tail_after_slash(s@),
{
    let cs = chars_vec(s);
    let n: usize = cs.len();
    let mut start: usize = 0;
    let mut j: usize = 0;
    while j < n
        invariant
            j <= n,
            n == cs@.len(),
            cs@ == s@,
            start <= j,
            forall|i: int| start <= i < j ==> s@[i] != '/',
            start > 0 ==> s@[start - 1] == '/',
        decreases n - j,
    {
        if cs[j] == '/' {
            start = j + 1;
        }
        j = j + 1;
    }
    let r = s.substring_char(start, n);
    proof {
        lemma_tail_characterization(s@, start as int);
    }
    r
}

/// Law: the trailing segment is the maximal `/`-free suffix: it is a suffix
/// of the string, holds no `/`, and whenever it is shorter than the whole
/// string the character just before it is a `/`.
pub proof fn lemma_tail_after_slash_maximal(s: Seq<char>)
    ensures
        tail_after_slash(s).len() <= s.len(),
        tail_after_slash(s) == s.subrange(s.len() - tail_after_slash(s).len(), s.len() as int),
        forall|i: int| 0 <= i < tail_after_slash(s).len() ==> tail_after_slash(s)[i] != '/',
        tail_after_slash(s).len() < s.len() ==> s[s.len() - tail_after_slash(s).len() - 1] == '/',
    decreases s.len(),
{
    if s.len() == 0 {
        assert(tail_after_slash(s) =~= s.subrange(0, 0));
    } else if s.last() == '/' {
        assert(tail_after_slash(s) =~= s.subrange(s.len() as int, s.len() as int));
    } else {
        let sd = s.drop_last();
        lemma_tail_after_slash_maximal(sd);
        let t = tail_after_slash(s);
        assert(t == tail_after_slash(sd).push(s.last()));
        assert(t =~= s.subrange(s.len() - t.len(), s.len() as int));
        if t.len() < s.len() {
            assert(tail_after_slash(sd).len() < sd.len());
            assert(s[s.len() - t.len() - 1] == sd[sd.len() - tail_after_slash(sd).len() - 1]);
        }
    }
}

/// Returns true exactly when the lowercased `s` begins with the lowercased
/// `prefix`.
pub fn starts_with_prefix_simd(s: &str, prefix: &str) -> (r: bool)
    ensures
        r == lower_of(prefix@).is_prefix_of(lower_of(s@)),
{
    let ls = lowercase(s);
    let lp = lowercase(prefix);
    let sv = chars_vec(ls.as_str());
    let pv = chars_vec(lp.as_str());
    let pn: usize = pv.len();
    let sn: usize = sv.len();
    if pn > sn {
        return false;
    }
    let mut k: usize = 0;
    while k < pn
        invariant
            k <= pn,
            pn == pv@.len(),
            sn == sv@.len(),
            pn <= sn,
            sv@ == lower_of(s@),
            pv@ == lower_of(prefix@),
            forall|m: int| 0 <= m < k ==> sv@[m] == pv@[m],
        decreases pn - k,
    {
        if sv[k] != pv[k] {
            proof {
                assert(lower_of(s@).subrange(0, pn as int)[k as int] == sv@[k as int]);
            }
            return false;
        }
        k = k + 1;
    }
    proof {
        assert(lower_of(s@).subrange(0, pn as int) =~= lower_of(prefix@));
    }
    true
}

} // verus!
