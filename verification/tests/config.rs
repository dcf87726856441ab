use jef::error::JefError;
use jef::flags::Flag;
use jef::opener::{AppRule, Config};

#[test]
fn test_config() {
    let result = Config::default_config();
    println!("{:?}", result);
}

#[test]
fn default_config_rules() {
    let config = Config::default_config();
    assert_eq!(config.app_rule.len(), 1);
    assert_eq!(config.app_rule[0].app, "vim");
    assert_eq!(config.app_rule[0].tui, true);
    assert_eq!(config.app_rule[0].file_types, vec!["txt".to_string()]);
    assert_eq!(config.special_rule.app, "vim");
}

#[test]
fn app_from_type_finds_the_first_covering_rule() {
    let mut config = Config::default_config();
    let rule = config.app_from_type("txt".to_string()).expect("txt is covered");
    assert_eq!(rule.app, "vim");
    assert_eq!(rule.tui, true);

    assert!(config.app_from_type("rs".to_string()).is_none());

    // matching is exact-case on the extension
    assert!(config.app_from_type("TXT".to_string()).is_none());

    // rules are tried in order: the first covering rule wins
    config.app_rule.push(AppRule {
        app: "emacs".to_string(),
        tui: true,
        file_types: vec!["txt".to_string(), "md".to_string()],
    });
    let rule = config.app_from_type("txt".to_string()).expect("txt is covered");
    assert_eq!(rule.app, "vim");
    let rule = config.app_from_type("md".to_string()).expect("md is covered");
    assert_eq!(rule.app, "emacs");
}

#[test]
fn error_keeps_its_message() {
    let err = JefError::new("could not open the file");
    assert_eq!(err.message(), "could not open the file");
}

#[test]
fn halt_flag_signals() {
    assert!(Flag::Halt.is_halt());
    assert!(!Flag::Nothing.is_halt());
}
