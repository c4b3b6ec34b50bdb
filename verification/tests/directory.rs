use gh_token_switch::config::{alias_position, ensure_alias, Config, NotificationConfig};
use gh_token_switch::error::SwitchError;
use gh_token_switch::fingerprint_map::FingerprintMap;
use gh_token_switch::logic::{
    alias_for_fingerprint, alias_for_token, apply_delete_metadata, apply_rename_metadata,
    check_rename, choose_next_alias, token_fingerprint,
};

fn pair(alias: &str, tag: &str) -> (String, String) {
    (alias.to_string(), tag.to_string())
}

fn sample() -> Config {
    Config {
        aliases: vec!["work".into(), "personal".into()],
        fingerprints: FingerprintMap::from_pairs(vec![pair("work", "F1"), pair("personal", "F2")]),
        notifications: NotificationConfig::default(),
        last_used_alias: Some("work".into()),
    }
}

fn entries(cfg: &Config) -> Vec<(String, String)> {
    cfg.fingerprints.pairs().clone()
}

#[test]
fn default_directory_is_empty_with_default_settings() {
    let cfg = Config::default();
    assert!(cfg.aliases.is_empty());
    assert!(cfg.fingerprints.is_empty());
    assert_eq!(cfg.fingerprints.len(), 0);
    assert_eq!(cfg.last_used_alias, None);
    assert!(cfg.notifications.enabled);
    assert!(cfg.notifications.only_when_no_tty);
    assert!(cfg.notifications.only_on_implicit_cycle);
}

#[test]
fn ensure_alias_appends_once() {
    let mut cfg = Config::default();
    ensure_alias(&mut cfg, "work");
    ensure_alias(&mut cfg, "personal");
    ensure_alias(&mut cfg, "work");
    assert_eq!(cfg.aliases, vec!["work", "personal"]);
    assert!(cfg.fingerprints.is_empty());
    assert_eq!(cfg.last_used_alias, None);
}

#[test]
fn alias_position_finds_first_occurrence() {
    let aliases = vec!["a".to_string(), "b".to_string(), "a".to_string()];
    assert_eq!(alias_position(&aliases, "a"), Some(0));
    assert_eq!(alias_position(&aliases, "b"), Some(1));
    assert_eq!(alias_position(&aliases, "c"), None);
    assert_eq!(alias_position(&[], "a"), None);
    assert_eq!(alias_position(&aliases, "A"), None);
}

#[test]
fn fingerprint_map_insert_replaces_in_place() {
    let mut map = FingerprintMap::new();
    assert_eq!(map.insert("work".into(), "F1".into()), None);
    assert_eq!(map.insert("personal".into(), "F2".into()), None);
    assert_eq!(map.insert("work".into(), "F3".into()), Some("F1".to_string()));
    assert_eq!(map.len(), 2);
    assert_eq!(map.pairs(), &vec![pair("work", "F3"), pair("personal", "F2")]);
    assert_eq!(map.get("work").map(String::as_str), Some("F3"));
    assert_eq!(map.get("missing"), None);
    assert!(map.contains_key("personal"));
    assert!(!map.contains_key("Personal"));
}

#[test]
fn fingerprint_map_remove_keeps_order_of_the_rest() {
    let mut map =
        FingerprintMap::from_pairs(vec![pair("a", "1"), pair("b", "2"), pair("c", "3")]);
    assert_eq!(map.remove("b"), Some("2".to_string()));
    assert_eq!(map.remove("b"), None);
    assert_eq!(map.pairs(), &vec![pair("a", "1"), pair("c", "3")]);
    assert_eq!(map.len(), 2);
    assert!(!map.is_empty());
}

#[test]
fn fingerprint_map_from_pairs_keeps_first_place_and_last_value() {
    let map = FingerprintMap::from_pairs(vec![pair("a", "1"), pair("b", "2"), pair("a", "3")]);
    assert_eq!(map.pairs(), &vec![pair("a", "3"), pair("b", "2")]);
    let empty = FingerprintMap::from_pairs(Vec::new());
    assert!(empty.is_empty());
}

#[test]
fn fingerprint_map_find_by_value_takes_the_first_entry() {
    let map = FingerprintMap::from_pairs(vec![pair("a", "1"), pair("b", "2"), pair("c", "2")]);
    assert_eq!(map.find_by_value("2").map(String::as_str), Some("b"));
    assert_eq!(map.find_by_value("1").map(String::as_str), Some("a"));
    assert_eq!(map.find_by_value("4"), None);
}

#[test]
fn fingerprint_of_the_empty_secret() {
    assert_eq!(token_fingerprint(""), "e3b0c44298fc1c14");
}

#[test]
fn fingerprint_is_taken_of_the_utf8_bytes() {
    assert_eq!(token_fingerprint("secret-token"), token_fingerprint("secret-token"));
    assert_ne!(token_fingerprint("secret-token"), token_fingerprint("secret-token "));
    let tag = token_fingerprint("gr\u{00fc}n");
    assert_eq!(tag.chars().count(), 16);
    assert!(tag.chars().all(|c| c.is_ascii_digit() || ('a'..='f').contains(&c)));
}

#[test]
fn alias_for_fingerprint_returns_none_without_a_match() {
    let cfg = sample();
    assert_eq!(alias_for_fingerprint(&cfg, "F3"), None);
    assert_eq!(alias_for_fingerprint(&Config::default(), "F1"), None);
}

#[test]
fn alias_for_fingerprint_returns_the_alias_of_the_only_match() {
    let cfg = sample();
    assert_eq!(alias_for_fingerprint(&cfg, "F1"), Some("work".to_string()));
    assert_eq!(alias_for_fingerprint(&cfg, "F2"), Some("personal".to_string()));
}

#[test]
fn alias_for_fingerprint_does_not_need_the_alias_to_be_listed() {
    let cfg = Config {
        aliases: Vec::new(),
        fingerprints: FingerprintMap::from_pairs(vec![pair("stray", "F9")]),
        notifications: NotificationConfig::default(),
        last_used_alias: None,
    };
    assert_eq!(alias_for_fingerprint(&cfg, "F9"), Some("stray".to_string()));
}

#[test]
fn alias_for_token_ignores_surrounding_whitespace() {
    let mut cfg = Config::default();
    cfg.aliases.push("work".into());
    cfg.fingerprints.insert("work".into(), token_fingerprint("secret-token"));
    assert_eq!(alias_for_token(&cfg, "  secret-token\n"), Some("work".to_string()));
    assert_eq!(alias_for_token(&cfg, "\tsecret-token\r\n"), Some("work".to_string()));
    assert_eq!(alias_for_token(&cfg, "secret -token"), None);
}

#[test]
fn choose_next_alias_fails_without_aliases() {
    let none: Vec<String> = Vec::new();
    assert_eq!(choose_next_alias(&none, None), Err(SwitchError::InsufficientAliases));
    assert_eq!(choose_next_alias(&none, Some("work")), Err(SwitchError::InsufficientAliases));
    let one = vec!["work".to_string()];
    assert_eq!(choose_next_alias(&one, Some("work")), Err(SwitchError::InsufficientAliases));
}

#[test]
fn choose_next_alias_with_two_aliases_alternates() {
    let aliases = vec!["a".to_string(), "b".to_string()];
    assert_eq!(choose_next_alias(&aliases, Some("a")), Ok("b".to_string()));
    assert_eq!(choose_next_alias(&aliases, Some("b")), Ok("a".to_string()));
    assert_eq!(choose_next_alias(&aliases, None), Ok("a".to_string()));
    assert_eq!(choose_next_alias(&aliases, Some("zzz")), Ok("b".to_string()));
}

#[test]
fn rename_of_the_reference_directory() {
    let mut cfg = sample();
    assert_eq!(apply_rename_metadata(&mut cfg, "work", "company"), Ok(()));
    assert_eq!(cfg.aliases, vec!["company", "personal"]);
    assert_eq!(cfg.fingerprints.get("company").map(String::as_str), Some("F1"));
    assert_eq!(cfg.fingerprints.get("personal").map(String::as_str), Some("F2"));
    assert_eq!(cfg.fingerprints.len(), 2);
    assert_eq!(cfg.last_used_alias.as_deref(), Some("company"));
}

#[test]
fn rename_moves_the_fingerprint_to_the_end_of_the_table() {
    let mut cfg = sample();
    assert_eq!(apply_rename_metadata(&mut cfg, "work", "company"), Ok(()));
    assert_eq!(entries(&cfg), vec![pair("personal", "F2"), pair("company", "F1")]);
}

#[test]
fn rename_of_an_unlisted_alias_appends_the_new_name() {
    let mut cfg = sample();
    assert_eq!(apply_rename_metadata(&mut cfg, "ghost", "spirit"), Ok(()));
    assert_eq!(cfg.aliases, vec!["work", "personal", "spirit"]);
    assert_eq!(entries(&cfg), vec![pair("work", "F1"), pair("personal", "F2")]);
    assert_eq!(cfg.last_used_alias.as_deref(), Some("work"));
}

#[test]
fn rename_of_an_alias_without_fingerprint_leaves_no_entry() {
    let mut cfg = sample();
    cfg.aliases.push("bare".into());
    assert_eq!(apply_rename_metadata(&mut cfg, "bare", "plain"), Ok(()));
    assert_eq!(cfg.aliases, vec!["work", "personal", "plain"]);
    assert!(!cfg.fingerprints.contains_key("plain"));
    assert!(!cfg.fingerprints.contains_key("bare"));
    assert_eq!(cfg.last_used_alias.as_deref(), Some("work"));
}

#[test]
fn rename_keeps_another_last_used_alias() {
    let mut cfg = sample();
    assert_eq!(apply_rename_metadata(&mut cfg, "personal", "home"), Ok(()));
    assert_eq!(cfg.aliases, vec!["work", "home"]);
    assert_eq!(cfg.last_used_alias.as_deref(), Some("work"));
}

#[test]
fn rename_fails_with_identical_names() {
    let mut cfg = sample();
    assert_eq!(check_rename(&cfg, "work", "work"), Err(SwitchError::IdenticalNames));
    assert_eq!(check_rename(&cfg, "ghost", "ghost"), Err(SwitchError::IdenticalNames));
    assert_eq!(apply_rename_metadata(&mut cfg, "work", "work"), Err(SwitchError::IdenticalNames));
    assert_eq!(cfg.aliases, vec!["work", "personal"]);
    assert_eq!(entries(&cfg), vec![pair("work", "F1"), pair("personal", "F2")]);
    assert_eq!(cfg.last_used_alias.as_deref(), Some("work"));
}

#[test]
fn rename_fails_when_the_new_name_exists() {
    let mut cfg = sample();
    let expected = SwitchError::AliasExists { alias: "personal".to_string() };
    assert_eq!(check_rename(&cfg, "work", "personal"), Err(SwitchError::AliasExists {
        alias: "personal".to_string()
    }));
    assert_eq!(apply_rename_metadata(&mut cfg, "work", "personal"), Err(expected));
    assert_eq!(cfg.aliases, vec!["work", "personal"]);
    assert_eq!(entries(&cfg), vec![pair("work", "F1"), pair("personal", "F2")]);
    assert_eq!(cfg.last_used_alias.as_deref(), Some("work"));
}

#[test]
fn rename_with_identical_names_that_are_not_listed_changes_nothing() {
    let mut cfg = sample();
    assert_eq!(apply_rename_metadata(&mut cfg, "ghost", "ghost"), Err(SwitchError::IdenticalNames));
    assert_eq!(cfg.aliases, vec!["work", "personal"]);
    assert_eq!(entries(&cfg), vec![pair("work", "F1"), pair("personal", "F2")]);
    assert_eq!(cfg.last_used_alias.as_deref(), Some("work"));
}

#[test]
fn rename_of_an_unlisted_alias_to_a_listed_one_changes_nothing() {
    let mut cfg = sample();
    assert_eq!(
        apply_rename_metadata(&mut cfg, "ghost", "work"),
        Err(SwitchError::AliasExists { alias: "work".to_string() })
    );
    assert_eq!(cfg.aliases, vec!["work", "personal"]);
    assert_eq!(entries(&cfg), vec![pair("work", "F1"), pair("personal", "F2")]);
    assert_eq!(cfg.last_used_alias.as_deref(), Some("work"));
}

#[test]
fn rename_is_case_sensitive() {
    let cfg = sample();
    assert_eq!(check_rename(&cfg, "work", "Work"), Ok(()));
    assert_eq!(check_rename(&cfg, "work", "Personal"), Ok(()));
}

#[test]
fn delete_of_the_last_used_alias_resets_it() {
    let mut cfg = sample();
    cfg.last_used_alias = Some("personal".into());
    apply_delete_metadata(&mut cfg, "personal");
    assert_eq!(cfg.aliases, vec!["work"]);
    assert_eq!(entries(&cfg), vec![pair("work", "F1")]);
    assert_eq!(cfg.last_used_alias, None);
}

#[test]
fn delete_keeps_another_last_used_alias() {
    let mut cfg = sample();
    apply_delete_metadata(&mut cfg, "personal");
    assert_eq!(cfg.aliases, vec!["work"]);
    assert_eq!(cfg.last_used_alias.as_deref(), Some("work"));
}

#[test]
fn delete_of_an_absent_alias_changes_nothing() {
    let mut cfg = sample();
    apply_delete_metadata(&mut cfg, "ghost");
    assert_eq!(cfg.aliases, vec!["work", "personal"]);
    assert_eq!(entries(&cfg), vec![pair("work", "F1"), pair("personal", "F2")]);
    assert_eq!(cfg.last_used_alias.as_deref(), Some("work"));
}

#[test]
fn delete_twice_is_delete_once() {
    let mut cfg = sample();
    apply_delete_metadata(&mut cfg, "work");
    apply_delete_metadata(&mut cfg, "work");
    assert_eq!(cfg.aliases, vec!["personal"]);
    assert_eq!(entries(&cfg), vec![pair("personal", "F2")]);
    assert_eq!(cfg.last_used_alias, None);
}

#[test]
fn delete_removes_every_occurrence_of_the_alias() {
    let mut cfg = sample();
    cfg.aliases.push("work".into());
    apply_delete_metadata(&mut cfg, "work");
    assert_eq!(cfg.aliases, vec!["personal"]);
}

#[test]
fn error_messages() {
    assert_eq!(
        SwitchError::InsufficientAliases.to_string(),
        "need at least 2 aliases to cycle; add more with 'set <alias>'"
    );
    assert_eq!(SwitchError::IdenticalNames.to_string(), "old and new alias are identical");
    assert_eq!(
        SwitchError::AliasExists { alias: "work".to_string() }.to_string(),
        "alias 'work' already exists"
    );
    assert_eq!(SwitchError::EmptyToken.to_string(), "token is empty");
}

#[test]
fn table_rebuilt_from_its_entries_is_the_same() {
    let mut map = FingerprintMap::new();
    map.insert("work".into(), "1111222233334444".into());
    map.insert("personal".into(), "aaaabbbbccccdddd".into());
    map.insert("work".into(), "5555666677778888".into());
    let again = FingerprintMap::from_pairs(map.pairs().clone());
    assert_eq!(again.pairs(), map.pairs());
    assert_eq!(again.len(), 2);
}

#[test]
fn clone_keeps_the_whole_directory() {
    let mut cfg = Config {
        aliases: vec!["work".into(), "personal".into()],
        fingerprints: FingerprintMap::from_pairs(vec![
            ("work".to_string(), "1111222233334444".to_string()),
            ("personal".to_string(), "aaaabbbbccccdddd".to_string()),
        ]),
        notifications: NotificationConfig {
            enabled: false,
            only_when_no_tty: true,
            only_on_implicit_cycle: false,
        },
        last_used_alias: Some("personal".into()),
    };
    let copy = cfg.clone();
    cfg.aliases.clear();
    cfg.fingerprints.remove("work");
    cfg.last_used_alias = None;
    assert_eq!(copy.aliases, vec!["work", "personal"]);
    assert_eq!(copy.fingerprints.get("work").map(String::as_str), Some("1111222233334444"));
    assert_eq!(copy.fingerprints.get("personal").map(String::as_str), Some("aaaabbbbccccdddd"));
    assert_eq!(copy.fingerprints.len(), 2);
    assert_eq!(copy.last_used_alias.as_deref(), Some("personal"));
    assert!(!copy.notifications.enabled);
    assert!(copy.notifications.only_when_no_tty);
    assert!(!copy.notifications.only_on_implicit_cycle);
}
