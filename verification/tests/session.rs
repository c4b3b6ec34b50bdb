use gh_token_switch::config::{Config, NotificationConfig};
use gh_token_switch::error::SwitchError;
use gh_token_switch::fingerprint_map::FingerprintMap;
use gh_token_switch::hashing::{fingerprint_from_digest, hex_encode, FINGERPRINT_LEN};
use gh_token_switch::logic::token_fingerprint;
use gh_token_switch::notify::{maybe_notify, should_notify};
use gh_token_switch::session::{
    current_alias, finish_switch, pick_next_alias, prepare_token, record_token,
};
use gh_token_switch::text::{char_is_whitespace, str_eq, trim};

fn settings(enabled: bool, only_when_no_tty: bool, only_on_implicit_cycle: bool) -> Config {
    Config {
        aliases: Vec::new(),
        fingerprints: FingerprintMap::new(),
        notifications: NotificationConfig { enabled, only_when_no_tty, only_on_implicit_cycle },
        last_used_alias: None,
    }
}

fn three_profiles() -> Config {
    let mut cfg = Config::default();
    record_token(&mut cfg, "work", "token-work");
    record_token(&mut cfg, "personal", "token-personal");
    record_token(&mut cfg, "acme", "token-acme");
    cfg
}

#[test]
fn whitespace_is_what_std_calls_whitespace() {
    let mut code: u32 = 0;
    while code <= 0x10FFFF {
        if let Some(c) = char::from_u32(code) {
            assert_eq!(char_is_whitespace(c), c.is_whitespace(), "U+{:04X}", code);
        }
        code += 1;
    }
}

#[test]
fn trim_agrees_with_std() {
    let samples = [
        "",
        " ",
        "\n",
        " \t\r\n",
        "abc",
        " abc",
        "abc ",
        "  a b  c \n",
        "\u{3000}ghp_token\u{2028}",
        "\u{00a0}x\u{0085}",
        "\u{feff}x",
        "gr\u{00fc}n \u{1680}",
        "a",
        " a",
    ];
    for s in samples {
        assert_eq!(trim(s), s.trim(), "{:?}", s);
    }
}

#[test]
fn trim_exact_values() {
    assert_eq!(trim("  ghp_abc \n"), "ghp_abc");
    assert_eq!(trim("a  b"), "a  b");
    assert_eq!(trim(" \t "), "");
}

#[test]
fn str_eq_compares_characters() {
    assert!(str_eq("", ""));
    assert!(str_eq("work", "work"));
    assert!(!str_eq("work", "Work"));
    assert!(!str_eq("work", "work "));
    assert!(!str_eq("work", "worm"));
    assert!(str_eq("gr\u{00fc}n", "gr\u{00fc}n"));
    assert!(!str_eq("gr\u{00fc}n", "grun"));
}

#[test]
fn hex_encode_exact_values() {
    assert_eq!(hex_encode(&[]), "");
    assert_eq!(hex_encode(&[0x00]), "00");
    assert_eq!(hex_encode(&[0x0a, 0x14, 0x1e]), "0a141e");
    assert_eq!(hex_encode(&[0xff, 0x10, 0x01, 0xab]), "ff1001ab");
}

#[test]
fn fingerprint_from_digest_takes_the_first_eight_bytes() {
    let mut digest = [0u8; 32];
    for (i, b) in digest.iter_mut().enumerate() {
        *b = (i as u8) * 17;
    }
    assert_eq!(fingerprint_from_digest(&digest), "0011223344556677");
    assert_eq!(fingerprint_from_digest(&[0xffu8; 32]), "ffffffffffffffff");
    assert_eq!(FINGERPRINT_LEN, 16);
}

#[test]
fn notification_gate_truth_table() {
    for bits in 0..32u32 {
        let enabled = bits & 1 != 0;
        let only_when_no_tty = bits & 2 != 0;
        let only_on_implicit_cycle = bits & 4 != 0;
        let implicit_cycle = bits & 8 != 0;
        let tty_present = bits & 16 != 0;
        let cfg = settings(enabled, only_when_no_tty, only_on_implicit_cycle);
        let expected = enabled
            && (!only_on_implicit_cycle || implicit_cycle)
            && (!only_when_no_tty || !tty_present);
        assert_eq!(should_notify(&cfg, implicit_cycle, tty_present), expected, "{}", bits);
        assert_eq!(
            maybe_notify(&cfg, implicit_cycle, tty_present, "t", "b").is_some(),
            expected
        );
    }
}

#[test]
fn notification_gate_with_default_settings() {
    let cfg = Config::default();
    assert!(should_notify(&cfg, true, false));
    assert!(!should_notify(&cfg, false, false));
    assert!(!should_notify(&cfg, true, true));
    assert!(!should_notify(&cfg, false, true));
}

#[test]
fn notification_gate_disabled_is_silent() {
    let cfg = settings(false, false, false);
    assert!(!should_notify(&cfg, true, false));
    assert!(!should_notify(&cfg, false, true));
}

#[test]
fn maybe_notify_carries_title_and_body() {
    let cfg = settings(true, false, false);
    let n = maybe_notify(&cfg, false, true, "GitHub token switched", "Switched GitHub token: work")
        .unwrap();
    assert_eq!(n.title, "GitHub token switched");
    assert_eq!(n.body, "Switched GitHub token: work");
}

#[test]
fn prepare_token_trims_and_rejects_empty() {
    assert_eq!(prepare_token("  ghp_abc\n"), Ok("ghp_abc"));
    assert_eq!(prepare_token("ghp_abc"), Ok("ghp_abc"));
    assert_eq!(prepare_token(""), Err(SwitchError::EmptyToken));
    assert_eq!(prepare_token(" \t\n"), Err(SwitchError::EmptyToken));
}

#[test]
fn record_token_lists_the_alias_and_enters_the_fingerprint() {
    let mut cfg = Config::default();
    record_token(&mut cfg, "work", "abc");
    assert_eq!(cfg.aliases, vec!["work"]);
    assert_eq!(cfg.fingerprints.get("work").map(String::as_str), Some("ba7816bf8f01cfea"));
    assert_eq!(cfg.last_used_alias, None);
    record_token(&mut cfg, "work", "");
    assert_eq!(cfg.aliases, vec!["work"]);
    assert_eq!(cfg.fingerprints.get("work").map(String::as_str), Some("e3b0c44298fc1c14"));
    assert_eq!(cfg.fingerprints.len(), 1);
}

#[test]
fn current_alias_recognises_the_active_token() {
    let cfg = three_profiles();
    assert_eq!(current_alias(&cfg, Some("token-personal\n")), Some("personal".to_string()));
    assert_eq!(current_alias(&cfg, Some("unknown-token")), None);
    assert_eq!(current_alias(&cfg, None), None);
}

#[test]
fn pick_next_alias_follows_the_active_alias() {
    let cfg = three_profiles();
    assert_eq!(pick_next_alias(&cfg, Some("token-work\n")), Ok("personal".to_string()));
    assert_eq!(pick_next_alias(&cfg, Some("token-personal")), Ok("acme".to_string()));
    assert_eq!(pick_next_alias(&cfg, Some("token-acme")), Ok("work".to_string()));
    assert_eq!(pick_next_alias(&cfg, Some("unknown-token")), Ok("work".to_string()));
    assert_eq!(pick_next_alias(&cfg, None), Ok("work".to_string()));
}

#[test]
fn pick_next_alias_needs_two_aliases() {
    let mut cfg = Config::default();
    assert_eq!(pick_next_alias(&cfg, None), Err(SwitchError::InsufficientAliases));
    record_token(&mut cfg, "work", "token-work");
    assert_eq!(pick_next_alias(&cfg, Some("token-work")), Err(SwitchError::InsufficientAliases));
}

#[test]
fn finish_switch_records_a_successful_switch() {
    let mut cfg = three_profiles();
    let report = finish_switch(&mut cfg, "personal", "new-token", true, true, false);
    assert!(report.persist);
    let n = report.notification.unwrap();
    assert_eq!(n.title, "GitHub token switched");
    assert_eq!(n.body, "Switched GitHub token: personal");
    assert_eq!(cfg.aliases, vec!["work", "personal", "acme"]);
    assert_eq!(cfg.last_used_alias.as_deref(), Some("personal"));
    assert_eq!(
        cfg.fingerprints.get("personal").map(String::as_str),
        Some(token_fingerprint("new-token").as_str())
    );
}

#[test]
fn finish_switch_does_not_trim_the_stored_token() {
    let mut cfg = Config::default();
    finish_switch(&mut cfg, "work", "abc\n", true, false, true);
    assert_eq!(
        cfg.fingerprints.get("work").map(String::as_str),
        Some(token_fingerprint("abc\n").as_str())
    );
    assert_ne!(cfg.fingerprints.get("work").map(String::as_str), Some("ba7816bf8f01cfea"));
}

#[test]
fn finish_switch_lists_a_target_that_was_not_listed() {
    let mut cfg = Config::default();
    let report = finish_switch(&mut cfg, "work", "abc", true, false, false);
    assert!(report.persist);
    assert!(report.notification.is_none());
    assert_eq!(cfg.aliases, vec!["work"]);
    assert_eq!(cfg.fingerprints.get("work").map(String::as_str), Some("ba7816bf8f01cfea"));
    assert_eq!(cfg.last_used_alias.as_deref(), Some("work"));
}

#[test]
fn finish_switch_leaves_the_directory_alone_on_failure() {
    let mut cfg = three_profiles();
    cfg.last_used_alias = Some("work".into());
    let before = cfg.fingerprints.pairs().clone();
    let report = finish_switch(&mut cfg, "ghost", "new-token", false, true, false);
    assert!(!report.persist);
    let n = report.notification.unwrap();
    assert_eq!(n.title, "GitHub token switch failed");
    assert_eq!(n.body, "Failed switching to: ghost");
    assert_eq!(cfg.aliases, vec!["work", "personal", "acme"]);
    assert_eq!(cfg.fingerprints.pairs(), &before);
    assert_eq!(cfg.last_used_alias.as_deref(), Some("work"));
}

#[test]
fn finish_switch_is_silent_for_a_named_switch_by_default() {
    let mut cfg = three_profiles();
    let report = finish_switch(&mut cfg, "acme", "token-acme", true, false, false);
    assert!(report.persist);
    assert!(report.notification.is_none());
    let report = finish_switch(&mut cfg, "acme", "token-acme", false, true, true);
    assert!(!report.persist);
    assert!(report.notification.is_none());
}
