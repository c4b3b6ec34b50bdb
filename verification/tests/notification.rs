use gh_token_switch::notify::{escape_for_applescript, notification_script, Notification};

#[test]
fn escape_puts_a_backslash_before_each_quote() {
    assert_eq!(escape_for_applescript(""), "");
    assert_eq!(escape_for_applescript("plain"), "plain");
    assert_eq!(escape_for_applescript("\""), "\\\"");
    assert_eq!(escape_for_applescript("say \"hi\""), "say \\\"hi\\\"");
    assert_eq!(escape_for_applescript("\"\"x"), "\\\"\\\"x");
    assert_eq!(escape_for_applescript("gr\u{00fc}n \"a\""), "gr\u{00fc}n \\\"a\\\"");
    assert_eq!(escape_for_applescript("back\\slash"), "back\\slash");
}

#[test]
fn escape_agrees_with_replace() {
    let samples = ["", "a", "\"", "a\"b\"c", "\"\"\"", "x\u{3000}\"y", "tail\""];
    for s in samples {
        assert_eq!(escape_for_applescript(s), s.replace('"', "\\\""), "{:?}", s);
    }
}

#[test]
fn notification_script_exact_value() {
    let n = Notification {
        title: "GitHub token switched".to_string(),
        body: "Switched GitHub token: work".to_string(),
    };
    assert_eq!(
        notification_script(&n),
        "display notification \"Switched GitHub token: work\" with title \"GitHub token switched\""
    );
}

#[test]
fn notification_script_escapes_title_and_body() {
    let n = Notification { title: "a\"b".to_string(), body: "\"c\"".to_string() };
    assert_eq!(
        notification_script(&n),
        "display notification \"\\\"c\\\"\" with title \"a\\\"b\""
    );
}
