use yaromchecker::dat::DumpStatus;
use yaromchecker::matching::{FileStatus, SetStatus};
use yaromchecker::messages::{
    file_status_text, marked_file_status, replace_all, set_status, unsupported_locale_message,
    Messages,
};

fn table(rows: &[(&str, &str)]) -> Vec<(String, String)> {
    rows.iter()
        .map(|(key, value)| (key.to_string(), value.to_string()))
        .collect()
}

fn english() -> Vec<(String, String)> {
    table(&[
        ("scan_complete", "Scan complete"),
        (
            "scan_summary",
            "Scanned {entries} entries ({hashed} hashed, {reused} reused containers).",
        ),
        ("status_have", "Have"),
        ("status_wrong_name", "WrongName"),
        ("status_wrong_dump", "WrongDump"),
        ("status_duplicate", "Duplicate"),
        ("status_extra", "Extra"),
        ("status_baddump", "{status} (baddump)"),
        ("set_status_complete", "Complete"),
        ("set_status_incomplete", "Incomplete"),
        ("set_status_missing", "Missing"),
    ])
}

fn japanese() -> Vec<(String, String)> {
    table(&[("status_have", "所持")])
}

#[test]
fn selected_locale_falls_back_to_english_for_missing_keys() {
    let messages = Messages::for_locale("ja", english(), japanese()).unwrap();
    assert_eq!(messages.text("scan_complete", "fallback"), "Scan complete");
}

#[test]
fn formats_scan_summary_from_locale_resource() {
    let messages = Messages::for_locale("en", english(), japanese()).unwrap();
    assert_eq!(
        messages.format(
            "scan_summary",
            "fallback",
            &[
                ("entries", "3".to_owned()),
                ("hashed", "2".to_owned()),
                ("reused", "1".to_owned()),
            ],
        ),
        "Scanned 3 entries (2 hashed, 1 reused containers)."
    );
}

#[test]
fn provides_english_text_for_every_file_status() {
    let messages = Messages::for_locale("en", english(), japanese()).unwrap();
    assert_eq!(file_status_text(&messages, FileStatus::Have), "Have");
    assert_eq!(
        file_status_text(&messages, FileStatus::WrongName),
        "WrongName"
    );
    assert_eq!(
        file_status_text(&messages, FileStatus::WrongDump),
        "WrongDump"
    );
    assert_eq!(
        file_status_text(&messages, FileStatus::Duplicate),
        "Duplicate"
    );
    assert_eq!(file_status_text(&messages, FileStatus::Extra), "Extra");
    assert_eq!(
        marked_file_status(&messages, FileStatus::Have, Some(DumpStatus::BadDump)),
        "Have (baddump)"
    );
}

#[test]
fn selected_locale_wins_over_english() {
    let messages = Messages::for_locale("ja", english(), japanese()).unwrap();
    assert_eq!(file_status_text(&messages, FileStatus::Have), "所持");
    assert_eq!(
        marked_file_status(&messages, FileStatus::Have, Some(DumpStatus::Good)),
        "所持"
    );
}

#[test]
fn unknown_key_gives_the_fallback_text() {
    let messages = Messages::for_locale("en", vec![], vec![]).unwrap();
    assert_eq!(messages.text("nothing", "Default text"), "Default text");
    assert!(!messages.has("nothing"));
    assert_eq!(file_status_text(&messages, FileStatus::Extra), "Extra");
    assert_eq!(
        marked_file_status(&messages, FileStatus::Duplicate, Some(DumpStatus::BadDump)),
        "Duplicate (baddump)"
    );
}

#[test]
fn unsupported_locale_is_refused_with_a_message() {
    assert!(Messages::for_locale("fr", english(), japanese()).is_none());
    assert_eq!(
        unsupported_locale_message(&english(), "fr"),
        "Unsupported locale: fr"
    );
    let with_text = table(&[("unsupported_locale", "Locale not supported")]);
    assert_eq!(
        unsupported_locale_message(&with_text, "xx"),
        "Locale not supported: xx"
    );
}

#[test]
fn placeholders_are_replaced_everywhere_and_unknown_ones_stay() {
    let messages = Messages::for_locale("en", vec![], vec![]).unwrap();
    assert_eq!(
        messages.format(
            "k",
            "{a}-{a}-{b}-{c}",
            &[("a", "x".to_owned()), ("b", "{a}".to_owned())],
        ),
        "x-x-{a}-{c}"
    );
}

#[test]
fn replacement_scans_left_to_right_without_overlap() {
    let s: Vec<char> = "aaaa".chars().collect();
    let pat: Vec<char> = "aa".chars().collect();
    let rep: Vec<char> = "b".chars().collect();
    assert_eq!(replace_all(&s, &pat, &rep).into_iter().collect::<String>(), "bb");
    let s: Vec<char> = "aaa".chars().collect();
    assert_eq!(replace_all(&s, &pat, &rep).into_iter().collect::<String>(), "ba");
}

#[test]
fn set_status_texts_come_from_the_tables() {
    let messages = Messages::for_locale("en", english(), japanese()).unwrap();
    assert_eq!(set_status(&messages, SetStatus::Complete), "Complete");
    assert_eq!(set_status(&messages, SetStatus::Incomplete), "Incomplete");
    assert_eq!(set_status(&messages, SetStatus::MissingSet), "Missing");
}
