use qspost::prefs::apply_submission;
use qspost::session::SessionRecord;

fn base_record() -> SessionRecord {
    SessionRecord {
        instance_base_url: String::from("example.social"),
        client_id: String::from("id"),
        client_secret: String::from("SECRET-REDACTED"),
        access_token: Some(String::from("tok")),
        post_privately_default: true,
        hashtags: vec![String::from("#old")],
    }
}

#[test]
fn hashtag_filtering_keeps_only_hash_tokens() {
    let r = apply_submission(base_record(), true, "hello #a world #b  #");
    assert_eq!(r.hashtags, vec!["#a", "#b", "#"]);
}

#[test]
fn submission_replaces_the_whole_list() {
    let r = apply_submission(base_record(), true, "#x");
    assert_eq!(r.hashtags, vec!["#x"]);
}

#[test]
fn empty_submission_clears_the_list() {
    let r = apply_submission(base_record(), true, "   nothing here  ");
    assert!(r.hashtags.is_empty());
}

#[test]
fn all_ascii_whitespace_kinds_delimit() {
    let r = apply_submission(base_record(), true, "#a\t#b\n#c\r#d\u{c}#e");
    assert_eq!(r.hashtags, vec!["#a", "#b", "#c", "#d", "#e"]);
}

#[test]
fn non_ascii_whitespace_does_not_delimit() {
    // U+00A0 is whitespace but not ASCII whitespace: the token stays whole.
    let r = apply_submission(base_record(), true, "#a\u{a0}#b");
    assert_eq!(r.hashtags, vec!["#a\u{a0}#b"]);
}

#[test]
fn hash_inside_a_token_does_not_count() {
    let r = apply_submission(base_record(), true, "a#b #c");
    assert_eq!(r.hashtags, vec!["#c"]);
}

#[test]
fn post_privately_overwrites_default() {
    let r = apply_submission(base_record(), false, "");
    assert!(!r.post_privately_default);
    let r = apply_submission(r, true, "");
    assert!(r.post_privately_default);
}

#[test]
fn other_fields_are_untouched() {
    let r = apply_submission(base_record(), false, "#n");
    assert_eq!(r.instance_base_url, "example.social");
    assert_eq!(r.client_id, "id");
    assert_eq!(r.client_secret, "SECRET-REDACTED");
    assert_eq!(r.access_token, Some(String::from("tok")));
}
