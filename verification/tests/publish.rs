use qspost::publish::{
    compose_text, prepare_publish, publish_outcome, PublishAction, Visibility,
};
use qspost::session::SessionRecord;

fn authorized(private_default: bool, hashtags: Vec<String>) -> SessionRecord {
    SessionRecord {
        instance_base_url: String::from("example.social"),
        client_id: String::from("id"),
        client_secret: String::from("SECRET-REDACTED"),
        access_token: Some(String::from("tok")),
        post_privately_default: private_default,
        hashtags,
    }
}

fn pending() -> SessionRecord {
    SessionRecord {
        access_token: None,
        ..authorized(true, vec![])
    }
}

#[test]
fn pending_record_is_never_submitted() {
    let a = prepare_publish(&pending(), "hello", None, String::from("r"));
    assert!(matches!(a, PublishAction::RestartLogin));
}

#[test]
fn default_private_selects_direct() {
    let a = prepare_publish(&authorized(true, vec![]), "hi", None, String::from("r"));
    match a {
        PublishAction::Submit(req) => assert_eq!(req.visibility, Visibility::Direct),
        PublishAction::RestartLogin => panic!("authorized record must submit"),
    }
}

#[test]
fn explicit_override_beats_the_default() {
    let a = prepare_publish(&authorized(true, vec![]), "hi", Some(false), String::from("r"));
    match a {
        PublishAction::Submit(req) => assert_eq!(req.visibility, Visibility::Unlisted),
        PublishAction::RestartLogin => panic!("authorized record must submit"),
    }
    let a = prepare_publish(&authorized(false, vec![]), "hi", Some(true), String::from("r"));
    match a {
        PublishAction::Submit(req) => assert_eq!(req.visibility, Visibility::Direct),
        PublishAction::RestartLogin => panic!("authorized record must submit"),
    }
}

#[test]
fn default_public_selects_unlisted() {
    let a = prepare_publish(&authorized(false, vec![]), "hi", None, String::from("r"));
    match a {
        PublishAction::Submit(req) => assert_eq!(req.visibility, Visibility::Unlisted),
        PublishAction::RestartLogin => panic!("authorized record must submit"),
    }
}

#[test]
fn composed_text_is_exact() {
    let tags = vec![String::from("#a"), String::from("#b")];
    assert_eq!(compose_text("hi", &tags), "hi\n\n#a #b");
}

#[test]
fn composed_text_keeps_blank_line_without_tags() {
    assert_eq!(compose_text("hi", &vec![]), "hi\n\n");
}

#[test]
fn submission_carries_credentials_and_text() {
    let tags = vec![String::from("#a"), String::from("#b")];
    let a = prepare_publish(&authorized(true, tags), "hi", None, String::from("redir"));
    match a {
        PublishAction::Submit(req) => {
            assert_eq!(req.instance_base_url, "example.social");
            assert_eq!(req.client_id, "id");
            assert_eq!(req.client_secret, "SECRET-REDACTED");
            assert_eq!(req.access_token, "tok");
            assert_eq!(req.redirect_uri, "redir");
            assert_eq!(req.status_text, "hi\n\n#a #b");
        }
        PublishAction::RestartLogin => panic!("authorized record must submit"),
    }
}

#[test]
fn outcome_maps_success_to_the_uri() {
    let r = publish_outcome(Ok(String::from("https://example.social/@u/1")));
    assert_eq!(r.unwrap(), "https://example.social/@u/1");
}

#[test]
fn outcome_maps_failure_to_the_remote_text() {
    let r = publish_outcome(Err(String::from("revoked")));
    assert_eq!(r.unwrap_err().message, "revoked");
}
