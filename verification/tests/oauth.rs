use qspost::codec::{decode, encode};
use qspost::oauth::{
    begin_outcome, complete_outcome, exchange_request, redirect_target, registration_request,
    RegistrationReply, Scope,
};
use qspost::prefs::apply_submission;
use qspost::publish::{prepare_publish, publish_outcome, PublishAction, Visibility};

#[test]
fn redirect_target_is_fixed() {
    assert_eq!(
        redirect_target("http://localhost:8000"),
        "http://localhost:8000/finish_login"
    );
}

#[test]
fn registration_asks_for_the_write_scope_only() {
    let req = registration_request("example.social", "QSPost", "http://localhost:8000");
    assert_eq!(req.instance_base_url, "example.social");
    assert_eq!(req.client_name, "QSPost");
    assert_eq!(req.redirect_uri, "http://localhost:8000/finish_login");
    assert_eq!(req.scope, Scope::WriteStatuses);
}

#[test]
fn begin_failure_carries_the_remote_text() {
    let r = begin_outcome("example.social", Err(String::from("unreachable")));
    assert_eq!(r.unwrap_err().message, "unreachable");
}

#[test]
fn begin_success_yields_a_pending_record() {
    let reply = RegistrationReply {
        client_id: String::from("cid"),
        client_secret: String::from("SECRET-REDACTED"),
        authorization_url: String::from("https://example.social/oauth/authorize?x=1"),
    };
    let (url, record) = begin_outcome("example.social", Ok(reply)).unwrap();
    assert!(url.contains("example.social"));
    assert_eq!(record.instance_base_url, "example.social");
    assert_eq!(record.client_id, "cid");
    assert_eq!(record.client_secret, "SECRET-REDACTED");
    assert_eq!(record.access_token, None);
    assert!(record.post_privately_default);
    assert!(record.hashtags.is_empty());
}

#[test]
fn exchange_reconstructs_the_registration_context() {
    let reply = RegistrationReply {
        client_id: String::from("cid"),
        client_secret: String::from("SECRET-REDACTED"),
        authorization_url: String::from("https://example.social/oauth/authorize"),
    };
    let (_, pending) = begin_outcome("example.social", Ok(reply)).unwrap();
    let req = exchange_request(&pending, "http://localhost:8000");
    assert_eq!(req.instance_base_url, "example.social");
    assert_eq!(req.client_id, "cid");
    assert_eq!(req.client_secret, "SECRET-REDACTED");
    assert_eq!(req.redirect_uri, "http://localhost:8000/finish_login");
    assert_eq!(req.scope, Scope::WriteStatuses);
}

#[test]
fn complete_failure_carries_the_remote_text() {
    let reply = RegistrationReply {
        client_id: String::from("cid"),
        client_secret: String::from("SECRET-REDACTED"),
        authorization_url: String::from("https://example.social/oauth/authorize"),
    };
    let (_, pending) = begin_outcome("example.social", Ok(reply)).unwrap();
    let r = complete_outcome(&pending, Err(String::from("invalid code")));
    assert_eq!(r.unwrap_err().message, "invalid code");
}

#[test]
fn end_to_end_login_and_post() {
    // An anonymous visitor starts a login against an instance.
    let reply = RegistrationReply {
        client_id: String::from("cid"),
        client_secret: String::from("SECRET-REDACTED"),
        authorization_url: String::from("https://example.social/oauth/authorize?client_id=cid"),
    };
    let (auth_url, pending) = begin_outcome("example.social", Ok(reply)).unwrap();
    assert!(auth_url.contains("example.social"));
    assert_eq!(pending.access_token, None);

    // The pending record survives the round trip through the cookie.
    let pending = decode(&encode(&pending)).unwrap();

    // The consent redirect comes back and the code exchange succeeds.
    let authorized = complete_outcome(&pending, Ok(String::from("tok-99"))).unwrap();
    assert_eq!(authorized.access_token, Some(String::from("tok-99")));
    assert_eq!(authorized.instance_base_url, "example.social");
    assert_eq!(authorized.client_id, "cid");

    // The user configures preferences, then posts.
    let authorized = apply_submission(authorized, false, "#verified #post");
    let authorized = decode(&encode(&authorized)).unwrap();
    let action = prepare_publish(&authorized, "hello world", None, redirect_target("http://app"));
    match action {
        PublishAction::Submit(req) => {
            assert_eq!(req.status_text, "hello world\n\n#verified #post");
            assert_eq!(req.visibility, Visibility::Unlisted);
            assert_eq!(req.access_token, "tok-99");
            let posted = publish_outcome(Ok(String::from("https://example.social/@me/42")));
            assert_eq!(posted.unwrap(), "https://example.social/@me/42");
        }
        PublishAction::RestartLogin => panic!("an authorized record must submit"),
    }
}
