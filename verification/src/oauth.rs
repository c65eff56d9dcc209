use vstd::prelude::*;
use crate::session::RecordView;
use crate::session::SessionRecord;

verus! {

/// The one OAuth scope this application ever requests: permission to
/// publish statuses, and nothing broader.
#[derive(Clone, Copy, Debug, PartialEq, Eq, Structural)]
pub enum Scope {
    WriteStatuses,
}

/// A dynamic client-registration request, ready for the transport.
pub struct RegistrationRequest {
    pub instance_base_url: String,
    pub client_name: String,
    pub redirect_uri: String,
    pub scope: Scope,
}

/// What the instance answers a successful registration with.
pub struct RegistrationReply {
    pub client_id: String,
    pub client_secret: String,
    pub authorization_url: String,
}

/// A failure reported by the remote instance during client registration.
#[derive(Debug)]
pub struct RegistrationError {
    pub message: String,
}

/// A failure reported by the remote instance during the authorization-code
/// exchange.
#[derive(Debug)]
pub struct ExchangeError {
    pub message: String,
}

/// The fixed redirect target of this application, under its public base URL.
pub fn redirect_target(public_base_url: &str) -> (r: String)
    ensures
        r@ == public_base_url@ + "/finish_login"@,
{
    public_base_url.to_owned().concat("/finish_login")
}

/// Builds the registration request that starts a login: dynamic client
/// registration against the visitor's instance, redirecting back to this
/// application, with the status-write scope only.
pub fn registration_request(instance: &str, app_name: &str, public_base_url: &str) -> (r:
    RegistrationRequest)
    ensures
        r.instance_base_url@ == instance@,
        r.client_name@ == app_name@,
        r.redirect_uri@ == public_base_url@ + "/finish_login"@,
        r.scope == Scope::WriteStatuses,
{
    RegistrationRequest {
        instance_base_url: instance.to_owned(),
        client_name: app_name.to_owned(),
        redirect_uri: redirect_target(public_base_url),
        scope: Scope::WriteStatuses,
    }
}

/// Turns the transport's registration reply into the result of beginning a
/// login.  On success: the authorization URL the user must visit, and the
/// pending record the caller must persist before redirecting — it pairs the
/// issued credentials with the instance that issued them, has no token yet,
/// defaults to private posting and has no hashtags.  On failure: the
/// remote's error text, unretried.
pub fn begin_outcome(instance: &str, reply: Result<RegistrationReply, String>) -> (r: Result<
    (String, SessionRecord),
    RegistrationError,
>)
    ensures
        r is Ok <==> reply is Ok,
        reply matches Ok(rr) ==> r matches Ok(p) && {
            &&& p.0@ == rr.authorization_url@
            &&& p.1@.instance_base_url == instance@
            &&& p.1@.client_id == rr.client_id@
            &&& p.1@.client_secret == rr.client_secret@
            &&& p.1@.access_token is None
            &&& p.1@.post_privately_default == true
            &&& p.1@.hashtags == Seq::<Seq<char>>::empty()
            &&& p.1@.well_formed()
        },
        reply matches Err(msg) ==> r matches Err(e) && e.message@ == msg@,
{
    match reply {
        Ok(rr) => {
            let record = SessionRecord {
                instance_base_url: instance.to_owned(),
                client_id: rr.client_id,
                client_secret: rr.client_secret,
                access_token: None,
                post_privately_default: true,
                hashtags: Vec::new(),
            };
            proof {
                assert(record@.hashtags =~= Seq::<Seq<char>>::empty());
            }
            Ok((rr.authorization_url, record))
        },
        Err(msg) => Err(RegistrationError { message: msg }),
    }
}

/// The client context reconstructed for the code exchange: the same
/// instance, credentials, redirect target and scope that registration used.
pub struct ExchangeRequest {
    pub instance_base_url: String,
    pub client_id: String,
    pub client_secret: String,
    pub redirect_uri: String,
    pub scope: Scope,
}

/// Rebuilds the registration context a pending record was created with, for
/// exchanging the one-time authorization code.
pub fn exchange_request(pending: &SessionRecord, public_base_url: &str) -> (r: ExchangeRequest)
    requires
        pending@.is_pending(),
    ensures
        r.instance_base_url@ == pending@.instance_base_url,
        r.client_id@ == pending@.client_id,
        r.client_secret@ == pending@.client_secret,
        r.redirect_uri@ == public_base_url@ + "/finish_login"@,
        r.scope == Scope::WriteStatuses,
{
    ExchangeRequest {
        instance_base_url: pending.instance_base_url.clone(),
        client_id: pending.client_id.clone(),
        client_secret: pending.client_secret.clone(),
        redirect_uri: redirect_target(public_base_url),
        scope: Scope::WriteStatuses,
    }
}

/// The record a successful exchange leaves behind: the pending record with
/// its token filled in; every other field is preserved unchanged.
pub fn complete_record(pending: &SessionRecord, token: String) -> (r: SessionRecord)
    requires
        pending@.is_pending(),
    ensures
        r@ == (RecordView { access_token: Some(token@), ..pending@ }),
{
    SessionRecord {
        instance_base_url: pending.instance_base_url.clone(),
        client_id: pending.client_id.clone(),
        client_secret: pending.client_secret.clone(),
        access_token: Some(token),
        post_privately_default: pending.post_privately_default,
        hashtags: clone_tags(&pending.hashtags),
    }
}

fn clone_tags(tags: &Vec<String>) -> (r: Vec<String>)
    ensures
        r.deep_view() == tags.deep_view(),
{
    let mut r: Vec<String> = Vec::new();
    let mut k: usize = 0;
    proof {
        assert(r.deep_view() =~= tags.deep_view().take(0));
    }
    while k < tags.len()
        invariant
            k <= tags@.len(),
            r.deep_view() == tags.deep_view().take(k as int),
        decreases tags@.len() - k,
    {
        let ghost pre = r.deep_view();
        r.push(tags[k].clone());
        proof {
            assert(r.deep_view() =~= pre.push(tags@[k as int]@));
            assert(tags.deep_view().take(k + 1) =~= tags.deep_view().take(k as int).push(
                tags@[k as int]@,
            ));
        }
        k = k + 1;
    }
    proof {
        assert(tags.deep_view().take(tags@.len() as int) =~= tags.deep_view());
    }
    r
}

/// Turns the transport's token-exchange reply into the result of completing
/// a login: the authorized record on success, the remote's error text on
/// failure, unretried.
pub fn complete_outcome(pending: &SessionRecord, reply: Result<String, String>) -> (r: Result<
    SessionRecord,
    ExchangeError,
>)
    requires
        pending@.is_pending(),
    ensures
        r is Ok <==> reply is Ok,
        reply matches Ok(tok) ==> r matches Ok(rec) && rec@ == (RecordView {
            access_token: Some(tok@),
            ..pending@
        }),
        reply matches Err(msg) ==> r matches Err(e) && e.message@ == msg@,
{
    match reply {
        Ok(tok) => Ok(complete_record(pending, tok)),
        Err(msg) => Err(ExchangeError { message: msg }),
    }
}

} // verus!
