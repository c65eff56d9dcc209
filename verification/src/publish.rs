use vstd::prelude::*;
use crate::session::SessionRecord;
use crate::text::composed_text;
use crate::text::joined;
use crate::text::lemma_joined_snoc;

verus! {

/// The two visibility levels a status can be published with.  No broader
/// level is ever exposed.
#[derive(Clone, Copy, Debug, PartialEq, Eq, Structural)]
pub enum Visibility {
    /// Private-equivalent: visible only to mentioned parties.
    Direct,
    /// Unlisted-public-equivalent.
    Unlisted,
}

/// A failure reported by the remote instance while publishing.
#[derive(Debug)]
pub struct PublishError {
    pub message: String,
}

/// One status-creation call, ready for the transport.
pub struct StatusRequest {
    pub instance_base_url: String,
    pub client_id: String,
    pub client_secret: String,
    pub access_token: String,
    pub redirect_uri: String,
    pub status_text: String,
    pub visibility: Visibility,
}

/// What the publisher decides to do with a submission.
pub enum PublishAction {
    /// The session is pending (no access token): the remote service is not
    /// called; the visitor is sent back to the entry page.  By design this
    /// is not an error.
    RestartLogin,
    /// Submit this status creation request to the instance.
    Submit(StatusRequest),
}

/// The effective visibility of a post: the explicit override when one is
/// given, else the record's stored default.
pub open spec fn chosen_visibility(default_private: bool, requested: Option<bool>) -> Visibility {
    let private = match requested {
        Some(p) => p,
        None => default_private,
    };
    if private {
        Visibility::Direct
    } else {
        Visibility::Unlisted
    }
}

pub fn choose_visibility(default_private: bool, requested: Option<bool>) -> (v: Visibility)
    ensures
        v == chosen_visibility(default_private, requested),
{
    let private = match requested {
        Some(p) => p,
        None => default_private,
    };
    if private {
        Visibility::Direct
    } else {
        Visibility::Unlisted
    }
}

/// Builds the full text of a post: the body, a blank line, then the
/// configured hashtags joined by single spaces.  The blank line is appended
/// even when no hashtags are configured.
pub fn compose_text(body: &str, hashtags: &Vec<String>) -> (r: String)
    ensures
        r@ == composed_text(body@, hashtags.deep_view()),
{
    let mut out = body.to_owned();
    out.append("\n\n");
    proof {
        reveal_strlit("\n\n");
        assert("\n\n"@ =~= seq!['\n', '\n']);
        assert(joined(hashtags.deep_view().take(0)) =~= Seq::<char>::empty());
        assert(out@ =~= body@ + seq!['\n', '\n'] + joined(hashtags.deep_view().take(0)));
    }
    let mut k: usize = 0;
    while k < hashtags.len()
        invariant
            k <= hashtags@.len(),
            out@ == body@ + seq!['\n', '\n'] + joined(hashtags.deep_view().take(k as int)),
        decreases hashtags@.len() - k,
    {
        if k > 0 {
            out.append(" ");
        }
        out.append(hashtags[k].as_str());
        proof {
            reveal_strlit(" ");
            assert(" "@ =~= seq![' ']);
            let dv = hashtags.deep_view();
            let pre = dv.take(k as int);
            let post = dv.take(k + 1);
            assert(post.drop_last() =~= pre);
            assert(post.last() == dv[k as int]);
            assert(dv[k as int] == hashtags@[k as int]@);
            if k == 0 {
                assert(post =~= seq![dv[0]]);
                assert(joined(post) == post[0]);
            } else {
                lemma_joined_snoc(post);
            }
            assert(out@ =~= body@ + seq!['\n', '\n'] + joined(post));
        }
        k = k + 1;
    }
    proof {
        assert(hashtags.deep_view().take(hashtags@.len() as int) =~= hashtags.deep_view());
    }
    out
}

/// Decides what a post submission does.  A pending record (no access token)
/// is never sent to the remote service: the decision is a redirect back to
/// the entry page.  An authorized record yields a submission carrying the
/// record's credentials, the composed text, and the effective visibility.
pub fn prepare_publish(
    record: &SessionRecord,
    body: &str,
    requested: Option<bool>,
    redirect_uri: String,
) -> (a: PublishAction)
    ensures
        record@.is_pending() <==> a is RestartLogin,
        a matches PublishAction::Submit(req) ==> {
            &&& record@.access_token == Some(req.access_token@)
            &&& req.instance_base_url@ == record@.instance_base_url
            &&& req.client_id@ == record@.client_id
            &&& req.client_secret@ == record@.client_secret
            &&& req.redirect_uri == redirect_uri
            &&& req.status_text@ == composed_text(body@, record@.hashtags)
            &&& req.visibility == chosen_visibility(record@.post_privately_default, requested)
        },
{
    match &record.access_token {
        None => PublishAction::RestartLogin,
        Some(token) => PublishAction::Submit(
            StatusRequest {
                instance_base_url: record.instance_base_url.clone(),
                client_id: record.client_id.clone(),
                client_secret: record.client_secret.clone(),
                access_token: token.clone(),
                redirect_uri,
                status_text: compose_text(body, &record.hashtags),
                visibility: choose_visibility(record.post_privately_default, requested),
            },
        ),
    }
}

/// Maps the transport's reply to the publisher's result: the canonical URI
/// of the created status on success, the remote's error text on failure,
/// unretried.
pub fn publish_outcome(reply: Result<String, String>) -> (r: Result<String, PublishError>)
    ensures
        r is Ok <==> reply is Ok,
        reply matches Ok(uri) ==> r matches Ok(u) && u@ == uri@,
        reply matches Err(msg) ==> r matches Err(e) && e.message@ == msg@,
{
    match reply {
        Ok(uri) => Ok(uri),
        Err(msg) => Err(PublishError { message: msg }),
    }
}

} // verus!
