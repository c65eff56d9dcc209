use vstd::prelude::*;

verus! {

/// The user's durable state.  It is carried entirely inside a client-held
/// token and re-derived from that token on every request; the server keeps
/// no copy between requests.
#[derive(Debug)]
pub struct SessionRecord {
    /// Host or base URL of the federated instance the user authenticated against.
    pub instance_base_url: String,
    /// Client identifier issued by that instance during dynamic registration.
    pub client_id: String,
    /// Client secret issued together with `client_id`.
    pub client_secret: String,
    /// `None` while the session is pending (registered but not yet authorized);
    /// `Some` once the authorization-code exchange has produced a token.
    pub access_token: Option<String>,
    /// Default visibility preference for new statuses.
    pub post_privately_default: bool,
    /// Hashtags appended to every published status, in insertion order.
    /// Each entry starts with `'#'`.
    pub hashtags: Vec<String>,
}

/// Mathematical model of a [`SessionRecord`].
pub struct RecordView {
    pub instance_base_url: Seq<char>,
    pub client_id: Seq<char>,
    pub client_secret: Seq<char>,
    pub access_token: Option<Seq<char>>,
    pub post_privately_default: bool,
    pub hashtags: Seq<Seq<char>>,
}

impl View for SessionRecord {
    type V = RecordView;

    open spec fn view(&self) -> RecordView {
        RecordView {
            instance_base_url: self.instance_base_url@,
            client_id: self.client_id@,
            client_secret: self.client_secret@,
            access_token: match self.access_token {
                Some(t) => Some(t@),
                None => None,
            },
            post_privately_default: self.post_privately_default,
            hashtags: self.hashtags.deep_view(),
        }
    }
}

impl RecordView {
    /// Every stored hashtag is non-empty and starts with `'#'`.
    pub open spec fn well_formed(self) -> bool {
        forall|i: int|
            0 <= i < self.hashtags.len() ==> (#[trigger] self.hashtags[i]).len() > 0
                && self.hashtags[i][0] == '#'
    }

    /// A record is pending until the authorization-code exchange has
    /// populated `access_token`; posting is disallowed while pending.
    pub open spec fn is_pending(self) -> bool {
        self.access_token is None
    }
}

impl SessionRecord {
    /// Whether the session still awaits the authorization-code exchange.
    pub fn is_pending(&self) -> (r: bool)
        ensures
            r == self@.is_pending(),
    {
        match self.access_token {
            None => true,
            Some(_) => false,
        }
    }
}

} // verus!
