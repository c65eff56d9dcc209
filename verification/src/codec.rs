use vstd::prelude::*;
use vstd::bytes::lemma_auto_spec_u32_to_from_le_bytes;
use vstd::bytes::lemma_auto_spec_u64_to_from_le_bytes;
use vstd::bytes::spec_u32_from_le_bytes;
use vstd::bytes::spec_u32_to_le_bytes;
use vstd::bytes::spec_u64_from_le_bytes;
use vstd::bytes::spec_u64_to_le_bytes;
use vstd::bytes::u32_to_le_bytes;
use vstd::bytes::u64_to_le_bytes;
use vstd::bytes::u32_from_le_bytes;
use vstd::bytes::u64_from_le_bytes;
use vstd::slice::slice_subrange;
use vstd::utf8::is_scalar;
use vstd::utf8::char_is_scalar;
use vstd::utf8::char_u32_cast;
use crate::session::RecordView;
use crate::session::SessionRecord;
use crate::wire::byte_sum;
use crate::wire::checksum;
use crate::wire::compute_checksum;
use crate::wire::lemma_byte_sum_nonneg;
use crate::wire::lemma_byte_sum_update;
use crate::wire::lemma_mod_u64_distinct;
use crate::wire::u64_bound;

verus! {

/// Why a token failed to decode.
#[derive(Clone, Copy, Debug, PartialEq, Eq, Structural)]
pub enum DecodeError {
    /// The integrity trailer does not match the payload: the token was
    /// tampered with or truncated.  The caller must discard the stored token
    /// and treat the session as absent.
    Corrupt,
    /// The trailer matches but the payload is not the image of any record
    /// (for example after a format change).  Same remediation as `Corrupt`.
    Malformed,
}

// ------------------------------------------------------------------
// The token format, written as functions from a record to its bytes.
// ------------------------------------------------------------------
/// Byte image of one character: its Unicode scalar value, little endian.
pub open spec fn enc_char(c: char) -> Seq<u8> {
    spec_u32_to_le_bytes(c as u32)
}

/// Byte image of a string body: each character in order.
pub open spec fn enc_chars(s: Seq<char>) -> Seq<u8>
    decreases s.len(),
{
    if s.len() == 0 {
        Seq::empty()
    } else {
        enc_char(s[0]) + enc_chars(s.drop_first())
    }
}

/// Byte image of a string: its character count, then its characters.
pub open spec fn enc_str(s: Seq<char>) -> Seq<u8> {
    spec_u64_to_le_bytes(s.len() as u64) + enc_chars(s)
}

/// Byte image of the optional access token: a presence tag, then the string.
pub open spec fn enc_token(t: Option<Seq<char>>) -> Seq<u8> {
    match t {
        None => seq![0u8],
        Some(s) => seq![1u8] + enc_str(s),
    }
}

pub open spec fn enc_bool(b: bool) -> Seq<u8> {
    if b {
        seq![1u8]
    } else {
        seq![0u8]
    }
}

/// Byte image of the hashtag list body (its count is written separately).
pub open spec fn enc_tags(ts: Seq<Seq<char>>) -> Seq<u8>
    decreases ts.len(),
{
    if ts.len() == 0 {
        Seq::empty()
    } else {
        enc_str(ts[0]) + enc_tags(ts.drop_first())
    }
}

/// Byte image of a whole record, before the integrity trailer.
pub open spec fn enc_record(r: RecordView) -> Seq<u8> {
    enc_str(r.instance_base_url) + enc_str(r.client_id) + enc_str(r.client_secret) + enc_token(
        r.access_token,
    ) + enc_bool(r.post_privately_default) + spec_u64_to_le_bytes(r.hashtags.len() as u64)
        + enc_tags(r.hashtags)
}

/// A token is the record image followed by the checksum of that image,
/// little endian.
pub open spec fn spec_encode(r: RecordView) -> Seq<u8> {
    enc_record(r) + spec_u64_to_le_bytes(checksum(enc_record(r)))
}

/// Every count of the record fits the 64-bit length fields of the token
/// format.  Any record held in memory satisfies this.
pub open spec fn bounded(r: RecordView) -> bool {
    &&& r.instance_base_url.len() < u64_bound()
    &&& r.client_id.len() < u64_bound()
    &&& r.client_secret.len() < u64_bound()
    &&& (r.access_token matches Some(t) ==> t.len() < u64_bound())
    &&& r.hashtags.len() < u64_bound()
    &&& forall|i: int| 0 <= i < r.hashtags.len() ==> (#[trigger] r.hashtags[i]).len() < u64_bound()
}

// ------------------------------------------------------------------
// The grammar read back: positional parsers over the payload bytes.
// Each returns the parsed value and the position after it.
// ------------------------------------------------------------------
pub open spec fn dec_u64(p: Seq<u8>, i: int) -> Option<(u64, int)> {
    if 0 <= i && i + 8 <= p.len() {
        Some((spec_u64_from_le_bytes(p.subrange(i, i + 8)), i + 8))
    } else {
        None
    }
}

pub open spec fn dec_u32(p: Seq<u8>, i: int) -> Option<(u32, int)> {
    if 0 <= i && i + 4 <= p.len() {
        Some((spec_u32_from_le_bytes(p.subrange(i, i + 4)), i + 4))
    } else {
        None
    }
}

/// A character is read back from its scalar value; values outside the scalar
/// range reject the token.
pub open spec fn dec_char(p: Seq<u8>, i: int) -> Option<(char, int)> {
    match dec_u32(p, i) {
        Some((v, j)) => if is_scalar(v) {
            Some((v as char, j))
        } else {
            None
        },
        None => None,
    }
}

pub open spec fn dec_chars(p: Seq<u8>, i: int, n: nat) -> Option<(Seq<char>, int)>
    decreases n,
{
    if n == 0 {
        Some((Seq::empty(), i))
    } else {
        match dec_char(p, i) {
            Some((c, j)) => match dec_chars(p, j, (n - 1) as nat) {
                Some((cs, e)) => Some((seq![c] + cs, e)),
                None => None,
            },
            None => None,
        }
    }
}

pub open spec fn dec_str(p: Seq<u8>, i: int) -> Option<(Seq<char>, int)> {
    match dec_u64(p, i) {
        Some((n, j)) => dec_chars(p, j, n as nat),
        None => None,
    }
}

pub open spec fn dec_token(p: Seq<u8>, i: int) -> Option<(Option<Seq<char>>, int)> {
    if 0 <= i && i < p.len() {
        if p[i] == 0 {
            Some((None, i + 1))
        } else if p[i] == 1 {
            match dec_str(p, i + 1) {
                Some((s, j)) => Some((Some(s), j)),
                None => None,
            }
        } else {
            None
        }
    } else {
        None
    }
}

pub open spec fn dec_bool(p: Seq<u8>, i: int) -> Option<(bool, int)> {
    if 0 <= i && i < p.len() {
        if p[i] == 0 {
            Some((false, i + 1))
        } else if p[i] == 1 {
            Some((true, i + 1))
        } else {
            None
        }
    } else {
        None
    }
}

pub open spec fn dec_tags(p: Seq<u8>, i: int, n: nat) -> Option<(Seq<Seq<char>>, int)>
    decreases n,
{
    if n == 0 {
        Some((Seq::empty(), i))
    } else {
        match dec_str(p, i) {
            Some((t, j)) => match dec_tags(p, j, (n - 1) as nat) {
                Some((ts, e)) => Some((seq![t] + ts, e)),
                None => None,
            },
            None => None,
        }
    }
}

/// A payload is the image of exactly one record, read field by field; any
/// leftover bytes reject it.
pub open spec fn dec_record(p: Seq<u8>) -> Option<RecordView> {
    match dec_str(p, 0) {
        Some((url, i1)) => match dec_str(p, i1) {
            Some((id, i2)) => match dec_str(p, i2) {
                Some((secret, i3)) => match dec_token(p, i3) {
                    Some((tok, i4)) => match dec_bool(p, i4) {
                        Some((privately, i5)) => match dec_u64(p, i5) {
                            Some((n, i6)) => match dec_tags(p, i6, n as nat) {
                                Some((ts, e)) => if e == p.len() {
                                    Some(
                                        RecordView {
                                            instance_base_url: url,
                                            client_id: id,
                                            client_secret: secret,
                                            access_token: tok,
                                            post_privately_default: privately,
                                            hashtags: ts,
                                        },
                                    )
                                } else {
                                    None
                                },
                                None => None,
                            },
                            None => None,
                        },
                        None => None,
                    },
                    None => None,
                },
                None => None,
            },
            None => None,
        },
        None => None,
    }
}

/// The payload part of a token: everything before the 8-byte trailer.
pub open spec fn payload_of(t: Seq<u8>) -> Seq<u8> {
    t.subrange(0, t.len() - 8)
}

/// The trailer part of a token: its last 8 bytes.
pub open spec fn trailer_of(t: Seq<u8>) -> Seq<u8> {
    t.subrange(t.len() - 8, t.len() as int)
}

/// A token passes the integrity check when its trailer is the checksum of
/// its payload.
pub open spec fn integrity_ok(t: Seq<u8>) -> bool {
    t.len() >= 8 && trailer_of(t) == spec_u64_to_le_bytes(checksum(payload_of(t)))
}

/// What `decode` returns, as a function of the token bytes: the integrity
/// check decides `Corrupt`, the grammar decides `Malformed`.
pub open spec fn spec_decode(t: Seq<u8>) -> Result<RecordView, DecodeError> {
    if !integrity_ok(t) {
        Err(DecodeError::Corrupt)
    } else {
        match dec_record(payload_of(t)) {
            Some(r) => Ok(r),
            None => Err(DecodeError::Malformed),
        }
    }
}

// ------------------------------------------------------------------
// Encoding.
// ------------------------------------------------------------------
fn push_u64(out: &mut Vec<u8>, v: u64)
    ensures
        final(out)@ == old(out)@ + spec_u64_to_le_bytes(v),
{
    let mut b = u64_to_le_bytes(v);
    out.append(&mut b);
}

fn push_u32(out: &mut Vec<u8>, v: u32)
    ensures
        final(out)@ == old(out)@ + spec_u32_to_le_bytes(v),
{
    let mut b = u32_to_le_bytes(v);
    out.append(&mut b);
}

proof fn lemma_enc_chars_snoc(s: Seq<char>)
    requires
        s.len() > 0,
    ensures
        enc_chars(s) == enc_chars(s.drop_last()) + enc_char(s.last()),
    decreases s.len(),
{
    if s.len() == 1 {
        assert(s.drop_last() =~= Seq::<char>::empty());
        assert(s.drop_first() =~= Seq::<char>::empty());
        assert(enc_chars(s) =~= enc_chars(s.drop_last()) + enc_char(s.last()));
    } else {
        let r = s.drop_first();
        lemma_enc_chars_snoc(r);
        assert(r.drop_last() =~= s.drop_last().drop_first());
        assert(r.last() == s.last());
        assert(s.drop_last()[0] == s[0]);
        assert(enc_chars(s.drop_last()) == enc_char(s[0]) + enc_chars(s.drop_last().drop_first()));
        assert(enc_chars(s) =~= enc_chars(s.drop_last()) + enc_char(s.last()));
    }
}

proof fn lemma_enc_tags_snoc(ts: Seq<Seq<char>>)
    requires
        ts.len() > 0,
    ensures
        enc_tags(ts) == enc_tags(ts.drop_last()) + enc_str(ts.last()),
    decreases ts.len(),
{
    if ts.len() == 1 {
        assert(ts.drop_last() =~= Seq::<Seq<char>>::empty());
        assert(ts.drop_first() =~= Seq::<Seq<char>>::empty());
        assert(enc_tags(ts) =~= enc_tags(ts.drop_last()) + enc_str(ts.last()));
    } else {
        let r = ts.drop_first();
        lemma_enc_tags_snoc(r);
        assert(r.drop_last() =~= ts.drop_last().drop_first());
        assert(r.last() == ts.last());
        assert(ts.drop_last()[0] == ts[0]);
        assert(enc_tags(ts.drop_last()) == enc_str(ts[0]) + enc_tags(ts.drop_last().drop_first()));
        assert(enc_tags(ts) =~= enc_tags(ts.drop_last()) + enc_str(ts.last()));
    }
}

/// Appends the byte image of one string.
fn push_str(out: &mut Vec<u8>, s: &String)
    ensures
        final(out)@ == old(out)@ + enc_str(s@),
{
    let n = s.as_str().unicode_len();
    push_u64(out, n as u64);
    let mut k: usize = 0;
    proof {
        assert(s@.take(0) =~= Seq::<char>::empty());
        assert(out@ =~= old(out)@ + spec_u64_to_le_bytes(s@.len() as u64) + enc_chars(s@.take(0)));
    }
    while k < n
        invariant
            k <= n,
            n as nat == s@.len(),
            out@ == old(out)@ + spec_u64_to_le_bytes(s@.len() as u64) + enc_chars(
                s@.take(k as int),
            ),
        decreases n - k,
    {
        let c = s.as_str().get_char(k);
        push_u32(out, c as u32);
        proof {
            let pre = s@.take(k as int);
            let post = s@.take(k + 1);
            lemma_enc_chars_snoc(post);
            assert(post.drop_last() =~= pre);
            assert(post.last() == c);
            assert(out@ =~= old(out)@ + spec_u64_to_le_bytes(s@.len() as u64) + enc_chars(post));
        }
        k = k + 1;
    }
    proof {
        assert(s@.take(n as int) =~= s@);
        assert(out@ =~= old(out)@ + enc_str(s@));
    }
}

/// Serializes a record into an integrity-checked token.  Never fails.
pub fn encode(r: &SessionRecord) -> (t: Vec<u8>)
    ensures
        t@ == spec_encode(r@),
{
    let mut out: Vec<u8> = Vec::new();
    push_str(&mut out, &r.instance_base_url);
    push_str(&mut out, &r.client_id);
    push_str(&mut out, &r.client_secret);
    match &r.access_token {
        None => out.push(0u8),
        Some(tok) => {
            out.push(1u8);
            push_str(&mut out, tok);
            proof {
                assert(enc_token(r@.access_token) =~= seq![1u8] + enc_str(tok@));
            }
        },
    }
    proof {
        assert(out@ =~= enc_str(r@.instance_base_url) + enc_str(r@.client_id) + enc_str(
            r@.client_secret,
        ) + enc_token(r@.access_token));
    }
    out.push(if r.post_privately_default {
        1u8
    } else {
        0u8
    });
    push_u64(&mut out, r.hashtags.len() as u64);
    let ghost head = enc_str(r@.instance_base_url) + enc_str(r@.client_id) + enc_str(
        r@.client_secret,
    ) + enc_token(r@.access_token) + enc_bool(r@.post_privately_default) + spec_u64_to_le_bytes(
        r@.hashtags.len() as u64,
    );
    proof {
        assert(r@.hashtags.len() == r.hashtags@.len());
        assert(out@ =~= head + enc_tags(r@.hashtags.take(0)));
    }
    let mut k: usize = 0;
    while k < r.hashtags.len()
        invariant
            k <= r.hashtags.len(),
            out@ == head + enc_tags(r@.hashtags.take(k as int)),
        decreases r.hashtags.len() - k,
    {
        push_str(&mut out, &r.hashtags[k]);
        proof {
            let pre = r@.hashtags.take(k as int);
            let post = r@.hashtags.take(k + 1);
            lemma_enc_tags_snoc(post);
            assert(post.drop_last() =~= pre);
            assert(post.last() == r@.hashtags[k as int]);
            assert(r@.hashtags[k as int] == r.hashtags@[k as int]@);
            assert(out@ =~= head + enc_tags(post));
        }
        k = k + 1;
    }
    proof {
        assert(r@.hashtags.take(r@.hashtags.len() as int) =~= r@.hashtags);
        assert(out@ =~= enc_record(r@));
    }
    let sum = compute_checksum(&out);
    push_u64(&mut out, sum);
    out
}

// ------------------------------------------------------------------
// Decoding.
// ------------------------------------------------------------------
/// Relies on `char::from_u32` from std: it returns the character with the
/// given code exactly when the value is a Unicode scalar (not a surrogate
/// and at most `char::MAX`), and `None` otherwise.
#[verifier::external_body]
fn char_from_u32(v: u32) -> (r: Option<char>)
    ensures
        r is Some <==> is_scalar(v),
        r matches Some(c) ==> c as u32 == v,
{
    char::from_u32(v)
}

/// Relies on std's `FromIterator` for `String`: collecting characters yields
/// the string with exactly those characters, in order.
#[verifier::external_body]
fn string_from_chars(cs: &Vec<char>) -> (r: String)
    ensures
        r@ == cs@,
{
    cs.iter().collect()
}

fn read_u64(p: &Vec<u8>, i: usize) -> (r: Option<(u64, usize)>)
    ensures
        r matches Some((v, j)) ==> dec_u64(p@, i as int) == Some((v, j as int)),
        r is None ==> dec_u64(p@, i as int) is None,
{
    if i <= p.len() && p.len() - i >= 8 {
        let s = slice_subrange(p.as_slice(), i, i + 8);
        Some((u64_from_le_bytes(s), i + 8))
    } else {
        None
    }
}

fn read_u32(p: &Vec<u8>, i: usize) -> (r: Option<(u32, usize)>)
    ensures
        r matches Some((v, j)) ==> dec_u32(p@, i as int) == Some((v, j as int)),
        r is None ==> dec_u32(p@, i as int) is None,
{
    if i <= p.len() && p.len() - i >= 4 {
        let s = slice_subrange(p.as_slice(), i, i + 4);
        Some((u32_from_le_bytes(s), i + 4))
    } else {
        None
    }
}

fn read_char(p: &Vec<u8>, i: usize) -> (r: Option<(char, usize)>)
    ensures
        r matches Some((c, j)) ==> dec_char(p@, i as int) == Some((c, j as int)),
        r is None ==> dec_char(p@, i as int) is None,
{
    match read_u32(p, i) {
        Some((v, j)) => match char_from_u32(v) {
            Some(c) => {
                proof {
                    char_u32_cast(c, v);
                }
                Some((c, j))
            },
            None => None,
        },
        None => None,
    }
}

/// Reading `k1 + k2` characters is reading `k1`, then `k2` more from where
/// the first read stopped.
proof fn lemma_dec_chars_split(p: Seq<u8>, i: int, k1: nat, k2: nat)
    ensures
        dec_chars(p, i, k1 + k2) == match dec_chars(p, i, k1) {
            Some((cs1, j)) => match dec_chars(p, j, k2) {
                Some((cs2, e)) => Some((cs1 + cs2, e)),
                None => None::<(Seq<char>, int)>,
            },
            None => None::<(Seq<char>, int)>,
        },
    decreases k1,
{
    if k1 == 0 {
        match dec_chars(p, i, k2) {
            Some((cs2, e)) => {
                assert(Seq::<char>::empty() + cs2 =~= cs2);
            },
            None => {},
        }
    } else {
        match dec_char(p, i) {
            Some((c, j)) => {
                lemma_dec_chars_split(p, j, (k1 - 1) as nat, k2);
                match dec_chars(p, j, (k1 - 1) as nat) {
                    Some((cs1, j1)) => {
                        match dec_chars(p, j1, k2) {
                            Some((cs2, e)) => {
                                assert(seq![c] + (cs1 + cs2) =~= (seq![c] + cs1) + cs2);
                            },
                            None => {},
                        }
                    },
                    None => {},
                }
            },
            None => {},
        }
    }
}

/// Reading `k1 + k2` hashtags splits the same way.
proof fn lemma_dec_tags_split(p: Seq<u8>, i: int, k1: nat, k2: nat)
    ensures
        dec_tags(p, i, k1 + k2) == match dec_tags(p, i, k1) {
            Some((ts1, j)) => match dec_tags(p, j, k2) {
                Some((ts2, e)) => Some((ts1 + ts2, e)),
                None => None::<(Seq<Seq<char>>, int)>,
            },
            None => None::<(Seq<Seq<char>>, int)>,
        },
    decreases k1,
{
    if k1 == 0 {
        match dec_tags(p, i, k2) {
            Some((ts2, e)) => {
                assert(Seq::<Seq<char>>::empty() + ts2 =~= ts2);
            },
            None => {},
        }
    } else {
        match dec_str(p, i) {
            Some((t, j)) => {
                lemma_dec_tags_split(p, j, (k1 - 1) as nat, k2);
                match dec_tags(p, j, (k1 - 1) as nat) {
                    Some((ts1, j1)) => {
                        match dec_tags(p, j1, k2) {
                            Some((ts2, e)) => {
                                assert(seq![t] + (ts1 + ts2) =~= (seq![t] + ts1) + ts2);
                            },
                            None => {},
                        }
                    },
                    None => {},
                }
            },
            None => {},
        }
    }
}

fn read_string(p: &Vec<u8>, i: usize) -> (r: Option<(String, usize)>)
    ensures
        r matches Some((s, j)) ==> dec_str(p@, i as int) == Some((s@, j as int)),
        r is None ==> dec_str(p@, i as int) is None,
{
    let (n, start) = match read_u64(p, i) {
        Some(x) => x,
        None => {
            return None;
        },
    };
    let mut cs: Vec<char> = Vec::new();
    let mut pos = start;
    let mut k: u64 = 0;
    proof {
        assert(cs@ =~= Seq::<char>::empty());
    }
    while k < n
        invariant
            k <= n,
            dec_u64(p@, i as int) == Some((n, start as int)),
            dec_chars(p@, start as int, k as nat) == Some((cs@, pos as int)),
        decreases n - k,
    {
        match read_char(p, pos) {
            Some((c, np)) => {
                proof {
                    lemma_dec_chars_split(p@, start as int, k as nat, 1nat);
                    assert(dec_chars(p@, np as int, 0nat) == Some(
                        (Seq::<char>::empty(), np as int),
                    ));
                    assert(seq![c] + Seq::<char>::empty() =~= seq![c]);
                    assert(dec_chars(p@, pos as int, 1nat) == Some((seq![c], np as int)));
                    assert(cs@ + seq![c] =~= cs@.push(c));
                }
                cs.push(c);
                pos = np;
                k = k + 1;
            },
            None => {
                proof {
                    lemma_dec_chars_split(p@, start as int, k as nat, (n - k) as nat);
                    assert(dec_chars(p@, pos as int, (n - k) as nat) is None);
                }
                return None;
            },
        }
    }
    let s = string_from_chars(&cs);
    Some((s, pos))
}

fn read_tag_byte(p: &Vec<u8>, i: usize) -> (r: Option<(u8, usize)>)
    ensures
        r matches Some((b, j)) ==> 0 <= (i as int) < p@.len() && b == p@[i as int] && j == i + 1,
        r is None ==> i >= p@.len(),
{
    if i < p.len() {
        Some((p[i], i + 1))
    } else {
        None
    }
}

fn read_token(p: &Vec<u8>, i: usize) -> (r: Option<(Option<String>, usize)>)
    ensures
        r matches Some((t, j)) ==> dec_token(p@, i as int) == Some(
            (
                match t {
                    Some(s) => Some(s@),
                    None => None,
                },
                j as int,
            ),
        ),
        r is None ==> dec_token(p@, i as int) is None,
{
    match read_tag_byte(p, i) {
        Some((b, j)) => {
            if b == 0 {
                Some((None, j))
            } else if b == 1 {
                match read_string(p, j) {
                    Some((s, e)) => Some((Some(s), e)),
                    None => None,
                }
            } else {
                None
            }
        },
        None => None,
    }
}

fn read_bool(p: &Vec<u8>, i: usize) -> (r: Option<(bool, usize)>)
    ensures
        r matches Some((v, j)) ==> dec_bool(p@, i as int) == Some((v, j as int)),
        r is None ==> dec_bool(p@, i as int) is None,
{
    match read_tag_byte(p, i) {
        Some((b, j)) => {
            if b == 0 {
                Some((false, j))
            } else if b == 1 {
                Some((true, j))
            } else {
                None
            }
        },
        None => None,
    }
}

fn read_tags(p: &Vec<u8>, i: usize, n: u64) -> (r: Option<(Vec<String>, usize)>)
    ensures
        r matches Some((ts, j)) ==> dec_tags(p@, i as int, n as nat) == Some(
            (ts.deep_view(), j as int),
        ),
        r is None ==> dec_tags(p@, i as int, n as nat) is None,
{
    let mut ts: Vec<String> = Vec::new();
    let mut pos = i;
    let mut k: u64 = 0;
    proof {
        assert(ts.deep_view() =~= Seq::<Seq<char>>::empty());
    }
    while k < n
        invariant
            k <= n,
            dec_tags(p@, i as int, k as nat) == Some((ts.deep_view(), pos as int)),
        decreases n - k,
    {
        match read_string(p, pos) {
            Some((s, np)) => {
                proof {
                    lemma_dec_tags_split(p@, i as int, k as nat, 1nat);
                    assert(dec_tags(p@, np as int, 0nat) == Some(
                        (Seq::<Seq<char>>::empty(), np as int),
                    ));
                    assert(seq![s@] + Seq::<Seq<char>>::empty() =~= seq![s@]);
                    assert(dec_tags(p@, pos as int, 1nat) == Some((seq![s@], np as int)));
                }
                let ghost pre = ts.deep_view();
                ts.push(s);
                pos = np;
                k = k + 1;
                proof {
                    assert(ts.deep_view() =~= pre + seq![s@]);
                }
            },
            None => {
                proof {
                    lemma_dec_tags_split(p@, i as int, k as nat, (n - k) as nat);
                    assert(dec_tags(p@, pos as int, (n - k) as nat) is None);
                }
                return None;
            },
        }
    }
    Some((ts, pos))
}

fn parse_record(p: &Vec<u8>) -> (r: Option<SessionRecord>)
    ensures
        r matches Some(rec) ==> dec_record(p@) == Some(rec@),
        r is None ==> dec_record(p@) is None,
{
    let (url, i1) = match read_string(p, 0) {
        Some(x) => x,
        None => {
            return None;
        },
    };
    let (id, i2) = match read_string(p, i1) {
        Some(x) => x,
        None => {
            return None;
        },
    };
    let (secret, i3) = match read_string(p, i2) {
        Some(x) => x,
        None => {
            return None;
        },
    };
    let (tok, i4) = match read_token(p, i3) {
        Some(x) => x,
        None => {
            return None;
        },
    };
    let (privately, i5) = match read_bool(p, i4) {
        Some(x) => x,
        None => {
            return None;
        },
    };
    let (n, i6) = match read_u64(p, i5) {
        Some(x) => x,
        None => {
            return None;
        },
    };
    let (tags, e) = match read_tags(p, i6, n) {
        Some(x) => x,
        None => {
            return None;
        },
    };
    if e != p.len() {
        return None;
    }
    let rec = SessionRecord {
        instance_base_url: url,
        client_id: id,
        client_secret: secret,
        access_token: tok,
        post_privately_default: privately,
        hashtags: tags,
    };
    Some(rec)
}

/// Copies the first `n` bytes of a vector.
fn copy_prefix(t: &Vec<u8>, n: usize) -> (r: Vec<u8>)
    requires
        n <= t@.len(),
    ensures
        r@ == t@.subrange(0, n as int),
{
    let mut r: Vec<u8> = Vec::new();
    let mut k: usize = 0;
    proof {
        assert(r@ =~= t@.subrange(0, 0));
    }
    while k < n
        invariant
            k <= n <= t@.len(),
            r@ == t@.subrange(0, k as int),
        decreases n - k,
    {
        r.push(t[k]);
        proof {
            assert(t@.subrange(0, k + 1) =~= t@.subrange(0, k as int).push(t@[k as int]));
        }
        k = k + 1;
    }
    r
}

/// Verifies a token's integrity and reads the record back out of it.
///
/// Fails with `Corrupt` when the integrity check fails, with `Malformed`
/// when the payload is well-protected but is not the image of any record.
/// The caller must treat either failure as an absent session and discard the
/// stored token.
pub fn decode(t: &Vec<u8>) -> (r: Result<SessionRecord, DecodeError>)
    ensures
        r matches Ok(rec) ==> spec_decode(t@) == Ok::<RecordView, DecodeError>(rec@),
        r matches Err(e) ==> spec_decode(t@) == Err::<RecordView, DecodeError>(e),
{
    if t.len() < 8 {
        return Err(DecodeError::Corrupt);
    }
    let n = t.len() - 8;
    let payload = copy_prefix(t, n);
    let sum = compute_checksum(&payload);
    let stored = u64_from_le_bytes(slice_subrange(t.as_slice(), n, t.len()));
    proof {
        lemma_auto_spec_u64_to_from_le_bytes();
        assert(payload@ =~= payload_of(t@));
        assert(trailer_of(t@) =~= t@.subrange(n as int, t@.len() as int));
        assert(trailer_of(t@).len() == 8);
        if stored == sum {
            assert(spec_u64_to_le_bytes(spec_u64_from_le_bytes(trailer_of(t@))) == trailer_of(
                t@,
            ));
            assert(integrity_ok(t@));
        } else {
            if integrity_ok(t@) {
                assert(spec_u64_from_le_bytes(spec_u64_to_le_bytes(checksum(payload_of(t@))))
                    == checksum(payload_of(t@)));
                assert(false);
            }
        }
    }
    if stored != sum {
        return Err(DecodeError::Corrupt);
    }
    match parse_record(&payload) {
        Some(rec) => Ok(rec),
        None => Err(DecodeError::Malformed),
    }
}

// ------------------------------------------------------------------
// The laws of the codec.
// ------------------------------------------------------------------
proof fn lemma_enc_chars_len(s: Seq<char>)
    ensures
        enc_chars(s).len() == 4 * s.len(),
    decreases s.len(),
{
    lemma_auto_spec_u32_to_from_le_bytes();
    if s.len() > 0 {
        lemma_enc_chars_len(s.drop_first());
    }
}

proof fn lemma_enc_str_len(s: Seq<char>)
    ensures
        enc_str(s).len() == 8 + 4 * s.len(),
{
    lemma_auto_spec_u64_to_from_le_bytes();
    lemma_enc_chars_len(s);
}

/// When a window of `p` holds the concatenation `a + b`, its two halves hold
/// `a` and `b`.
proof fn lemma_split_window(p: Seq<u8>, i: int, a: Seq<u8>, b: Seq<u8>)
    requires
        0 <= i,
        i + a.len() + b.len() <= p.len(),
        p.subrange(i, i + a.len() + b.len()) == a + b,
    ensures
        p.subrange(i, i + a.len()) =~= a,
        p.subrange(i + a.len(), i + a.len() + b.len()) =~= b,
{
    let w = p.subrange(i, i + a.len() + b.len());
    assert forall|q: int| 0 <= q < a.len() implies p.subrange(i, i + a.len())[q] == a[q] by {
        assert(w[q] == (a + b)[q]);
    }
    assert forall|q: int| 0 <= q < b.len() implies p.subrange(
        i + a.len(),
        i + a.len() + b.len(),
    )[q] == b[q] by {
        assert(w[q + a.len()] == (a + b)[q + a.len()]);
    }
}

proof fn lemma_dec_enc_u64(p: Seq<u8>, i: int, v: u64)
    requires
        0 <= i,
        i + 8 <= p.len(),
        p.subrange(i, i + 8) == spec_u64_to_le_bytes(v),
    ensures
        dec_u64(p, i) == Some((v, i + 8)),
{
    lemma_auto_spec_u64_to_from_le_bytes();
}

proof fn lemma_dec_enc_char(p: Seq<u8>, i: int, c: char)
    requires
        0 <= i,
        i + 4 <= p.len(),
        p.subrange(i, i + 4) == enc_char(c),
    ensures
        dec_char(p, i) == Some((c, i + 4)),
{
    lemma_auto_spec_u32_to_from_le_bytes();
    assert(spec_u32_to_le_bytes(c as u32).len() == 4);
    char_is_scalar(c);
    char_u32_cast(c, c as u32);
}

proof fn lemma_dec_enc_chars(p: Seq<u8>, i: int, s: Seq<char>)
    requires
        0 <= i,
        i + 4 * s.len() <= p.len(),
        p.subrange(i, i + 4 * s.len()) == enc_chars(s),
    ensures
        dec_chars(p, i, s.len()) == Some((s, i + 4 * s.len())),
    decreases s.len(),
{
    lemma_auto_spec_u32_to_from_le_bytes();
    if s.len() == 0 {
        assert(s =~= Seq::<char>::empty());
    } else {
        let c = s[0];
        let rest = s.drop_first();
        lemma_enc_chars_len(rest);
        assert(spec_u32_to_le_bytes(c as u32).len() == 4);
        lemma_split_window(p, i, enc_char(c), enc_chars(rest));
        lemma_dec_enc_char(p, i, c);
        lemma_dec_enc_chars(p, i + 4, rest);
        assert(seq![c] + rest =~= s);
    }
}

proof fn lemma_dec_enc_str(p: Seq<u8>, i: int, s: Seq<char>)
    requires
        s.len() < u64_bound(),
        0 <= i,
        i + 8 + 4 * s.len() <= p.len(),
        p.subrange(i, i + 8 + 4 * s.len()) == enc_str(s),
    ensures
        dec_str(p, i) == Some((s, i + 8 + 4 * s.len())),
{
    lemma_auto_spec_u64_to_from_le_bytes();
    lemma_enc_chars_len(s);
    lemma_split_window(p, i, spec_u64_to_le_bytes(s.len() as u64), enc_chars(s));
    lemma_dec_enc_u64(p, i, s.len() as u64);
    assert((s.len() as u64) as nat == s.len());
    lemma_dec_enc_chars(p, i + 8, s);
}

proof fn lemma_dec_enc_tags(p: Seq<u8>, i: int, ts: Seq<Seq<char>>)
    requires
        forall|q: int| 0 <= q < ts.len() ==> (#[trigger] ts[q]).len() < u64_bound(),
        0 <= i,
        i + enc_tags(ts).len() <= p.len(),
        p.subrange(i, i + enc_tags(ts).len()) == enc_tags(ts),
    ensures
        dec_tags(p, i, ts.len()) == Some((ts, i + enc_tags(ts).len())),
    decreases ts.len(),
{
    if ts.len() == 0 {
        assert(ts =~= Seq::<Seq<char>>::empty());
    } else {
        let hd = ts[0];
        let rest = ts.drop_first();
        lemma_enc_str_len(hd);
        let hl = 8 + 4 * hd.len();
        lemma_split_window(p, i, enc_str(hd), enc_tags(rest));
        lemma_dec_enc_str(p, i, hd);
        lemma_dec_enc_tags(p, i + hl, rest);
        assert(seq![hd] + rest =~= ts);
    }
}

proof fn lemma_dec_enc_record(r: RecordView)
    requires
        bounded(r),
    ensures
        dec_record(enc_record(r)) == Some(r),
{
    lemma_auto_spec_u64_to_from_le_bytes();
    let p = enc_record(r);
    let ea = enc_str(r.instance_base_url);
    let eb = enc_str(r.client_id);
    let ec = enc_str(r.client_secret);
    let ed = enc_token(r.access_token);
    let ee = enc_bool(r.post_privately_default);
    let ef = spec_u64_to_le_bytes(r.hashtags.len() as u64);
    let eg = enc_tags(r.hashtags);
    lemma_enc_str_len(r.instance_base_url);
    lemma_enc_str_len(r.client_id);
    lemma_enc_str_len(r.client_secret);
    let i1 = ea.len() as int;
    let i2 = i1 + eb.len();
    let i3 = i2 + ec.len();
    let i4 = i3 + ed.len();
    let i5 = i4 + ee.len();
    let i6 = i5 + ef.len();
    let e = i6 + eg.len();
    assert(p.len() == e);
    assert(p.subrange(0, e) =~= p);
    lemma_split_window(p, 0, ea + eb + ec + ed + ee + ef, eg);
    lemma_split_window(p, 0, ea + eb + ec + ed + ee, ef);
    lemma_split_window(p, 0, ea + eb + ec + ed, ee);
    lemma_split_window(p, 0, ea + eb + ec, ed);
    lemma_split_window(p, 0, ea + eb, ec);
    lemma_split_window(p, 0, ea, eb);
    lemma_dec_enc_str(p, 0, r.instance_base_url);
    lemma_dec_enc_str(p, i1, r.client_id);
    lemma_dec_enc_str(p, i2, r.client_secret);
    match r.access_token {
        None => {
            assert(p.subrange(i3, i4) =~= seq![0u8]);
            assert(p[i3] == 0u8);
            assert(dec_token(p, i3) == Some((None::<Seq<char>>, i4)));
        },
        Some(s) => {
            lemma_enc_str_len(s);
            assert(p[i3] == ed[0]);
            assert(p[i3] == 1u8);
            lemma_split_window(p, i3, seq![1u8], enc_str(s));
            lemma_dec_enc_str(p, i3 + 1, s);
            assert(dec_token(p, i3) == Some((Some(s), i4)));
        },
    }
    assert(p[i4] == ee[0]);
    assert(dec_bool(p, i4) == Some((r.post_privately_default, i5)));
    lemma_dec_enc_u64(p, i5, r.hashtags.len() as u64);
    assert((r.hashtags.len() as u64) as nat == r.hashtags.len());
    lemma_dec_enc_tags(p, i6, r.hashtags);
    assert(dec_record(p) == Some(r));
}

/// Law: decoding an encoded record yields exactly that record.  Together
/// with the contracts of [`encode`] and [`decode`], this carries over to the
/// executable pair: `decode(encode(r))` returns `Ok` with a record whose
/// view equals `r`'s.
pub proof fn lemma_encode_decode_round_trip(r: RecordView)
    requires
        bounded(r),
    ensures
        spec_decode(spec_encode(r)) == Ok::<RecordView, DecodeError>(r),
{
    lemma_auto_spec_u64_to_from_le_bytes();
    let body = enc_record(r);
    let t = spec_encode(r);
    assert(payload_of(t) =~= body);
    assert(trailer_of(t) =~= spec_u64_to_le_bytes(checksum(body)));
    lemma_dec_enc_record(r);
}

/// Law: flipping any single byte of a valid token makes decoding fail with
/// `Corrupt`; a tampered token never decodes to a wrong record.
pub proof fn lemma_tampered_token_corrupt(r: RecordView, i: int, b: u8)
    requires
        bounded(r),
        0 <= i < spec_encode(r).len(),
        b != spec_encode(r)[i],
    ensures
        spec_decode(spec_encode(r).update(i, b)) == Err::<RecordView, DecodeError>(
            DecodeError::Corrupt,
        ),
{
    lemma_auto_spec_u64_to_from_le_bytes();
    let t = spec_encode(r);
    let u = t.update(i, b);
    let body = enc_record(r);
    let n = body.len() as int;
    assert(t.len() == n + 8);
    assert(payload_of(t) =~= body);
    assert(trailer_of(t) =~= spec_u64_to_le_bytes(checksum(body)));
    let m = u64_bound();
    if i < n {
        let tampered = body.update(i, b);
        assert(payload_of(u) =~= tampered);
        assert(trailer_of(u) =~= trailer_of(t));
        assert(t[i] == body[i]);
        lemma_byte_sum_update(body, i, b);
        lemma_byte_sum_nonneg(body);
        lemma_byte_sum_nonneg(tampered);
        vstd::arithmetic::div_mod::lemma_mod_pos_bound(byte_sum(body), m);
        vstd::arithmetic::div_mod::lemma_mod_pos_bound(byte_sum(tampered), m);
        lemma_mod_u64_distinct(byte_sum(body), byte_sum(tampered));
        assert(checksum(body) != checksum(tampered));
        if integrity_ok(u) {
            assert(spec_u64_from_le_bytes(spec_u64_to_le_bytes(checksum(body))) == checksum(body));
            assert(spec_u64_from_le_bytes(spec_u64_to_le_bytes(checksum(tampered))) == checksum(
                tampered,
            ));
            assert(false);
        }
    } else {
        assert(payload_of(u) =~= body);
        assert(trailer_of(u) =~= trailer_of(t).update(i - n, b));
        assert(trailer_of(t)[i - n] == t[i]);
        if integrity_ok(u) {
            assert(trailer_of(u) == spec_u64_to_le_bytes(checksum(body)));
            assert(trailer_of(u)[i - n] == b);
            assert(trailer_of(t)[i - n] == trailer_of(u)[i - n]);
            assert(false);
        }
    }
}

} // verus!
