use vstd::prelude::*;
use crate::session::SessionRecord;
use crate::text::hashtag_pred;
use crate::text::hashtag_tokens;
use crate::text::is_ascii_ws;
use crate::text::is_hashtag;
use crate::text::lemma_filter_singleton;
use crate::text::lemma_token_len_at;
use crate::text::split_ws;

verus! {

fn is_ws_char(c: char) -> (r: bool)
    ensures
        r == is_ascii_ws(c),
{
    c == ' ' || c == '\t' || c == '\n' || c == '\r' || c == '\u{c}'
}

/// Splits a tag submission on ASCII whitespace and keeps the tokens that
/// start with `'#'`, in order.
fn collect_hashtags(raw: &str) -> (r: Vec<String>)
    ensures
        r.deep_view() == hashtag_tokens(raw@),
{
    let n = raw.unicode_len();
    let mut out: Vec<String> = Vec::new();
    let mut i: usize = 0;
    let ghost mut done: Seq<Seq<char>> = Seq::empty();
    proof {
        assert(raw@.skip(0) =~= raw@);
        assert(done + split_ws(raw@) =~= split_ws(raw@));
        assert(Seq::<Seq<char>>::empty().filter(hashtag_pred()) =~= Seq::<Seq<char>>::empty());
        assert(out.deep_view() =~= Seq::<Seq<char>>::empty());
    }
    while i < n
        invariant
            i <= n,
            n as nat == raw@.len(),
            split_ws(raw@) == done + split_ws(raw@.skip(i as int)),
            out.deep_view() == done.filter(hashtag_pred()),
        decreases n - i,
    {
        let c = raw.get_char(i);
        if is_ws_char(c) {
            proof {
                let su = raw@.skip(i as int);
                assert(su[0] == c);
                assert(su.drop_first() =~= raw@.skip(i + 1));
            }
            i = i + 1;
        } else {
            let mut j: usize = i + 1;
            while j < n
                invariant_except_break
                    i < j <= n,
                    n as nat == raw@.len(),
                    forall|q: int| i <= q < j ==> !is_ascii_ws(#[trigger] raw@[q]),
                ensures
                    i < j <= n,
                    n as nat == raw@.len(),
                    forall|q: int| i <= q < j ==> !is_ascii_ws(#[trigger] raw@[q]),
                    j == n || is_ascii_ws(raw@[j as int]),
                decreases n - j,
            {
                if is_ws_char(raw.get_char(j)) {
                    break ;
                }
                j = j + 1;
            }
            let tok = raw.substring_char(i, j);
            proof {
                let su = raw@.skip(i as int);
                assert forall|q: int| 0 <= q < j - i implies !is_ascii_ws(#[trigger] su[q]) by {
                    assert(su[q] == raw@[q + i]);
                }
                if j < n {
                    assert(su[j - i] == raw@[j as int]);
                }
                lemma_token_len_at(su, j - i);
                assert(su.take(j - i) =~= tok@);
                assert(su.skip(j - i) =~= raw@.skip(j as int));
                assert(split_ws(su) == seq![tok@] + split_ws(raw@.skip(j as int)));
                assert(done + split_ws(su) =~= (done + seq![tok@]) + split_ws(
                    raw@.skip(j as int),
                ));
                assert(tok@[0] == c);
                lemma_filter_singleton(tok@);
                Seq::filter_distributes_over_add(done, seq![tok@], hashtag_pred());
            }
            if c == '#' {
                let ghost pre = out.deep_view();
                out.push(tok.to_owned());
                proof {
                    assert(is_hashtag(tok@));
                    assert(out.deep_view() =~= pre + seq![tok@]);
                }
            } else {
                proof {
                    assert(!is_hashtag(tok@));
                    assert(out.deep_view() =~= done.filter(hashtag_pred()) + Seq::<
                        Seq<char>,
                    >::empty());
                }
            }
            proof {
                done = done + seq![tok@];
            }
            i = j;
        }
    }
    proof {
        assert(raw@.skip(n as int) =~= Seq::<char>::empty());
        assert(split_ws(Seq::<char>::empty()) =~= Seq::<Seq<char>>::empty());
        assert(done + Seq::<Seq<char>>::empty() =~= done);
    }
    out
}

/// Applies a settings submission to a record.  A pure transform: the flag
/// overwrites the stored default, and the hashtags parsed out of `raw_tags`
/// replace the stored list entirely (no merging); tokens that do not start
/// with `'#'` are discarded.  All other fields are untouched.
pub fn apply_submission(record: SessionRecord, post_privately: bool, raw_tags: &str) -> (r:
    SessionRecord)
    ensures
        r@.instance_base_url == record@.instance_base_url,
        r@.client_id == record@.client_id,
        r@.client_secret == record@.client_secret,
        r@.access_token == record@.access_token,
        r@.post_privately_default == post_privately,
        r@.hashtags == hashtag_tokens(raw_tags@),
        r@.well_formed(),
{
    let tags = collect_hashtags(raw_tags);
    proof {
        assert forall|q: int|
            0 <= q < tags.deep_view().len() implies (#[trigger] tags.deep_view()[q]).len() > 0
            && tags.deep_view()[q][0] == '#' by {
            split_ws(raw_tags@).lemma_filter_pred(hashtag_pred(), q);
        }
    }
    SessionRecord { post_privately_default: post_privately, hashtags: tags, ..record }
}

} // verus!
