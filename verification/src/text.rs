use vstd::prelude::*;

verus! {

/// The characters that delimit tokens in a tag submission: the ASCII
/// whitespace set (space, tab, line feed, form feed, carriage return).
pub open spec fn is_ascii_ws(c: char) -> bool {
    c == ' ' || c == '\t' || c == '\n' || c == '\r' || c == '\u{c}'
}

/// Length of the maximal whitespace-free prefix.
pub open spec fn token_len(s: Seq<char>) -> int
    decreases s.len(),
{
    if s.len() == 0 || is_ascii_ws(s[0]) {
        0
    } else {
        1 + token_len(s.drop_first())
    }
}

pub proof fn lemma_token_len_bounds(s: Seq<char>)
    ensures
        0 <= token_len(s) <= s.len(),
    decreases s.len(),
{
    if s.len() != 0 && !is_ascii_ws(s[0]) {
        lemma_token_len_bounds(s.drop_first());
    }
}

/// The whitespace-delimited tokens of a string, in order.
pub open spec fn split_ws(s: Seq<char>) -> Seq<Seq<char>>
    decreases s.len(),
    via split_ws_decreases
{
    if s.len() == 0 {
        Seq::empty()
    } else if is_ascii_ws(s[0]) {
        split_ws(s.drop_first())
    } else {
        seq![s.take(token_len(s))] + split_ws(s.skip(token_len(s)))
    }
}

#[via_fn]
proof fn split_ws_decreases(s: Seq<char>) {
    lemma_token_len_bounds(s);
    if s.len() > 0 && !is_ascii_ws(s[0]) {
        lemma_token_len_bounds(s.drop_first());
        assert(token_len(s) == 1 + token_len(s.drop_first()));
    }
}

/// The leading token is exactly `k` characters long when none of the first
/// `k` characters is whitespace and the character after them (if any) is.
pub proof fn lemma_token_len_at(s: Seq<char>, k: int)
    requires
        0 <= k <= s.len(),
        forall|q: int| 0 <= q < k ==> !is_ascii_ws(#[trigger] s[q]),
        k == s.len() || is_ascii_ws(s[k]),
    ensures
        token_len(s) == k,
    decreases k,
{
    if k == 0 {
    } else {
        let d = s.drop_first();
        assert forall|q: int| 0 <= q < k - 1 implies !is_ascii_ws(#[trigger] d[q]) by {
            assert(d[q] == s[q + 1]);
        }
        lemma_token_len_at(d, k - 1);
    }
}

/// A token is a hashtag when it starts with `'#'`.
pub open spec fn is_hashtag(t: Seq<char>) -> bool {
    t.len() > 0 && t[0] == '#'
}

pub open spec fn hashtag_pred() -> spec_fn(Seq<char>) -> bool {
    |t: Seq<char>| is_hashtag(t)
}

/// The hashtags of a tag submission: its whitespace-delimited tokens that
/// start with `'#'`, in the order they appear.
pub open spec fn hashtag_tokens(s: Seq<char>) -> Seq<Seq<char>> {
    split_ws(s).filter(hashtag_pred())
}

pub proof fn lemma_filter_singleton(t: Seq<char>)
    ensures
        seq![t].filter(hashtag_pred()) == if is_hashtag(t) {
            seq![t]
        } else {
            Seq::<Seq<char>>::empty()
        },
{
    reveal_with_fuel(Seq::filter, 2);
    let s = seq![t];
    assert(s.drop_last() =~= Seq::<Seq<char>>::empty());
    assert(Seq::<Seq<char>>::empty().filter(hashtag_pred()) =~= Seq::<Seq<char>>::empty());
    assert(s.last() == t);
    if is_hashtag(t) {
        assert(s.filter(hashtag_pred()) =~= seq![t]);
    }
}

/// The given pieces joined with single spaces.
pub open spec fn joined(ts: Seq<Seq<char>>) -> Seq<char>
    decreases ts.len(),
{
    if ts.len() == 0 {
        Seq::empty()
    } else if ts.len() == 1 {
        ts[0]
    } else {
        ts[0] + seq![' '] + joined(ts.drop_first())
    }
}

pub proof fn lemma_joined_snoc(ts: Seq<Seq<char>>)
    requires
        ts.len() >= 2,
    ensures
        joined(ts) == joined(ts.drop_last()) + seq![' '] + ts.last(),
    decreases ts.len(),
{
    let r = ts.drop_first();
    if ts.len() == 2 {
        assert(r =~= seq![ts[1]]);
        assert(ts.drop_last() =~= seq![ts[0]]);
        assert(joined(r) == r[0]);
        assert(joined(ts.drop_last()) == ts.drop_last()[0]);
        assert(joined(ts) =~= joined(ts.drop_last()) + seq![' '] + ts.last());
    } else {
        lemma_joined_snoc(r);
        assert(r.drop_last() =~= ts.drop_last().drop_first());
        assert(r.last() == ts.last());
        assert(ts.drop_last()[0] == ts[0]);
        assert(joined(ts.drop_last()) == ts[0] + seq![' '] + joined(ts.drop_last().drop_first()));
        assert(joined(ts) =~= joined(ts.drop_last()) + seq![' '] + ts.last());
    }
}

/// The full text of a post: the body, a blank line, then the hashtags
/// joined by spaces.  The blank line is written even when there are no
/// hashtags: the separator is part of the posting format, not of the list.
pub open spec fn composed_text(body: Seq<char>, tags: Seq<Seq<char>>) -> Seq<char> {
    body + seq!['\n', '\n'] + joined(tags)
}

} // verus!
