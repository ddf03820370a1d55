//! Splitting raw edge-list lines into whitespace-separated tokens.
//!
//! Lines are byte strings and token separators are the ASCII whitespace
//! bytes. This is a deliberate choice: edge-list files name their nodes
//! with ASCII identifiers, and treating the line as bytes keeps every
//! name, ASCII or not, exactly as it was read. A multi-byte Unicode
//! space would count as part of a name, not as a separator.

use vstd::prelude::*;

verus! {

/// ASCII whitespace: the bytes that separate tokens on an edge-list line
/// (space, tab, line feed, vertical tab, form feed, carriage return).
/// Non-ASCII whitespace is deliberately not a separator: see the module doc.
pub open spec fn is_ws(c: u8) -> bool {
    c == 32 || c == 9 || c == 10 || c == 11 || c == 12 || c == 13
}

/// Length of the maximal non-whitespace prefix of `s`.
pub open spec fn token_len(s: Seq<u8>) -> nat
    decreases s.len(),
{
    if s.len() == 0 || is_ws(s[0]) {
        0
    } else {
        1 + token_len(s.drop_first())
    }
}

pub proof fn lemma_token_len_bound(s: Seq<u8>)
    ensures
        token_len(s) <= s.len(),
    decreases s.len(),
{
    if s.len() != 0 && !is_ws(s[0]) {
        lemma_token_len_bound(s.drop_first());
    }
}

/// The whitespace-separated tokens of a line, in order of appearance.
pub open spec fn tokens_of(s: Seq<u8>) -> Seq<Seq<u8>>
    decreases s.len(),
    via tokens_of_decreases
{
    if s.len() == 0 {
        Seq::empty()
    } else if is_ws(s[0]) {
        tokens_of(s.drop_first())
    } else {
        seq![s.take(token_len(s) as int)] + tokens_of(s.skip(token_len(s) as int))
    }
}

#[via_fn]
proof fn tokens_of_decreases(s: Seq<u8>) {
    lemma_token_len_bound(s);
}

/// Stepping over one leading whitespace byte leaves the token sequence unchanged.
pub proof fn lemma_tokens_skip_ws(s: Seq<u8>, i: int)
    requires
        0 <= i < s.len(),
        is_ws(s[i]),
    ensures
        tokens_of(s.skip(i)) == tokens_of(s.skip(i + 1)),
{
    assert(s.skip(i).drop_first() =~= s.skip(i + 1));
}

/// A maximal non-whitespace run `[start, j)` is the next token of the suffix.
pub proof fn lemma_tokens_take_token(s: Seq<u8>, start: int, j: int)
    requires
        0 <= start < j <= s.len(),
        forall|k: int| start <= k < j ==> !is_ws(s[k]),
        j < s.len() ==> is_ws(s[j]),
    ensures
        tokens_of(s.skip(start)) == seq![s.subrange(start, j)] + tokens_of(s.skip(j)),
{
    let u = s.skip(start);
    lemma_token_len_is(u, j - start);
    assert(u.take(j - start) =~= s.subrange(start, j));
    assert(u.skip(j - start) =~= s.skip(j));
}

/// `token_len` is pinned by its two characterizing properties.
pub proof fn lemma_token_len_is(s: Seq<u8>, k: int)
    requires
        0 <= k <= s.len(),
        forall|i: int| 0 <= i < k ==> !is_ws(s[i]),
        k < s.len() ==> is_ws(s[k]),
    ensures
        token_len(s) == k,
    decreases s.len(),
{
    if k == 0 {
    } else {
        assert(!is_ws(s[0]));
        lemma_token_len_is(s.drop_first(), k - 1);
    }
}

fn is_whitespace_byte(c: u8) -> (r: bool)
    ensures
        r == is_ws(c),
{
    c == 32 || c == 9 || c == 10 || c == 11 || c == 12 || c == 13
}

/// Split a line into its whitespace-separated tokens.
pub fn split_tokens(line: &Vec<u8>) -> (tokens: Vec<Vec<u8>>)
    ensures
        tokens.deep_view() == tokens_of(line@),
{
    let n: usize = line.len();
    let mut tokens: Vec<Vec<u8>> = Vec::new();
    let mut i: usize = 0;
    proof {
        assert(line@.skip(0) =~= line@);
        assert(tokens.deep_view() =~= Seq::<Seq<u8>>::empty());
    }
    while i < n
        invariant
            i <= n == line@.len(),
            tokens_of(line@) == tokens.deep_view() + tokens_of(line@.skip(i as int)),
        decreases n - i,
    {
        if is_whitespace_byte(line[i]) {
            proof {
                lemma_tokens_skip_ws(line@, i as int);
            }
            i = i + 1;
        } else {
            let start: usize = i;
            let mut j: usize = i + 1;
            while j < n && !is_whitespace_byte(line[j])
                invariant
                    start < j <= n == line@.len(),
                    forall|k: int| start <= k < j ==> !is_ws(line@[k]),
                    j < n ==> !is_ws(line@[j - 1]),
                decreases n - j,
            {
                j = j + 1;
            }
            let mut tok: Vec<u8> = Vec::new();
            let mut k: usize = start;
            while k < j
                invariant
                    start <= k <= j <= line@.len(),
                    tok@ == line@.subrange(start as int, k as int),
                decreases j - k,
            {
                tok.push(line[k]);
                proof {
                    assert(tok@ =~= line@.subrange(start as int, k + 1 as int));
                }
                k = k + 1;
            }
            let ghost old_tokens = tokens.deep_view();
            tokens.push(tok);
            proof {
                lemma_tokens_take_token(line@, start as int, j as int);
                assert(tok.deep_view() =~= line@.subrange(start as int, j as int));
                assert(tokens.deep_view() =~= old_tokens + seq![line@.subrange(start as int, j as int)]);
                assert(tokens_of(line@) == tokens.deep_view() + tokens_of(line@.skip(j as int)));
            }
            i = j;
        }
    }
    proof {
        assert(line@.skip(n as int) =~= Seq::<u8>::empty());
        assert(tokens.deep_view() =~= tokens.deep_view() + tokens_of(line@.skip(n as int)));
    }
    tokens
}

/// A line forms an edge candidate exactly when it has two tokens.
pub fn parse_edge_line(line: &Vec<u8>) -> (r: Option<(Vec<u8>, Vec<u8>)>)
    ensures
        match r {
            Some(p) => tokens_of(line@).len() == 2 && p.0@ == tokens_of(line@)[0]
                && p.1@ == tokens_of(line@)[1],
            None => tokens_of(line@).len() != 2,
        },
{
    let mut toks = split_tokens(line);
    if toks.len() == 2 {
        let b = toks.pop().unwrap();
        let a = toks.pop().unwrap();
        Some((a, b))
    } else {
        None
    }
}

}
