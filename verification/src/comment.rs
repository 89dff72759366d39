//! Comment parsing: `// …` line comments terminated by the end of the
//! line, and `/* … */` block comments, each preceded by optional
//! whitespace.  The executable parser is proved against `comment_at`, which
//! gives the exact end position and text of the comment.

use vstd::prelude::*;
use crate::cursor::{Cursor, INPUT_MAX};
use crate::lex;

verus! {

/// The comment starting at `i` (after optional whitespace): the position
/// right after it and its text, or `None` when no comment starts there.
///
/// A line comment's text runs from after `//` to the end of the line, which
/// is not consumed.  A block comment's text runs from after `/*` and any
/// following whitespace up to the first `*/`, which is consumed; a block
/// comment that is never terminated is no comment.
pub open spec fn comment_at(s: Seq<u8>, i: int) -> Option<(int, Seq<u8>)> {
    let w = lex::ws_end(s, i);
    if w + 2 <= s.len() && s[w] == '/' as u8 && s[w + 1] == '/' as u8 {
        Some((lex::line_end(s, w + 2), s.subrange(w + 2, lex::line_end(s, w + 2))))
    } else if w + 2 <= s.len() && s[w] == '/' as u8 && s[w + 1] == '*' as u8 {
        let b = lex::ws_end(s, w + 2);
        let e = lex::block_end(s, b);
        if e + 2 <= s.len() {
            Some((e + 2, s.subrange(b, e)))
        } else {
            None
        }
    } else {
        None
    }
}

/// A comment at `i` ends after `i` and within the input.
pub proof fn lemma_comment_at_bounds(s: Seq<u8>, i: int)
    requires
        0 <= i <= s.len(),
    ensures
        comment_at(s, i) matches Some(p) ==> i < p.0 <= s.len(),
{
    lex::lemma_ws_end_range(s, i);
    let w = lex::ws_end(s, i);
    lex::lemma_scan_bounds(s, w);
    if w + 2 <= s.len() {
        lex::lemma_scan_bounds(s, w + 2);
        lex::lemma_ws_end_range(s, w + 2);
        let b = lex::ws_end(s, w + 2);
        lex::lemma_scan_bounds(s, b);
    }
}

/// All comments from `i` on: the position after the last one and their
/// texts in order.
pub open spec fn comments_from(s: Seq<u8>, i: int) -> (int, Seq<Seq<u8>>)
    decreases s.len() - i,
    via comments_from_decreases
{
    if i < 0 || i > s.len() {
        (i, Seq::empty())
    } else {
        match comment_at(s, i) {
            Option::None => (i, Seq::empty()),
            Option::Some(p) => {
                let rest = comments_from(s, p.0);
                (rest.0, seq![p.1] + rest.1)
            },
        }
    }
}

#[via_fn]
proof fn comments_from_decreases(s: Seq<u8>, i: int) {
    if 0 <= i <= s.len() {
        lemma_comment_at_bounds(s, i);
    }
}

/// Parse one comment: leading whitespace, then `//` or `/* … */`.
pub fn parse(input: &Vec<u8>, c: Cursor) -> (r: Option<(Cursor, Vec<u8>)>)
    requires
        input@.len() <= INPUT_MAX,
        c.wf(input@),
    ensures
        (r is Some) == (comment_at(input@, c.pos as int) is Some),
        r matches Some(p) ==> {
            &&& p.0.wf(input@)
            &&& c.pos < p.0.pos
            &&& p.0.pos == comment_at(input@, c.pos as int)->Some_0.0
            &&& p.1@ == comment_at(input@, c.pos as int)->Some_0.1
        },
{
    let ghost s = input@;
    proof {
        lemma_comment_at_bounds(s, c.pos as int);
    }
    let w = lex::skip_ws(input, c);
    if w.pos + 2 > input.len() {
        return None;
    }
    if input[w.pos] == '/' as u8 && input[w.pos + 1] == '/' as u8 {
        let t0 = w.step(input).step(input);
        let t1 = lex::scan_line(input, t0);
        let text = lex::subvec(input, t0.pos, t1.pos);
        Some((t1, text))
    } else if input[w.pos] == '/' as u8 && input[w.pos + 1] == '*' as u8 {
        let b = lex::skip_ws(input, w.step(input).step(input));
        let e = lex::scan_block_end(input, b);
        if e.pos + 2 > input.len() {
            return None;
        }
        let text = lex::subvec(input, b.pos, e.pos);
        let after = e.step(input).step(input);
        Some((after, text))
    } else {
        None
    }
}

/// Parse zero or more comments, returning the cursor after the last one
/// and their texts in order.
pub fn parse_many(input: &Vec<u8>, c: Cursor) -> (r: (Cursor, Vec<Vec<u8>>))
    requires
        input@.len() <= INPUT_MAX,
        c.wf(input@),
    ensures
        r.0.wf(input@),
        c.pos <= r.0.pos,
        r.0.pos == comments_from(input@, c.pos as int).0,
        r.1@.len() == comments_from(input@, c.pos as int).1.len(),
        forall|k: int|
            0 <= k < r.1@.len() ==> (#[trigger] r.1@[k])@ == comments_from(
                input@,
                c.pos as int,
            ).1[k],
{
    let ghost s = input@;
    let ghost total = comments_from(s, c.pos as int);
    let mut cur = c;
    let mut texts: Vec<Vec<u8>> = Vec::new();
    loop
        invariant
            input@.len() <= INPUT_MAX,
            s == input@,
            cur.wf(input@),
            c.pos <= cur.pos,
            total == comments_from(s, c.pos as int),
            comments_from(s, cur.pos as int).0 == total.0,
            texts@.len() + comments_from(s, cur.pos as int).1.len() == total.1.len(),
            forall|k: int|
                0 <= k < texts@.len() ==> (#[trigger] texts@[k])@ == total.1[k],
            forall|k: int|
                0 <= k < comments_from(s, cur.pos as int).1.len() ==> comments_from(
                    s,
                    cur.pos as int,
                ).1[k] == total.1[texts@.len() + k],
        ensures
            cur.wf(input@),
            c.pos <= cur.pos,
            cur.pos == total.0,
            texts@.len() == total.1.len(),
            forall|k: int|
                0 <= k < texts@.len() ==> (#[trigger] texts@[k])@ == total.1[k],
        decreases input@.len() - cur.pos,
    {
        match parse(input, cur) {
            Option::None => {
                proof {
                    assert(comments_from(s, cur.pos as int).0 == cur.pos as int);
                    assert(comments_from(s, cur.pos as int).1.len() == 0);
                }
                break ;
            },
            Option::Some((c2, text)) => {
                proof {
                    let p = comment_at(s, cur.pos as int)->Some_0;
                    let rest = comments_from(s, p.0);
                    assert(comments_from(s, cur.pos as int) == (
                        rest.0,
                        seq![p.1] + rest.1,
                    ));
                    assert((seq![p.1] + rest.1)[0] == p.1);
                    assert(forall|k: int|
                        0 <= k < rest.1.len() ==> (seq![p.1] + rest.1)[k + 1] == rest.1[k]);
                }
                cur = c2;
                texts.push(text);
            },
        }
    }
    (cur, texts)
}


/// The comment scan never moves backward and stays within the input.
pub proof fn lemma_comments_from_bounds(s: Seq<u8>, i: int)
    requires
        0 <= i <= s.len(),
    ensures
        i <= comments_from(s, i).0 <= s.len(),
    decreases s.len() - i,
{
    lemma_comment_at_bounds(s, i);
    match comment_at(s, i) {
        Option::Some(pr) => {
            lemma_comments_from_bounds(s, pr.0);
        },
        Option::None => {},
    }
}

} // verus!
