//! The syntax statement: `syntax = "proto2";` or `syntax = "proto3";`,
//! recorded under the file's syntax field tag.

use vstd::prelude::*;
use crate::cursor::{Cursor, INPUT_MAX, lemma_line_count_mono, lemma_cursor_bounds};
use crate::keyword;
use crate::lex;
use crate::source::{self, LocationRecorder, Tag};

verus! {

/// All syntaxes this parser supports.
#[derive(Clone, Copy, Debug, PartialEq, Eq, Structural)]
pub enum Syntax {
    Proto2,
    Proto3,
}

/// The bytes a syntax renders to in the file descriptor.
pub open spec fn syntax_bytes(s: Syntax) -> Seq<u8> {
    match s {
        Syntax::Proto2 => keyword::kw_proto2(),
        Syntax::Proto3 => keyword::kw_proto3(),
    }
}

impl Syntax {
    /// The syntax as bytes, for the file descriptor's syntax field.
    pub fn to_bytes(&self) -> (r: Vec<u8>)
        ensures
            r@ == syntax_bytes(*self),
    {
        match self {
            Syntax::Proto2 => keyword::kw_proto2_v(),
            Syntax::Proto3 => keyword::kw_proto3_v(),
        }
    }
}

/// The syntax statement at `p`: the keyword, one or more whitespace bytes,
/// `=`, one or more whitespace bytes, and a quoted `proto2` or `proto3`
/// closed by `";`.  Yields the position after the statement and the
/// declared syntax.
pub open spec fn syntax_stmt(s: Seq<u8>, p: int) -> Option<(int, Syntax)> {
    if !lex::matches_at(s, p, keyword::kw_syntax()) {
        None
    } else {
        let w1 = lex::ws_end(s, p + 6);
        if w1 == p + 6 || !(w1 < s.len() && s[w1] == '=' as u8) {
            None
        } else {
            let w2 = lex::ws_end(s, w1 + 1);
            if w2 == w1 + 1 || !(w2 < s.len() && s[w2] == '"' as u8) {
                None
            } else {
                let body = w2 + 1;
                if lex::matches_at(s, body, keyword::kw_proto2()) || lex::matches_at(
                    s,
                    body,
                    keyword::kw_proto3(),
                ) {
                    let q = body + 6;
                    if q + 2 <= s.len() && s[q] == '"' as u8 && s[q + 1] == ';' as u8 {
                        Some(
                            (
                                q + 2,
                                if lex::matches_at(s, body, keyword::kw_proto2()) {
                                    Syntax::Proto2
                                } else {
                                    Syntax::Proto3
                                },
                            ),
                        )
                    } else {
                        None
                    }
                } else {
                    None
                }
            }
        }
    }
}

/// Parse the file's required syntax statement, recording its location under
/// the syntax tag.  Returns `None`, leaving the ledger unchanged, exactly
/// when no syntax statement starts after the leading comments and
/// whitespace.
pub fn parse(input: &Vec<u8>, c: Cursor, rec: &mut LocationRecorder) -> (r: Option<(Cursor, Syntax)>)
    requires
        input@.len() <= INPUT_MAX,
        c.wf(input@),
        source::ledger_ok(old(rec).locations@),
        old(rec).locations@.len() <= c.pos + 2,
    ensures
        r is None ==> {
            &&& final(rec).locations@ == old(rec).locations@
            &&& syntax_stmt(input@, source::locate_start_pos(input@, c.pos as int)) is None
        },
        r matches Some((c2, syn)) ==> {
            &&& c2.wf(input@)
            &&& c.pos < c2.pos
            &&& syntax_stmt(input@, source::locate_start_pos(input@, c.pos as int)) matches Some(
                st,
            ) && st.1 == syn && c2.pos == lex::ws_end(input@, st.0)
            &&& source::ledger_ok(final(rec).locations@)
            &&& final(rec).locations@.len() == old(rec).locations@.len() + 1
            &&& forall|i: int|
                0 <= i < old(rec).locations@.len() ==> final(rec).locations@[i] == old(
                    rec,
                ).locations@[i]
            &&& final(rec).locations@.last().path@ =~= seq![12i32]
            &&& source::completed_span_ok(final(rec).locations@.last().span@)
            &&& final(rec).locations@.len() <= c2.pos + 2
            &&& forall|t: i32|
                source::count_top(final(rec).locations@, t, final(rec).locations@.len() as int)
                    == source::count_top(old(rec).locations@, t, old(rec).locations@.len() as int)
        },
{
    let ghost s = input@;
    let ghost L0 = rec.locations@;
    let (start, h) = source::locate_begin(input, c, rec, Tag::Syntax);
    let ghost L1 = rec.locations@;
    let ghost idx = L0.len() as int;
    let kw = keyword::kw_syntax_v();
    if !lex::match_at(input, start.pos, &kw) {
        source::locate_abort(rec, h);
        proof {
            assert(rec.locations@ =~= L0);
        }
        return None;
    }
    let p1 = lex::advance(input, start, 6);
    let w1 = lex::skip_ws(input, p1);
    if w1.pos == p1.pos || w1.pos >= input.len() || input[w1.pos] != '=' as u8 {
        source::locate_abort(rec, h);
        proof {
            assert(rec.locations@ =~= L0);
        }
        return None;
    }
    let p2 = lex::advance(input, w1, 1);
    let w2 = lex::skip_ws(input, p2);
    if w2.pos == p2.pos || w2.pos >= input.len() || input[w2.pos] != '"' as u8 {
        source::locate_abort(rec, h);
        proof {
            assert(rec.locations@ =~= L0);
        }
        return None;
    }
    let body = lex::advance(input, w2, 1);
    let kw2 = keyword::kw_proto2_v();
    let kw3 = keyword::kw_proto3_v();
    let is2 = lex::match_at(input, body.pos, &kw2);
    let is3 = lex::match_at(input, body.pos, &kw3);
    if !is2 && !is3 {
        source::locate_abort(rec, h);
        proof {
            assert(rec.locations@ =~= L0);
        }
        return None;
    }
    let q = lex::advance(input, body, 6);
    if q.pos + 2 > input.len() || input[q.pos] != '"' as u8 || input[q.pos + 1] != ';' as u8 {
        source::locate_abort(rec, h);
        proof {
            assert(rec.locations@ =~= L0);
        }
        return None;
    }
    let end = lex::advance(input, q, 2);
    let syn = if is2 {
        Syntax::Proto2
    } else {
        Syntax::Proto3
    };
    proof {
        lemma_cursor_bounds(start, s);
        lemma_line_count_mono(s, start.pos as int, end.pos as int);
    }
    let c2 = source::locate_commit(input, end, rec, h);
    proof {
        source::lemma_located_entry(L0, L1, rec.locations@, idx);
        assert(rec.locations@.last().path@ =~= seq![12i32]);
        assert(rec.locations@ =~= L0.push(rec.locations@.last()));
        assert forall|t: i32|
            source::count_top(rec.locations@, t, rec.locations@.len() as int) == source::count_top(
                L0,
                t,
                L0.len() as int,
            ) by {
            source::lemma_count_push(L0, rec.locations@.last(), t, 0);
        }
        assert(syntax_stmt(s, start.pos as int) matches Some(st) && st.1 == syn && c2.pos
            == lex::ws_end(s, st.0));
    }
    Some((c2, syn))
}

} // verus!
