//! The import statement: `import "<path>";`, recorded under the file's
//! dependency field tag with the next dense sibling index.

use vstd::prelude::*;
use crate::cursor::{Cursor, INPUT_MAX, lemma_line_count_mono, lemma_cursor_bounds};
use crate::keyword;
use crate::lex;
use crate::source::{self, LocationRecorder, Tag};

verus! {

/// A parsed import path.
#[derive(Clone, Debug, PartialEq)]
pub struct Import(pub Vec<u8>);

impl Import {
    /// Wrap an import path.
    pub fn new(inner: Vec<u8>) -> (r: Import)
        ensures
            r.0@ == inner@,
    {
        Import(inner)
    }
}

/// The import statement at `p`: the keyword, one or more whitespace bytes,
/// `"`, a run of one or more bytes ended by a quote or whitespace, and
/// `";`.  Yields the position after the statement and the import path.
pub open spec fn import_stmt(s: Seq<u8>, p: int) -> Option<(int, Seq<u8>)> {
    if !lex::matches_at(s, p, keyword::kw_import()) {
        None
    } else {
        let w = lex::ws_end(s, p + 6);
        if w == p + 6 || !(w < s.len() && s[w] == '"' as u8) {
            None
        } else {
            let e = lex::import_end(s, w + 1);
            if e == w + 1 {
                None
            } else if e + 2 <= s.len() && s[e] == '"' as u8 && s[e + 1] == ';' as u8 {
                Some((e + 2, s.subrange(w + 1, e)))
            } else {
                None
            }
        }
    }
}

/// Parse an import statement, recording its location under the dependency
/// tag with the next dense index.  Returns `None`, leaving the ledger
/// unchanged, exactly when no import statement starts after the leading
/// comments and whitespace.
pub fn parse(input: &Vec<u8>, c: Cursor, rec: &mut LocationRecorder) -> (r: Option<(Cursor, Import)>)
    requires
        input@.len() <= INPUT_MAX,
        c.wf(input@),
        source::ledger_ok(old(rec).locations@),
        old(rec).locations@.len() <= c.pos + 2,
    ensures
        r is None ==> {
            &&& final(rec).locations@ == old(rec).locations@
            &&& import_stmt(input@, source::locate_start_pos(input@, c.pos as int)) is None
        },
        r matches Some((c2, imp)) ==> {
            &&& c2.wf(input@)
            &&& c.pos < c2.pos
            &&& import_stmt(input@, source::locate_start_pos(input@, c.pos as int)) matches Some(
                st,
            ) && imp.0@ == st.1 && c2.pos == lex::ws_end(input@, st.0)
            &&& imp.0@.len() > 0
            &&& source::ledger_ok(final(rec).locations@)
            &&& final(rec).locations@.len() == old(rec).locations@.len() + 1
            &&& forall|i: int|
                0 <= i < old(rec).locations@.len() ==> final(rec).locations@[i] == old(
                    rec,
                ).locations@[i]
            &&& final(rec).locations@.last().path@ =~= seq![
                3i32,
                source::count_top(old(rec).locations@, 3, old(rec).locations@.len() as int) as i32,
            ]
            &&& source::completed_span_ok(final(rec).locations@.last().span@)
            &&& final(rec).locations@.len() <= c2.pos + 2
            &&& forall|t: i32|
                source::count_top(final(rec).locations@, t, final(rec).locations@.len() as int)
                    == source::count_top(old(rec).locations@, t, old(rec).locations@.len() as int)
                    + (if t == 3 {
                    1int
                } else {
                    0int
                })
        },
{
    let ghost s = input@;
    let ghost L0 = rec.locations@;
    proof {
        source::lemma_next_index_count(L0, 3);
        source::lemma_count_bounds(L0, 3, 0, 0, L0.len() as int);
    }
    let (start, h) = source::locate_begin(input, c, rec, Tag::Dependency);
    let ghost L1 = rec.locations@;
    let ghost idx = L0.len() as int;
    let kw = keyword::kw_import_v();
    if !lex::match_at(input, start.pos, &kw) {
        source::locate_abort(rec, h);
        proof {
            assert(rec.locations@ =~= L0);
        }
        return None;
    }
    let p1 = lex::advance(input, start, 6);
    let w = lex::skip_ws(input, p1);
    if w.pos == p1.pos || w.pos >= input.len() || input[w.pos] != '"' as u8 {
        source::locate_abort(rec, h);
        proof {
            assert(rec.locations@ =~= L0);
        }
        return None;
    }
    let p2 = lex::advance(input, w, 1);
    let e = lex::scan_import(input, p2);
    if e.pos == p2.pos {
        source::locate_abort(rec, h);
        proof {
            assert(rec.locations@ =~= L0);
        }
        return None;
    }
    if e.pos + 2 > input.len() || input[e.pos] != '"' as u8 || input[e.pos + 1] != ';' as u8 {
        source::locate_abort(rec, h);
        proof {
            assert(rec.locations@ =~= L0);
        }
        return None;
    }
    let path = lex::subvec(input, p2.pos, e.pos);
    let end = lex::advance(input, e, 2);
    proof {
        lemma_cursor_bounds(start, s);
        lemma_line_count_mono(s, start.pos as int, end.pos as int);
    }
    let c2 = source::locate_commit(input, end, rec, h);
    proof {
        source::lemma_located_entry(L0, L1, rec.locations@, idx);
        assert(rec.locations@.last().path@ =~= seq![
            3i32,
            source::count_top(L0, 3, L0.len() as int) as i32,
        ]);
        assert(rec.locations@ =~= L0.push(rec.locations@.last()));
        assert forall|t: i32|
            source::count_top(rec.locations@, t, rec.locations@.len() as int) == source::count_top(
                L0,
                t,
                L0.len() as int,
            ) + (if t == 3 {
                1int
            } else {
                0int
            }) by {
            source::lemma_count_push(L0, rec.locations@.last(), t, 0);
        }
        assert(import_stmt(s, start.pos as int) matches Some(st) && path@ == st.1 && c2.pos
            == lex::ws_end(s, st.0));
    }
    Some((c2, Import::new(path)))
}

} // verus!
