//! The package statement: `package <name>;`, recorded under the file's
//! package field tag.

use vstd::prelude::*;
use crate::cursor::{Cursor, INPUT_MAX, lemma_line_count_mono, lemma_cursor_bounds};
use crate::keyword;
use crate::lex;
use crate::source::{self, LocationRecorder, Tag};

verus! {

/// A parsed package name.
#[derive(Clone, Debug, PartialEq)]
pub struct Package(pub Vec<u8>);

impl Package {
    /// Wrap a package name.
    pub fn new(inner: Vec<u8>) -> (p: Package)
        ensures
            p.0@ == inner@,
    {
        Package(inner)
    }
}

/// The package statement at `p`: the keyword, one or more whitespace
/// bytes, a run of one or more bytes ended by a semicolon or whitespace,
/// optional whitespace, and `;`.  Yields the position after the statement
/// and the package name.
pub open spec fn package_stmt(s: Seq<u8>, p: int) -> Option<(int, Seq<u8>)> {
    if !lex::matches_at(s, p, keyword::kw_package()) {
        None
    } else {
        let w = lex::ws_end(s, p + 7);
        if w == p + 7 {
            None
        } else {
            let e = lex::package_end(s, w);
            if e == w {
                None
            } else {
                let w2 = lex::ws_end(s, e);
                if w2 < s.len() && s[w2] == ';' as u8 {
                    Some((w2 + 1, s.subrange(w, e)))
                } else {
                    None
                }
            }
        }
    }
}

/// Parse a package statement, recording its location under the package
/// tag.  Returns `None`, leaving the ledger unchanged, exactly when no
/// package statement starts after the leading comments and whitespace.
pub fn parse(input: &Vec<u8>, c: Cursor, rec: &mut LocationRecorder) -> (r: Option<(Cursor, Package)>)
    requires
        input@.len() <= INPUT_MAX,
        c.wf(input@),
        source::ledger_ok(old(rec).locations@),
        old(rec).locations@.len() <= c.pos + 2,
    ensures
        r is None ==> {
            &&& final(rec).locations@ == old(rec).locations@
            &&& package_stmt(input@, source::locate_start_pos(input@, c.pos as int)) is None
        },
        r matches Some((c2, pkg)) ==> {
            &&& c2.wf(input@)
            &&& c.pos < c2.pos
            &&& package_stmt(input@, source::locate_start_pos(input@, c.pos as int)) matches Some(
                st,
            ) && pkg.0@ == st.1 && c2.pos == lex::ws_end(input@, st.0)
            &&& pkg.0@.len() > 0
            &&& source::ledger_ok(final(rec).locations@)
            &&& final(rec).locations@.len() == old(rec).locations@.len() + 1
            &&& forall|i: int|
                0 <= i < old(rec).locations@.len() ==> final(rec).locations@[i] == old(
                    rec,
                ).locations@[i]
            &&& final(rec).locations@.last().path@ =~= seq![2i32]
            &&& source::completed_span_ok(final(rec).locations@.last().span@)
            &&& final(rec).locations@.len() <= c2.pos + 2
            &&& forall|t: i32|
                source::count_top(final(rec).locations@, t, final(rec).locations@.len() as int)
                    == source::count_top(old(rec).locations@, t, old(rec).locations@.len() as int)
        },
{
    let ghost s = input@;
    let ghost L0 = rec.locations@;
    let (start, h) = source::locate_begin(input, c, rec, Tag::Package);
    let ghost L1 = rec.locations@;
    let ghost idx = L0.len() as int;
    let kw = keyword::kw_package_v();
    if !lex::match_at(input, start.pos, &kw) {
        source::locate_abort(rec, h);
        proof {
            assert(rec.locations@ =~= L0);
        }
        return None;
    }
    let p1 = lex::advance(input, start, 7);
    let w = lex::skip_ws(input, p1);
    if w.pos == p1.pos {
        source::locate_abort(rec, h);
        proof {
            assert(rec.locations@ =~= L0);
        }
        return None;
    }
    let e = lex::scan_package(input, w);
    if e.pos == w.pos {
        source::locate_abort(rec, h);
        proof {
            assert(rec.locations@ =~= L0);
        }
        return None;
    }
    let w2 = lex::skip_ws(input, e);
    if w2.pos >= input.len() || input[w2.pos] != ';' as u8 {
        source::locate_abort(rec, h);
        proof {
            assert(rec.locations@ =~= L0);
        }
        return None;
    }
    let name = lex::subvec(input, w.pos, e.pos);
    let end = lex::advance(input, w2, 1);
    proof {
        lemma_cursor_bounds(start, s);
        lemma_line_count_mono(s, start.pos as int, end.pos as int);
    }
    let c2 = source::locate_commit(input, end, rec, h);
    proof {
        source::lemma_located_entry(L0, L1, rec.locations@, idx);
        assert(rec.locations@.last().path@ =~= seq![2i32]);
        assert(rec.locations@ =~= L0.push(rec.locations@.last()));
        assert forall|t: i32|
            source::count_top(rec.locations@, t, rec.locations@.len() as int) == source::count_top(
                L0,
                t,
                L0.len() as int,
            ) by {
            source::lemma_count_push(L0, rec.locations@.last(), t, 0);
        }
        assert(package_stmt(s, start.pos as int) matches Some(st) && name@ == st.1 && c2.pos
            == lex::ws_end(s, st.0));
    }
    Some((c2, Package::new(name)))
}

} // verus!
