//! Identifiers: runs of letters and dots, used for message, service and
//! method names and for rpc input and output types.  Each identifier is
//! recorded as its own location under the tag the caller supplies.

use vstd::prelude::*;
use crate::cursor::{Cursor, INPUT_MAX, lemma_line_count_mono, lemma_cursor_bounds};
use crate::lex;
use crate::source::{self, LocationRecorder, Tag};

verus! {

/// A parsed identifier.
#[derive(Clone, Debug, PartialEq)]
pub struct Identifier(pub Vec<u8>);

impl Identifier {
    /// Wrap identifier bytes.
    pub fn new(inner: Vec<u8>) -> (r: Identifier)
        ensures
            r.0@ == inner@,
    {
        Identifier(inner)
    }
}

/// Parse an identifier under the given tag: consume leading comments and
/// whitespace, record a location whose path the tag computes, and take one
/// or more identifier bytes.  Returns `None`, leaving the ledger unchanged,
/// exactly when no identifier byte follows.
pub fn parse_as(input: &Vec<u8>, c: Cursor, rec: &mut LocationRecorder, tag: Tag) -> (r: Option<
    (Cursor, Identifier),
>)
    requires
        input@.len() <= INPUT_MAX,
        c.wf(input@),
        source::ledger_ok(old(rec).locations@),
        old(rec).locations@.len() <= c.pos + 2,
        source::tag_pre(tag, old(rec).locations@),
        source::shape_ok(source::into_path_spec(tag, old(rec).locations@)),
        source::push_pre(old(rec).locations@, source::into_path_spec(tag, old(rec).locations@)),
    ensures
        r is None ==> {
            &&& final(rec).locations@ == old(rec).locations@
            &&& lex::ident_end(input@, source::locate_start_pos(input@, c.pos as int))
                == source::locate_start_pos(input@, c.pos as int)
        },
        r matches Some((c2, id)) ==> {
            let sp = source::locate_start_pos(input@, c.pos as int);
            let e = lex::ident_end(input@, sp);
            &&& c2.wf(input@)
            &&& c.pos <= c2.pos
            &&& e > sp
            &&& id.0@ == input@.subrange(sp, e)
            &&& id.0@.len() > 0
            &&& c2.pos == lex::ws_end(input@, e)
            &&& e <= c2.pos
            &&& source::ledger_ok(final(rec).locations@)
            &&& final(rec).locations@.len() == old(rec).locations@.len() + 1
            &&& forall|i: int|
                0 <= i < old(rec).locations@.len() ==> final(rec).locations@[i] == old(
                    rec,
                ).locations@[i]
            &&& final(rec).locations@.last().path@ == source::into_path_spec(
                tag,
                old(rec).locations@,
            )
            &&& source::completed_span_ok(final(rec).locations@.last().span@)
            &&& final(rec).locations@.len() <= c2.pos + 2
        },
{
    let ghost s = input@;
    let ghost L0 = rec.locations@;
    let (start, h) = source::locate_begin(input, c, rec, tag);
    let ghost L1 = rec.locations@;
    let ghost idx = L0.len() as int;
    let e = lex::scan_ident(input, start);
    if e.pos == start.pos {
        source::locate_abort(rec, h);
        proof {
            assert(rec.locations@ =~= L0);
        }
        return None;
    }
    let name = lex::subvec(input, start.pos, e.pos);
    proof {
        lemma_cursor_bounds(start, s);
        lemma_line_count_mono(s, start.pos as int, e.pos as int);
    }
    let c2 = source::locate_commit(input, e, rec, h);
    proof {
        source::lemma_located_entry(L0, L1, rec.locations@, idx);
    }
    Some((c2, Identifier::new(name)))
}

} // verus!
