//! Enums: `enum <Ident> { (<Ident> = <int32>;)+ }` with at least one
//! value, recorded under the file's enum-type tag with the next dense
//! sibling index.

use vstd::prelude::*;
use crate::cursor::{Cursor, INPUT_MAX, lemma_line_count_mono, lemma_cursor_bounds};
use crate::descriptor::{EnumDescriptor, EnumValueDescriptor};
use crate::error::{ErrorKind, ParseError};
use crate::grammar;
use crate::keyword;
use crate::lex;
use crate::source::{self, LocationRecorder, Tag};

verus! {

/// Parse an enum: the keyword, its name, and braces holding one or more
/// `name = number;` values.  `Ok(None)` is returned, with the ledger
/// unchanged, exactly when the keyword does not start after the leading
/// comments and whitespace.
#[verifier::rlimit(50)]
pub fn parse(input: &Vec<u8>, c: Cursor, rec: &mut LocationRecorder) -> (r: Result<
    Option<(Cursor, EnumDescriptor)>,
    ParseError,
>)
    requires
        input@.len() <= INPUT_MAX,
        c.wf(input@),
        source::ledger_ok(old(rec).locations@),
        old(rec).locations@.len() <= c.pos + 2,
    ensures
        r matches Ok(o) ==> (o is None ==> {
            &&& final(rec).locations@ == old(rec).locations@
            &&& !lex::matches_at(
                input@,
                source::locate_start_pos(input@, c.pos as int),
                keyword::kw_enum(),
            )
        }),
        r is Err ==> {
            &&& final(rec).locations@ == old(rec).locations@
            &&& lex::matches_at(
                input@,
                source::locate_start_pos(input@, c.pos as int),
                keyword::kw_enum(),
            )
            &&& grammar::enum_stmt(input@, c.pos as int) is None
            &&& r->Err_0.kind == ErrorKind::MalformedStatement
        },
        r matches Ok(o) ==> (o matches Some((c2, ed)) ==> {
            let n0 = old(rec).locations@.len() as int;
            &&& c2.wf(input@)
            &&& c.pos < c2.pos
            &&& source::ledger_ok(final(rec).locations@)
            &&& final(rec).locations@.len() == n0 + 1
            &&& forall|i: int|
                0 <= i < n0 ==> final(rec).locations@[i] == old(rec).locations@[i]
            &&& final(rec).locations@.last().path@ =~= seq![
                5i32,
                source::count_top(old(rec).locations@, 5, n0) as i32,
            ]
            &&& source::completed_span_ok(final(rec).locations@.last().span@)
            &&& final(rec).locations@.len() <= c2.pos + 2
            &&& forall|t: i32|
                source::count_top(final(rec).locations@, t, final(rec).locations@.len() as int)
                    == source::count_top(old(rec).locations@, t, n0) + (if t == 5 {
                    1int
                } else {
                    0int
                })
            &&& ed.name@.len() > 0
            &&& ed.value@.len() >= 1
            &&& grammar::enum_stmt(input@, c.pos as int) matches Some(st) && grammar::enum_view(ed)
                == st.1 && c2.pos == lex::ws_end(input@, st.0)
        }),
{
    let ghost s = input@;
    let ghost L0 = rec.locations@;
    let ghost n0 = L0.len() as int;
    proof {
        source::lemma_next_index_count(L0, 5);
        source::lemma_count_bounds(L0, 5, 0, 0, n0);
    }
    let (start, h) = source::locate_begin(input, c, rec, Tag::EnumType);
    let ghost L1 = rec.locations@;
    proof {
        lemma_cursor_bounds(start, s);
    }
    let kw = keyword::kw_enum_v();
    if !lex::match_at(input, start.pos, &kw) {
        source::locate_abort(rec, h);
        proof {
            assert(rec.locations@ =~= L0);
        }
        return Ok(None);
    }
    let p1 = lex::advance(input, start, 4);
    let w = lex::skip_ws(input, p1);
    let ne = lex::scan_alpha(input, w);
    if ne.pos == w.pos {
        source::locate_abort(rec, h);
        proof {
            assert(rec.locations@ =~= L0);
        }
        return Err(ParseError::at(ErrorKind::MalformedStatement, start.line, start.col));
    }
    let name = lex::subvec(input, w.pos, ne.pos);
    let wb = lex::skip_ws(input, ne);
    if wb.pos >= input.len() || input[wb.pos] != '{' as u8 {
        source::locate_abort(rec, h);
        proof {
            assert(rec.locations@ =~= L0);
        }
        return Err(ParseError::at(ErrorKind::MalformedStatement, wb.line, wb.col));
    }
    let mut cur = lex::advance(input, wb, 1);
    let mut values: Vec<EnumValueDescriptor> = Vec::new();
    let ghost body0 = cur.pos as int;
    proof {
        assert(grammar::value_views(values@) =~= Seq::<(Seq<u8>, int)>::empty());
    }
    loop
        invariant
            input@.len() <= INPUT_MAX,
            s == input@,
            cur.wf(input@),
            c.pos < cur.pos,
            rec.locations@ == L1,
            L0 == old(rec).locations@,
            n0 == L0.len() as int,
            L1.len() == n0 + 1,
            forall|i: int| 0 <= i < n0 ==> L1[i] == L0[i],
            n0 + 1 <= cur.pos + 2,
            h.index == n0,
            start.wf(input@),
            start.pos <= cur.pos,
            body0 <= cur.pos,
            lex::matches_at(s, source::locate_start_pos(s, c.pos as int), keyword::kw_enum()),
            (match grammar::enum_values(s, cur.pos as int) {
                Option::None => grammar::enum_values(s, body0) is None,
                Option::Some(r) => grammar::enum_values(s, body0) matches Some(t) && t.0 == r.0
                    && t.1 =~= grammar::value_views(values@) + r.1,
            }),
            (match grammar::enum_values(s, body0) {
                Option::Some(t) => {
                    if t.1.len() >= 1 {
                        grammar::enum_stmt(s, c.pos as int) == Some(
                            (t.0, grammar::EnumView { name: name@, values: t.1 }),
                        )
                    } else {
                        grammar::enum_stmt(s, c.pos as int) is None
                    }
                },
                Option::None => grammar::enum_stmt(s, c.pos as int) is None,
            }),
        ensures
            cur.wf(input@),
            c.pos < cur.pos,
            rec.locations@ == L1,
            n0 + 1 <= cur.pos + 2,
            values@.len() >= 1,
            start.pos <= cur.pos,
            cur.pos < input@.len() && input@[cur.pos as int] == '}' as u8,
            grammar::enum_stmt(s, c.pos as int) == Some(
                (
                    cur.pos + 1 as int,
                    grammar::EnumView { name: name@, values: grammar::value_views(values@) },
                ),
            ),
        decreases input@.len() - cur.pos,
    {
        let vw = lex::skip_ws(input, cur);
        if vw.pos < input.len() && input[vw.pos] == '}' as u8 {
            proof {
                assert(grammar::enum_values(s, cur.pos as int) == Some(
                    (vw.pos + 1 as int, Seq::<(Seq<u8>, int)>::empty()),
                ));
                assert(grammar::value_views(values@) + Seq::<(Seq<u8>, int)>::empty()
                    =~= grammar::value_views(values@));
            }
            if values.len() == 0 {
                source::locate_abort(rec, h);
                proof {
                    assert(rec.locations@ =~= L0);
                }
                return Err(ParseError::at(ErrorKind::MalformedStatement, vw.line, vw.col));
            }
            cur = vw;
            break ;
        }
        let vn = lex::scan_alpha(input, vw);
        if vn.pos == vw.pos {
            source::locate_abort(rec, h);
            proof {
                assert(rec.locations@ =~= L0);
            }
            return Err(ParseError::at(ErrorKind::MalformedStatement, vw.line, vw.col));
        }
        let vname = lex::subvec(input, vw.pos, vn.pos);
        let a = lex::skip_ws(input, vn);
        if a.pos >= input.len() || input[a.pos] != '=' as u8 {
            source::locate_abort(rec, h);
            proof {
                assert(rec.locations@ =~= L0);
            }
            return Err(ParseError::at(ErrorKind::MalformedStatement, a.line, a.col));
        }
        let b = lex::skip_ws(input, lex::advance(input, a, 1));
        let parsed = lex::parse_i32(input, b);
        let (tok, num) = match parsed {
            Option::None => {
                source::locate_abort(rec, h);
                proof {
                    assert(rec.locations@ =~= L0);
                }
                return Err(ParseError::at(ErrorKind::MalformedStatement, b.line, b.col));
            },
            Option::Some(x) => x,
        };
        let d = lex::skip_ws(input, tok);
        if d.pos >= input.len() || input[d.pos] != ';' as u8 {
            source::locate_abort(rec, h);
            proof {
                assert(rec.locations@ =~= L0);
            }
            return Err(ParseError::at(ErrorKind::MalformedStatement, d.line, d.col));
        }
        let ghost prev = cur.pos as int;
        cur = lex::advance(input, d, 1);
        values.push(EnumValueDescriptor { name: vname, number: num });
        proof {
            assert(grammar::enum_values(s, prev) matches Some(r0) ==> grammar::enum_values(
                s,
                cur.pos as int,
            ) matches Some(r1) && r0 == (
                r1.0,
                seq![(vname@, num as int)] + r1.1,
            ));
            assert(grammar::value_views(values@) =~= grammar::value_views(values@.drop_last())
                + seq![(vname@, num as int)]);
            match grammar::enum_values(s, cur.pos as int) {
                Option::Some(r1) => {
                    assert(grammar::value_views(values@) + r1.1 =~= grammar::value_views(
                        values@.drop_last(),
                    ) + (seq![(vname@, num as int)] + r1.1));
                },
                Option::None => {},
            }
        }
    }
    let end = lex::advance(input, cur, 1);
    proof {
        lemma_line_count_mono(s, start.pos as int, end.pos as int);
    }
    let c2 = source::locate_commit(input, end, rec, h);
    proof {
        source::lemma_located_entry(L0, L1, rec.locations@, n0);
        assert(rec.locations@.last().path@ =~= seq![
            5i32,
            source::count_top(L0, 5, n0) as i32,
        ]);
        assert(rec.locations@ =~= L0.push(rec.locations@.last()));
        assert forall|t: i32|
            source::count_top(rec.locations@, t, rec.locations@.len() as int) == source::count_top(
                L0,
                t,
                n0,
            ) + (if t == 5 {
                1int
            } else {
                0int
            }) by {
            source::lemma_count_push(L0, rec.locations@.last(), t, 0);
        }
    }
    Ok(Some((c2, EnumDescriptor { name, value: values })))
}

} // verus!
