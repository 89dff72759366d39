//! Methods: `rpc <Ident>(<Ident>) returns (<Ident>);` inside a service.
//! The method is recorded under the service's method tag with the next
//! dense sibling index; its name, input type and output type each get
//! their own location under the method's path.

use vstd::prelude::*;
use crate::cursor::{Cursor, INPUT_MAX, lemma_line_count_mono, lemma_cursor_bounds};
use crate::descriptor::MethodDescriptor;
use crate::error::{ErrorKind, ParseError};
use crate::grammar;
use crate::identifier;
use crate::keyword;
use crate::lex;
use crate::source::{self, LocationRecorder, Tag};

verus! {

/// Parse one rpc method of the innermost service.  Any failure restores
/// the ledger and reports a malformed statement.
#[verifier::rlimit(100)]
pub fn parse(input: &Vec<u8>, c: Cursor, rec: &mut LocationRecorder) -> (r: Result<
    (Cursor, MethodDescriptor),
    ParseError,
>)
    requires
        input@.len() <= INPUT_MAX,
        c.wf(input@),
        source::ledger_ok(old(rec).locations@),
        old(rec).locations@.len() <= c.pos + 2,
        source::method_ctx(old(rec).locations@),
    ensures
        r is Err ==> {
            &&& final(rec).locations@ == old(rec).locations@
            &&& grammar::method_stmt(input@, c.pos as int) is None
            &&& r->Err_0.kind == ErrorKind::MalformedStatement
        },
        r matches Ok((c2, md)) ==> {
            let n0 = old(rec).locations@.len() as int;
            let si = source::count_top(old(rec).locations@, 6, n0) - 1;
            let ci = source::count_item(old(rec).locations@, 6, si as i32, n0);
            &&& c2.wf(input@)
            &&& c.pos < c2.pos
            &&& source::ledger_ok(final(rec).locations@)
            &&& final(rec).locations@.len() == n0 + 4
            &&& forall|i: int|
                0 <= i < n0 ==> final(rec).locations@[i] == old(rec).locations@[i]
            &&& final(rec).locations@[n0].path@ =~= seq![6i32, si as i32, 2i32, ci as i32]
            &&& final(rec).locations@[n0 + 1].path@ =~= seq![
                6i32,
                si as i32,
                2i32,
                ci as i32,
                1i32,
            ]
            &&& final(rec).locations@[n0 + 2].path@ =~= seq![
                6i32,
                si as i32,
                2i32,
                ci as i32,
                2i32,
            ]
            &&& final(rec).locations@[n0 + 3].path@ =~= seq![
                6i32,
                si as i32,
                2i32,
                ci as i32,
                3i32,
            ]
            &&& forall|i: int|
                n0 <= i < final(rec).locations@.len() ==> source::completed_span_ok(
                    (#[trigger] final(rec).locations@[i]).span@,
                )
            &&& final(rec).locations@.len() <= c2.pos + 2
            &&& source::method_ctx(final(rec).locations@)
            &&& forall|t: i32|
                source::count_top(final(rec).locations@, t, final(rec).locations@.len() as int)
                    == source::count_top(old(rec).locations@, t, n0)
            &&& source::count_item(
                final(rec).locations@,
                6,
                si as i32,
                final(rec).locations@.len() as int,
            ) == ci + 1
            &&& md.name@.len() > 0
            &&& md.input_type@.len() > 0
            &&& md.output_type@.len() > 0
            &&& grammar::method_stmt(input@, c.pos as int) matches Some(st) && md.name@ == st.1.0
                && md.input_type@ == st.1.1 && md.output_type@ == st.1.2 && c2.pos == lex::ws_end(
                input@,
                st.0,
            )
        },
{
    let ghost s = input@;
    let ghost L0 = rec.locations@;
    let ghost n0 = L0.len() as int;
    let ghost si = source::count_top(L0, 6, n0) - 1;
    let ghost ci = source::count_item(L0, 6, si as i32, n0);
    proof {
        source::lemma_sibling_path_method(L0);
        source::lemma_count_bounds(L0, 6, si as i32, 0, n0);
    }
    let (start, h) = source::locate_begin(input, c, rec, Tag::Method);
    let ghost L1 = rec.locations@;
    proof {
        lemma_cursor_bounds(start, s);
        assert(L1 =~= L0.push(L1.last()));
        source::lemma_ledger_push(L0, L1.last());
        assert forall|t: i32|
            source::count_top(L1, t, L1.len() as int) == source::count_top(L0, t, n0) by {
            source::lemma_count_push(L0, L1.last(), t, 0);
        }
        assert forall|t: i32, m: i32|
            source::count_item(L1, t, m, L1.len() as int) == source::count_item(L0, t, m, n0) + (
            if t == 6 && m == si {
                1int
            } else {
                0int
            }) by {
            source::lemma_count_push(L0, L1.last(), t, m);
        }
    }
    let kw = keyword::kw_rpc_v();
    if !lex::match_at(input, start.pos, &kw) {
        source::locate_abort(rec, h);
        proof {
            assert(rec.locations@ =~= L0);
        }
        return Err(ParseError::at(ErrorKind::MalformedStatement, start.line, start.col));
    }
    let p1 = lex::advance(input, start, 3);
    let name_res = identifier::parse_as(input, p1, rec, Tag::Name);
    let (c1, name_id) = match name_res {
        Option::None => {
            source::locate_abort(rec, h);
            proof {
                assert(rec.locations@ =~= L0);
            }
            return Err(ParseError::at(ErrorKind::MalformedStatement, p1.line, p1.col));
        },
        Option::Some(x) => x,
    };
    let ghost L2 = rec.locations@;
    proof {
        assert(L2 =~= L1.push(L2.last()));
        assert(L2.last().path@ =~= seq![6i32, si as i32, 2i32, ci as i32, 1i32]);
        assert forall|t: i32|
            source::count_top(L2, t, L2.len() as int) == source::count_top(L0, t, n0) by {
            source::lemma_count_push(L1, L2.last(), t, 0);
        }
        assert forall|t: i32, m: i32|
            source::count_item(L2, t, m, L2.len() as int) == source::count_item(L0, t, m, n0) + (
            if t == 6 && m == si {
                1int
            } else {
                0int
            }) by {
            source::lemma_count_push(L1, L2.last(), t, m);
        }
    }
    if c1.pos >= input.len() || input[c1.pos] != '(' as u8 {
        source::locate_abort(rec, h);
        proof {
            assert(rec.locations@ =~= L0);
        }
        return Err(ParseError::at(ErrorKind::MalformedStatement, c1.line, c1.col));
    }
    let c1b = lex::advance(input, c1, 1);
    let in_res = identifier::parse_as(input, c1b, rec, Tag::MethodInput);
    let (c2i, in_id) = match in_res {
        Option::None => {
            source::locate_abort(rec, h);
            proof {
                assert(rec.locations@ =~= L0);
            }
            return Err(ParseError::at(ErrorKind::MalformedStatement, c1b.line, c1b.col));
        },
        Option::Some(x) => x,
    };
    let ghost L3 = rec.locations@;
    proof {
        assert(L3 =~= L2.push(L3.last()));
        assert(L3.last().path@ =~= seq![6i32, si as i32, 2i32, ci as i32, 2i32]);
        assert forall|t: i32|
            source::count_top(L3, t, L3.len() as int) == source::count_top(L0, t, n0) by {
            source::lemma_count_push(L2, L3.last(), t, 0);
        }
        assert forall|t: i32, m: i32|
            source::count_item(L3, t, m, L3.len() as int) == source::count_item(L0, t, m, n0) + (
            if t == 6 && m == si {
                1int
            } else {
                0int
            }) by {
            source::lemma_count_push(L2, L3.last(), t, m);
        }
    }
    if c2i.pos >= input.len() || input[c2i.pos] != ')' as u8 {
        source::locate_abort(rec, h);
        proof {
            assert(rec.locations@ =~= L0);
        }
        return Err(ParseError::at(ErrorKind::MalformedStatement, c2i.line, c2i.col));
    }
    let c3 = lex::advance(input, c2i, 1);
    let w1 = lex::skip_ws(input, c3);
    let kw_ret = keyword::kw_returns_v();
    if w1.pos == c3.pos || !lex::match_at(input, w1.pos, &kw_ret) {
        source::locate_abort(rec, h);
        proof {
            assert(rec.locations@ =~= L0);
        }
        return Err(ParseError::at(ErrorKind::MalformedStatement, w1.line, w1.col));
    }
    let c4 = lex::advance(input, w1, 7);
    let w2 = lex::skip_ws(input, c4);
    if w2.pos == c4.pos || w2.pos >= input.len() || input[w2.pos] != '(' as u8 {
        source::locate_abort(rec, h);
        proof {
            assert(rec.locations@ =~= L0);
        }
        return Err(ParseError::at(ErrorKind::MalformedStatement, w2.line, w2.col));
    }
    let c5 = lex::advance(input, w2, 1);
    let out_res = identifier::parse_as(input, c5, rec, Tag::MethodOutput);
    let (c6, out_id) = match out_res {
        Option::None => {
            source::locate_abort(rec, h);
            proof {
                assert(rec.locations@ =~= L0);
            }
            return Err(ParseError::at(ErrorKind::MalformedStatement, c5.line, c5.col));
        },
        Option::Some(x) => x,
    };
    let ghost L4 = rec.locations@;
    proof {
        assert(L4 =~= L3.push(L4.last()));
        assert(L4.last().path@ =~= seq![6i32, si as i32, 2i32, ci as i32, 3i32]);
        assert forall|t: i32|
            source::count_top(L4, t, L4.len() as int) == source::count_top(L0, t, n0) by {
            source::lemma_count_push(L3, L4.last(), t, 0);
        }
        assert forall|t: i32, m: i32|
            source::count_item(L4, t, m, L4.len() as int) == source::count_item(L0, t, m, n0) + (
            if t == 6 && m == si {
                1int
            } else {
                0int
            }) by {
            source::lemma_count_push(L3, L4.last(), t, m);
        }
    }
    if c6.pos >= input.len() || input[c6.pos] != ')' as u8 {
        source::locate_abort(rec, h);
        proof {
            assert(rec.locations@ =~= L0);
        }
        return Err(ParseError::at(ErrorKind::MalformedStatement, c6.line, c6.col));
    }
    let c7 = lex::advance(input, c6, 1);
    let w3 = lex::skip_ws(input, c7);
    if w3.pos >= input.len() || input[w3.pos] != ';' as u8 {
        source::locate_abort(rec, h);
        proof {
            assert(rec.locations@ =~= L0);
        }
        return Err(ParseError::at(ErrorKind::MalformedStatement, w3.line, w3.col));
    }
    let end = lex::advance(input, w3, 1);
    proof {
        lemma_line_count_mono(s, start.pos as int, end.pos as int);
        assert(L4[n0] == L1[n0]);
    }
    let ghost lpre = rec.locations@;
    let c2 = source::locate_commit(input, end, rec, h);
    proof {
        assert(rec.locations@ =~= lpre.update(n0, rec.locations@[n0]));
        source::lemma_ledger_update(lpre, n0, rec.locations@[n0]);
        assert forall|t: i32|
            source::count_top(rec.locations@, t, rec.locations@.len() as int) == source::count_top(
                L0,
                t,
                n0,
            ) by {
            source::lemma_count_update(lpre, n0, rec.locations@[n0], t, 0);
        }
        source::lemma_count_update(lpre, n0, rec.locations@[n0], 6, si as i32);
        assert(rec.locations@[n0 + 1] == lpre[n0 + 1]);
        assert(rec.locations@[n0 + 2] == lpre[n0 + 2]);
        assert(rec.locations@[n0 + 3] == lpre[n0 + 3]);
        assert forall|i: int|
            n0 <= i < rec.locations@.len() implies source::completed_span_ok(
            (#[trigger] rec.locations@[i]).span@,
        ) by {
            if i == n0 + 1 {
                assert(rec.locations@[i] == lpre[n0 + 1]);
            } else if i == n0 + 2 {
                assert(rec.locations@[i] == lpre[n0 + 2]);
            } else if i == n0 + 3 {
                assert(rec.locations@[i] == lpre[n0 + 3]);
            }
        }
        assert(source::method_ctx(rec.locations@));
    }
    Ok(
        (
            c2,
            MethodDescriptor { name: name_id.0, input_type: in_id.0, output_type: out_id.0 },
        ),
    )
}

} // verus!
