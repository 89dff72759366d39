//! Services: `service <Ident> { <method>* }`, recorded under the file's
//! service tag with the next dense sibling index; the name gets its own
//! location and each method a block of four.

use vstd::prelude::*;
use crate::cursor::{Cursor, INPUT_MAX, lemma_line_count_mono, lemma_cursor_bounds};
use crate::descriptor::{MethodDescriptor, ServiceDescriptor};
use crate::error::{ErrorKind, ParseError};
use crate::grammar;
use crate::identifier;
use crate::keyword;
use crate::lex;
use crate::method;
use crate::source::{self, LocationRecorder, Tag};

verus! {

/// Parse a service: the keyword, its name, and braces holding zero or
/// more rpc methods.  `Ok(None)` is returned, with the ledger unchanged,
/// exactly when the keyword does not start after the leading comments and
/// whitespace.
#[verifier::rlimit(100)]
pub fn parse(input: &Vec<u8>, c: Cursor, rec: &mut LocationRecorder) -> (r: Result<
    Option<(Cursor, ServiceDescriptor)>,
    ParseError,
>)
    requires
        input@.len() <= INPUT_MAX,
        c.wf(input@),
        source::ledger_ok(old(rec).locations@),
        old(rec).locations@.len() <= c.pos + 2,
    ensures
        r matches Ok(o) ==> (o is None ==> {
            &&& final(rec).locations@ == old(rec).locations@
            &&& !lex::matches_at(
                input@,
                source::locate_start_pos(input@, c.pos as int),
                keyword::kw_service(),
            )
        }),
        r is Err ==> {
            &&& final(rec).locations@ == old(rec).locations@
            &&& lex::matches_at(
                input@,
                source::locate_start_pos(input@, c.pos as int),
                keyword::kw_service(),
            )
            &&& grammar::service_stmt(input@, c.pos as int) is None
            &&& r->Err_0.kind == ErrorKind::MalformedStatement
        },
        r matches Ok(o) ==> (o matches Some((c2, sd)) ==> {
            let n0 = old(rec).locations@.len() as int;
            let sj = source::count_top(old(rec).locations@, 6, n0);
            &&& c2.wf(input@)
            &&& c.pos < c2.pos
            &&& source::ledger_ok(final(rec).locations@)
            &&& final(rec).locations@.len() == n0 + 2 + 4 * sd.method@.len()
            &&& forall|i: int|
                0 <= i < n0 ==> final(rec).locations@[i] == old(rec).locations@[i]
            &&& final(rec).locations@[n0].path@ =~= seq![6i32, sj as i32]
            &&& final(rec).locations@[n0 + 1].path@ =~= seq![6i32, sj as i32, 1i32]
            &&& forall|i: int|
                n0 <= i < final(rec).locations@.len() ==> source::completed_span_ok(
                    (#[trigger] final(rec).locations@[i]).span@,
                )
            &&& final(rec).locations@.len() <= c2.pos + 2
            &&& forall|t: i32|
                source::count_top(final(rec).locations@, t, final(rec).locations@.len() as int)
                    == source::count_top(old(rec).locations@, t, n0) + (if t == 6 {
                    1int
                } else {
                    0int
                })
            &&& sd.name@.len() > 0
            &&& grammar::service_stmt(input@, c.pos as int) matches Some(st) && grammar::svc_view(
                sd,
            ) == st.1 && c2.pos == lex::ws_end(input@, st.0)
        }),
{
    let ghost s = input@;
    let ghost L0 = rec.locations@;
    let ghost n0 = L0.len() as int;
    let ghost sj = source::count_top(L0, 6, n0);
    proof {
        source::lemma_next_index_count(L0, 6);
        source::lemma_count_bounds(L0, 6, 0, 0, n0);
    }
    let (start, h) = source::locate_begin(input, c, rec, Tag::Service);
    let ghost L1 = rec.locations@;
    proof {
        lemma_cursor_bounds(start, s);
    }
    let kw = keyword::kw_service_v();
    if !lex::match_at(input, start.pos, &kw) {
        source::locate_abort(rec, h);
        proof {
            assert(rec.locations@ =~= L0);
        }
        return Ok(None);
    }
    let p1 = lex::advance(input, start, 7);
    proof {
        assert(L1 =~= L0.push(L1.last()));
        source::lemma_ledger_push(L0, L1.last());
        assert forall|t: i32|
            source::count_top(L1, t, L1.len() as int) == source::count_top(L0, t, n0) + (if t
                == 6 {
                1int
            } else {
                0int
            }) by {
            source::lemma_count_push(L0, L1.last(), t, 0);
        }
        assert forall|t: i32, m: i32|
            source::count_item(L1, t, m, L1.len() as int) == source::count_item(L0, t, m, n0) by {
            source::lemma_count_push(L0, L1.last(), t, m);
        }
    }
    let name_res = identifier::parse_as(input, p1, rec, Tag::Name);
    let (after_name, ident) = match name_res {
        Option::None => {
            source::locate_abort(rec, h);
            proof {
                assert(rec.locations@ =~= L0);
            }
            return Err(ParseError::at(ErrorKind::MalformedStatement, p1.line, p1.col));
        },
        Option::Some(x) => x,
    };
    let ghost L2 = rec.locations@;
    proof {
        assert(L2 =~= L1.push(L2.last()));
        assert(L2.last().path@ =~= seq![6i32, sj as i32, 1i32]);
        assert forall|t: i32|
            source::count_top(L2, t, L2.len() as int) == source::count_top(L0, t, n0) + (if t
                == 6 {
                1int
            } else {
                0int
            }) by {
            source::lemma_count_push(L1, L2.last(), t, 0);
        }
        assert forall|t: i32, m: i32|
            source::count_item(L2, t, m, L2.len() as int) == source::count_item(L0, t, m, n0) by {
            source::lemma_count_push(L1, L2.last(), t, m);
        }
        source::lemma_count_bounds(L0, 6, sj as i32, 0, n0);
        source::lemma_count_item_fresh(L0, 6, sj as i32, n0);
        assert(source::method_ctx(L2));
    }
    if after_name.pos >= input.len() || input[after_name.pos] != '{' as u8 {
        source::locate_abort(rec, h);
        proof {
            assert(rec.locations@ =~= L0);
        }
        return Err(
            ParseError::at(ErrorKind::MalformedStatement, after_name.line, after_name.col),
        );
    }
    let mut cur = lex::advance(input, after_name, 1);
    let mut methods: Vec<MethodDescriptor> = Vec::new();
    let ghost body0 = cur.pos as int;
    proof {
        assert(grammar::method_views(methods@) =~= Seq::<(Seq<u8>, Seq<u8>, Seq<u8>)>::empty());
        grammar::lemma_methods_init(s, body0);
    }
    loop
        invariant_except_break
            grammar::methods_progress(
                s,
                body0,
                cur.pos as int,
                grammar::method_views(methods@),
            ),
        invariant
            input@.len() <= INPUT_MAX,
            s == input@,
            cur.wf(input@),
            c.pos < cur.pos,
            start.wf(input@),
            start.pos <= cur.pos,
            h.index == n0,
            source::ledger_ok(rec.locations@),
            rec.locations@.len() <= cur.pos + 2,
            source::method_ctx(rec.locations@),
            L0 == old(rec).locations@,
            n0 == L0.len() as int,
            n0 <= INPUT_MAX + 2,
            sj == source::count_top(L0, 6, n0),
            0 <= sj <= n0,
            rec.locations@.len() == n0 + 2 + 4 * methods@.len(),
            forall|i: int| 0 <= i < n0 ==> rec.locations@[i] == L0[i],
            rec.locations@[n0] == L1[n0],
            L1[n0].path@ =~= seq![6i32, sj as i32],
            L1[n0].span@.len() == 2 && L1[n0].span@[0] >= 0 && L1[n0].span@[1] >= 0,
            rec.locations@[n0 + 1].path@ =~= seq![6i32, sj as i32, 1i32],
            forall|i: int|
                n0 + 1 <= i < rec.locations@.len() ==> source::completed_span_ok(
                    (#[trigger] rec.locations@[i]).span@,
                ),
            forall|t: i32|
                source::count_top(rec.locations@, t, rec.locations@.len() as int)
                    == source::count_top(L0, t, n0) + (if t == 6 {
                    1int
                } else {
                    0int
                }),
            source::count_item(rec.locations@, 6, sj as i32, rec.locations@.len() as int)
                == methods@.len(),
            ident.0@.len() > 0,
            forall|m: int|
                0 <= m < methods@.len() ==> {
                    &&& (#[trigger] methods@[m]).name@.len() > 0
                    &&& methods@[m].input_type@.len() > 0
                    &&& methods@[m].output_type@.len() > 0
                },
            body0 <= cur.pos,
            lex::matches_at(
                s,
                source::locate_start_pos(s, c.pos as int),
                keyword::kw_service(),
            ),
            (match grammar::service_methods(s, body0) {
                Option::Some(t) => grammar::service_stmt(s, c.pos as int) == Some(
                    (t.0, grammar::SvcView { name: ident.0@, methods: t.1 }),
                ),
                Option::None => grammar::service_stmt(s, c.pos as int) is None,
            }),
        ensures
            cur.wf(input@),
            c.pos < cur.pos,
            start.wf(input@),
            start.pos <= cur.pos,
            source::ledger_ok(rec.locations@),
            rec.locations@.len() <= cur.pos + 2,
            rec.locations@.len() == n0 + 2 + 4 * methods@.len(),
            forall|i: int| 0 <= i < n0 ==> rec.locations@[i] == L0[i],
            rec.locations@[n0] == L1[n0],
            rec.locations@[n0 + 1].path@ =~= seq![6i32, sj as i32, 1i32],
            forall|i: int|
                n0 + 1 <= i < rec.locations@.len() ==> source::completed_span_ok(
                    (#[trigger] rec.locations@[i]).span@,
                ),
            forall|t: i32|
                source::count_top(rec.locations@, t, rec.locations@.len() as int)
                    == source::count_top(L0, t, n0) + (if t == 6 {
                    1int
                } else {
                    0int
                }),
            ident.0@.len() > 0,
            cur.pos < input@.len() && input@[cur.pos as int] == '}' as u8,
            grammar::service_stmt(s, c.pos as int) == Some(
                (
                    cur.pos + 1 as int,
                    grammar::SvcView { name: ident.0@, methods: grammar::method_views(methods@) },
                ),
            ),
        decreases input@.len() - cur.pos,
    {
        let pw = lex::skip_ws(input, cur);
        if pw.pos < input.len() && input[pw.pos] == '}' as u8 {
            proof {
                grammar::lemma_methods_close(
                    s,
                    body0,
                    cur.pos as int,
                    grammar::method_views(methods@),
                );
            }
            cur = pw;
            break ;
        }
        let ghost before = rec.locations@;
        let ghost prev = cur.pos as int;
        let ghost methods_snap = methods@;
        match method::parse(input, cur, rec) {
            Result::Err(e) => {
                source::locate_abort(rec, h);
                proof {
                    assert(rec.locations@ =~= L0);
                    grammar::lemma_methods_none(
                        s,
                        body0,
                        prev,
                        grammar::method_views(methods_snap),
                    );
                    assert(grammar::service_stmt(s, c.pos as int) is None);
                }
                return Err(e);
            },
            Result::Ok((c2, md)) => {
                proof {
                    assert forall|t: i32|
                        source::count_top(rec.locations@, t, rec.locations@.len() as int)
                            == source::count_top(L0, t, n0) + (if t == 6 {
                            1int
                        } else {
                            0int
                        }) by {
                        assert(source::count_top(rec.locations@, t, rec.locations@.len() as int)
                            == source::count_top(before, t, before.len() as int));
                    }
                    assert(source::count_item(
                        rec.locations@,
                        6,
                        sj as i32,
                        rec.locations@.len() as int,
                    ) == methods@.len() + 1);
                    assert forall|i: int|
                        n0 + 1 <= i < rec.locations@.len() implies source::completed_span_ok(
                        (#[trigger] rec.locations@[i]).span@,
                    ) by {
                        if i < before.len() {
                            assert(rec.locations@[i] == before[i]);
                        }
                    }
                    assert(rec.locations@[n0] == before[n0]);
                    assert(rec.locations@[n0 + 1] == before[n0 + 1]);
                }
                methods.push(md);
                cur = c2;
                proof {
                    let stm = grammar::method_stmt(s, prev)->Some_0;
                    grammar::lemma_method_views_push(methods_snap, methods@.last());
                    assert(methods@ =~= methods_snap.push(methods@.last()));
                    assert(grammar::method_view(methods@.last()) == stm.1);
                    grammar::lemma_methods_step(
                        s,
                        body0,
                        prev,
                        grammar::method_views(methods_snap),
                        stm,
                    );
                }
            },
        }
    }
    let end = lex::advance(input, cur, 1);
    proof {
        lemma_line_count_mono(s, start.pos as int, end.pos as int);
    }
    let ghost lpre = rec.locations@;
    let c2 = source::locate_commit(input, end, rec, h);
    proof {
        assert(rec.locations@ =~= lpre.update(n0, rec.locations@[n0]));
        source::lemma_ledger_update(lpre, n0, rec.locations@[n0]);
        assert forall|t: i32|
            source::count_top(rec.locations@, t, rec.locations@.len() as int) == source::count_top(
                L0,
                t,
                n0,
            ) + (if t == 6 {
                1int
            } else {
                0int
            }) by {
            source::lemma_count_update(lpre, n0, rec.locations@[n0], t, 0);
        }
        assert(rec.locations@[n0 + 1] == lpre[n0 + 1]);
        assert forall|i: int|
            n0 <= i < rec.locations@.len() implies source::completed_span_ok(
            (#[trigger] rec.locations@[i]).span@,
        ) by {
            if i > n0 {
                assert(rec.locations@[i] == lpre[i]);
            }
        }
    }
    Ok(Some((c2, ServiceDescriptor { name: ident.0, method: methods })))
}

} // verus!
