//! Messages and their contents: `message <Ident> { … }` holding scalar
//! fields `<type> <name> = <number>;` and `oneof <name> { <field>* }`
//! groups.  The message is recorded under the file's message-type tag, its
//! name under the name tag, and every field — oneof members included —
//! under the field tag with dense sibling indices.

use vstd::prelude::*;
use crate::cursor::{Cursor, INPUT_MAX, lemma_line_count_mono, lemma_cursor_bounds};
use crate::descriptor::{FieldDescriptor, MessageDescriptor, OneofDescriptor};
use crate::error::{ErrorKind, ParseError};
use crate::identifier;
use crate::keyword;
use crate::lex;
use crate::grammar::{self, field_stmt};
use crate::source::{self, LocationRecorder, Tag};

verus! {

/// Parse one scalar field of the innermost message, recording it under the
/// field tag with the next dense sibling index.  `Ok(None)` is returned,
/// with the ledger unchanged, exactly when no type word starts after the
/// leading comments and whitespace; a type word that is not a scalar
/// keyword is an `UnknownType` error, and a recognized scalar keyword whose
/// statement does not finish in the expected form is a
/// `MalformedStatement` error.
#[verifier::rlimit(100)]
pub fn parse_field(input: &Vec<u8>, c: Cursor, rec: &mut LocationRecorder) -> (r: Result<
    Option<(Cursor, FieldDescriptor)>,
    ParseError,
>)
    requires
        input@.len() <= INPUT_MAX,
        c.wf(input@),
        source::ledger_ok(old(rec).locations@),
        old(rec).locations@.len() <= c.pos + 2,
        source::item_ctx(old(rec).locations@, 4),
    ensures
        r matches Ok(o) ==> (o is None ==> {
            &&& final(rec).locations@ == old(rec).locations@
            &&& lex::alnum_end(input@, source::locate_start_pos(input@, c.pos as int))
                == source::locate_start_pos(input@, c.pos as int)
        }),
        r is Err ==> {
            &&& final(rec).locations@ == old(rec).locations@
            &&& field_stmt(input@, source::locate_start_pos(input@, c.pos as int)) is None
            &&& (r->Err_0.kind == ErrorKind::UnknownType || r->Err_0.kind
                == ErrorKind::MalformedStatement)
        },
        r matches Ok(o) ==> (o matches Some((c2, fd)) ==> {
            let n0 = old(rec).locations@.len() as int;
            let mi = source::count_top(old(rec).locations@, 4, n0) - 1;
            let ci = source::count_item(old(rec).locations@, 4, mi as i32, n0);
            &&& c2.wf(input@)
            &&& c.pos < c2.pos
            &&& field_stmt(input@, source::locate_start_pos(input@, c.pos as int)) matches Some(
                st,
            ) && fd.name@ == st.1 && fd.number == st.2 && fd.field_type == st.3 && c2.pos
                == lex::ws_end(input@, st.0)
            &&& fd.oneof_index is None
            &&& source::ledger_ok(final(rec).locations@)
            &&& final(rec).locations@.len() == n0 + 1
            &&& forall|i: int|
                0 <= i < n0 ==> final(rec).locations@[i] == old(rec).locations@[i]
            &&& final(rec).locations@.last().path@ =~= seq![4i32, mi as i32, 2i32, ci as i32]
            &&& source::completed_span_ok(final(rec).locations@.last().span@)
            &&& final(rec).locations@.len() <= c2.pos + 2
            &&& source::item_ctx(final(rec).locations@, 4)
            &&& forall|t: i32|
                source::count_top(final(rec).locations@, t, final(rec).locations@.len() as int)
                    == source::count_top(old(rec).locations@, t, n0)
            &&& forall|t: i32, m: i32|
                source::count_item(final(rec).locations@, t, m, final(rec).locations@.len() as int)
                    == source::count_item(old(rec).locations@, t, m, n0) + (if t == 4 && m == mi {
                    1int
                } else {
                    0int
                })
        }),
{
    let ghost s = input@;
    let ghost L0 = rec.locations@;
    let ghost n0 = L0.len() as int;
    let ghost mi = source::count_top(L0, 4, n0) - 1;
    let ghost ci = source::count_item(L0, 4, mi as i32, n0);
    proof {
        source::lemma_sibling_path_item(L0, 4);
        source::lemma_count_bounds(L0, 4, mi as i32, 0, n0);
    }
    let (start, h) = source::locate_begin(input, c, rec, Tag::Field);
    let ghost L1 = rec.locations@;
    let we = lex::scan_alnum(input, start);
    if we.pos == start.pos {
        source::locate_abort(rec, h);
        proof {
            assert(rec.locations@ =~= L0);
        }
        return Ok(None);
    }
    let word = lex::subvec(input, start.pos, we.pos);
    let ty_opt = keyword::scalar_type(&word);
    let ty = match ty_opt {
        Option::None => {
            source::locate_abort(rec, h);
            proof {
                assert(rec.locations@ =~= L0);
            }
            return Err(ParseError::at(ErrorKind::UnknownType, start.line, start.col));
        },
        Option::Some(t) => t,
    };
    let ns = lex::skip_ws(input, we);
    let ne = lex::scan_nonws(input, ns);
    if ne.pos == ns.pos {
        source::locate_abort(rec, h);
        proof {
            assert(rec.locations@ =~= L0);
        }
        return Err(ParseError::at(ErrorKind::MalformedStatement, start.line, start.col));
    }
    let name = lex::subvec(input, ns.pos, ne.pos);
    let q1 = lex::skip_ws(input, ne);
    if q1.pos >= input.len() || input[q1.pos] != '=' as u8 {
        source::locate_abort(rec, h);
        proof {
            assert(rec.locations@ =~= L0);
        }
        return Err(ParseError::at(ErrorKind::MalformedStatement, start.line, start.col));
    }
    let q1b = lex::advance(input, q1, 1);
    let q2 = lex::skip_ws(input, q1b);
    let parsed = lex::parse_i32(input, q2);
    let (q3, num) = match parsed {
        Option::None => {
            source::locate_abort(rec, h);
            proof {
                assert(rec.locations@ =~= L0);
            }
            return Err(ParseError::at(ErrorKind::MalformedStatement, start.line, start.col));
        },
        Option::Some(x) => x,
    };
    let q4 = lex::skip_ws(input, q3);
    if q4.pos >= input.len() || input[q4.pos] != ';' as u8 {
        source::locate_abort(rec, h);
        proof {
            assert(rec.locations@ =~= L0);
        }
        return Err(ParseError::at(ErrorKind::MalformedStatement, start.line, start.col));
    }
    let end = lex::advance(input, q4, 1);
    proof {
        lemma_cursor_bounds(start, s);
        lemma_line_count_mono(s, start.pos as int, end.pos as int);
    }
    let c2 = source::locate_commit(input, end, rec, h);
    proof {
        source::lemma_located_entry(L0, L1, rec.locations@, n0);
        assert(rec.locations@.last().path@ =~= seq![4i32, mi as i32, 2i32, ci as i32]);
        assert(rec.locations@ =~= L0.push(rec.locations@.last()));
        assert forall|t: i32|
            source::count_top(rec.locations@, t, rec.locations@.len() as int) == source::count_top(
                L0,
                t,
                n0,
            ) by {
            source::lemma_count_push(L0, rec.locations@.last(), t, 0);
        }
        assert forall|t: i32, m: i32|
            source::count_item(rec.locations@, t, m, rec.locations@.len() as int)
                == source::count_item(L0, t, m, n0) + (if t == 4 && m == mi {
                1int
            } else {
                0int
            }) by {
            source::lemma_count_push(L0, rec.locations@.last(), t, m);
        }
        assert(source::item_ctx(rec.locations@, 4));
        assert(field_stmt(s, start.pos as int) matches Some(st) && name@ == st.1 && c2.pos
            == lex::ws_end(s, st.0));
    }
    Ok(
        Some(
            (
                c2,
                FieldDescriptor { name, number: num, field_type: ty, oneof_index: None },
            ),
        ),
    )
}

/// A parsed oneof group: its declaration and the fields it contains.
pub struct OneOf {
    pub descriptor: OneofDescriptor,
    pub fields: Vec<FieldDescriptor>,
}

/// Parse a oneof group: the keyword, its name, and braces holding zero or
/// more fields, each of which is stamped with the given oneof index and
/// recorded under the enclosing message's field tag, continuing its dense
/// sibling indices.
#[verifier::rlimit(100)]
pub fn parse_oneof(
    input: &Vec<u8>,
    c: Cursor,
    rec: &mut LocationRecorder,
    oneof_index: i32,
) -> (r: Result<(Cursor, OneOf), ParseError>)
    requires
        input@.len() <= INPUT_MAX,
        c.wf(input@),
        source::ledger_ok(old(rec).locations@),
        old(rec).locations@.len() <= c.pos + 2,
        source::item_ctx(old(rec).locations@, 4),
    ensures
        r is Err ==> forall|i: int|
            0 <= i < old(rec).locations@.len() ==> final(rec).locations@[i] == old(
                rec,
            ).locations@[i],
        r is Err ==> final(rec).locations@.len() >= old(rec).locations@.len(),
        r is Err ==> {
            &&& grammar::oneof_stmt(input@, c.pos as int) is None
            &&& (r->Err_0.kind == ErrorKind::UnknownType || r->Err_0.kind
                == ErrorKind::MalformedStatement)
        },
        r matches Ok((c2, of)) ==> {
            let n0 = old(rec).locations@.len() as int;
            let mi = source::count_top(old(rec).locations@, 4, n0) - 1;
            let ci = source::count_item(old(rec).locations@, 4, mi as i32, n0);
            let k = of.fields@.len() as int;
            &&& c2.wf(input@)
            &&& c.pos < c2.pos
            &&& source::ledger_ok(final(rec).locations@)
            &&& final(rec).locations@.len() == n0 + k
            &&& forall|i: int|
                0 <= i < n0 ==> final(rec).locations@[i] == old(rec).locations@[i]
            &&& forall|f: int|
                0 <= f < k ==> (#[trigger] final(rec).locations@[n0 + f]).path@ =~= seq![
                    4i32,
                    mi as i32,
                    2i32,
                    (ci + f) as i32,
                ]
            &&& forall|f: int|
                0 <= f < k ==> source::completed_span_ok(
                    (#[trigger] final(rec).locations@[n0 + f]).span@,
                )
            &&& final(rec).locations@.len() <= c2.pos + 2
            &&& source::item_ctx(final(rec).locations@, 4)
            &&& forall|t: i32|
                source::count_top(final(rec).locations@, t, final(rec).locations@.len() as int)
                    == source::count_top(old(rec).locations@, t, n0)
            &&& source::count_item(
                final(rec).locations@,
                4,
                mi as i32,
                final(rec).locations@.len() as int,
            ) == ci + k
            &&& of.descriptor.name@.len() > 0
            &&& forall|f: int|
                0 <= f < k ==> (#[trigger] of.fields@[f]).oneof_index == Some(oneof_index)
            &&& grammar::oneof_stmt(input@, c.pos as int) matches Some(st)
                && of.descriptor.name@ == st.1 && grammar::field_triples(of.fields@) == st.2
                && c2.pos == st.0
        },
{
    let ghost s = input@;
    let ghost L0 = rec.locations@;
    let ghost n0 = L0.len() as int;
    let ghost mi = source::count_top(L0, 4, n0) - 1;
    let ghost ci = source::count_item(L0, 4, mi as i32, n0);
    // the keyword, after comments and whitespace consumed without recording
    let (ac, _texts) = crate::comment::parse_many(input, c);
    let sw = lex::skip_ws(input, ac);
    let kw = keyword::kw_oneof_v();
    if !lex::match_at(input, sw.pos, &kw) {
        return Err(ParseError::at(ErrorKind::MalformedStatement, sw.line, sw.col));
    }
    let p1 = lex::advance(input, sw, 5);
    let w = lex::skip_ws(input, p1);
    if w.pos == p1.pos {
        return Err(ParseError::at(ErrorKind::MalformedStatement, w.line, w.col));
    }
    let ne = lex::scan_nonws(input, w);
    if ne.pos == w.pos {
        return Err(ParseError::at(ErrorKind::MalformedStatement, w.line, w.col));
    }
    let name = lex::subvec(input, w.pos, ne.pos);
    let wb = lex::skip_ws(input, ne);
    if wb.pos >= input.len() || input[wb.pos] != '{' as u8 {
        return Err(ParseError::at(ErrorKind::MalformedStatement, wb.line, wb.col));
    }
    let mut cur = lex::advance(input, wb, 1);
    let mut fields: Vec<FieldDescriptor> = Vec::new();
    let ghost body0 = cur.pos as int;
    proof {
        source::lemma_count_bounds(L0, 4, mi as i32, 0, n0);
        assert(grammar::field_triples(fields@) =~= Seq::<(Seq<u8>, int, i32)>::empty());
    }
    loop
        invariant
            input@.len() <= INPUT_MAX,
            s == input@,
            cur.wf(input@),
            c.pos < cur.pos,
            source::ledger_ok(rec.locations@),
            rec.locations@.len() <= cur.pos + 2,
            source::item_ctx(rec.locations@, 4),
            L0 == old(rec).locations@,
            n0 == L0.len() as int,
            n0 <= INPUT_MAX + 2,
            mi == source::count_top(L0, 4, n0) - 1,
            ci == source::count_item(L0, 4, mi as i32, n0),
            0 <= mi <= n0,
            0 <= ci <= n0,
            body0 <= cur.pos,
            (match grammar::oneof_fields(s, cur.pos as int) {
                Option::None => grammar::oneof_fields(s, body0) is None,
                Option::Some(r) => grammar::oneof_fields(s, body0) matches Some(t) && t.0 == r.0
                    && t.1 =~= grammar::field_triples(fields@) + r.1,
            }),
            (match grammar::oneof_fields(s, body0) {
                Option::Some(t) => grammar::oneof_stmt(s, c.pos as int) == Some(
                    (t.0, name@, t.1),
                ),
                Option::None => grammar::oneof_stmt(s, c.pos as int) is None,
            }),
            rec.locations@.len() == n0 + fields@.len(),
            forall|i: int| 0 <= i < n0 ==> rec.locations@[i] == L0[i],
            forall|f: int|
                0 <= f < fields@.len() ==> (#[trigger] rec.locations@[n0 + f]).path@ =~= seq![
                    4i32,
                    mi as i32,
                    2i32,
                    (ci + f) as i32,
                ],
            forall|f: int|
                0 <= f < fields@.len() ==> source::completed_span_ok(
                    (#[trigger] rec.locations@[n0 + f]).span@,
                ),
            forall|t: i32|
                source::count_top(rec.locations@, t, rec.locations@.len() as int)
                    == source::count_top(L0, t, n0),
            source::count_item(rec.locations@, 4, mi as i32, rec.locations@.len() as int) == ci
                + fields@.len(),
            forall|f: int|
                0 <= f < fields@.len() ==> (#[trigger] fields@[f]).oneof_index == Some(
                    oneof_index,
                ),
        ensures
            cur.wf(input@),
            c.pos < cur.pos,
            source::ledger_ok(rec.locations@),
            rec.locations@.len() <= cur.pos + 2,
            source::item_ctx(rec.locations@, 4),
            rec.locations@.len() == n0 + fields@.len(),
            forall|i: int| 0 <= i < n0 ==> rec.locations@[i] == L0[i],
            forall|f: int|
                0 <= f < fields@.len() ==> (#[trigger] rec.locations@[n0 + f]).path@ =~= seq![
                    4i32,
                    mi as i32,
                    2i32,
                    (ci + f) as i32,
                ],
            forall|f: int|
                0 <= f < fields@.len() ==> source::completed_span_ok(
                    (#[trigger] rec.locations@[n0 + f]).span@,
                ),
            forall|t: i32|
                source::count_top(rec.locations@, t, rec.locations@.len() as int)
                    == source::count_top(L0, t, n0),
            source::count_item(rec.locations@, 4, mi as i32, rec.locations@.len() as int) == ci
                + fields@.len(),
            forall|f: int|
                0 <= f < fields@.len() ==> (#[trigger] fields@[f]).oneof_index == Some(
                    oneof_index,
                ),
            cur.pos < input@.len() && input@[cur.pos as int] == '}' as u8,
            grammar::oneof_stmt(s, c.pos as int) == Some(
                (cur.pos + 1 as int, name@, grammar::field_triples(fields@)),
            ),
        decreases input@.len() - cur.pos,
    {
        let pw = lex::skip_ws(input, cur);
        if pw.pos < input.len() && input[pw.pos] == '}' as u8 {
            proof {
                assert(grammar::oneof_fields(s, cur.pos as int) == Some(
                    (pw.pos + 1 as int, Seq::<(Seq<u8>, int, i32)>::empty()),
                ));
                assert(grammar::field_triples(fields@) + Seq::<(Seq<u8>, int, i32)>::empty()
                    =~= grammar::field_triples(fields@));
            }
            cur = pw;
            break ;
        }
        let ghost before = rec.locations@;
        match parse_field(input, cur, rec) {
            Result::Err(e) => {
                return Err(e);
            },
            Result::Ok(Option::None) => {
                return Err(
                    ParseError::at(ErrorKind::MalformedStatement, cur.line, cur.col),
                );
            },
            Result::Ok(Option::Some((c2, mut fd))) => {
                let ghost prev = cur.pos as int;
                fd.oneof_index = Some(oneof_index);
                proof {
                    assert(rec.locations@[n0 + fields@.len()] == rec.locations@.last());
                    assert(source::count_top(before, 4, before.len() as int) - 1 == mi);
                    assert(source::count_item(
                        rec.locations@,
                        4,
                        mi as i32,
                        rec.locations@.len() as int,
                    ) == ci + fields@.len() + 1);
                }
                fields.push(fd);
                cur = c2;
                proof {
                    let st = field_stmt(s, source::locate_start_pos(s, prev))->Some_0;
                    assert(grammar::oneof_fields(s, prev) matches Some(r0)
                        ==> grammar::oneof_fields(s, cur.pos as int) matches Some(r1) && r0 == (
                        r1.0,
                        seq![(st.1, st.2, st.3)] + r1.1,
                    ));
                    assert(grammar::field_triples(fields@) =~= grammar::field_triples(
                        fields@.drop_last(),
                    ) + seq![(st.1, st.2, st.3)]);
                    match grammar::oneof_fields(s, cur.pos as int) {
                        Option::Some(r1) => {
                            assert(grammar::field_triples(fields@) + r1.1
                                =~= grammar::field_triples(fields@.drop_last()) + (seq![
                                (st.1, st.2, st.3),
                            ] + r1.1));
                        },
                        Option::None => {},
                    }
                }
            },
        }
    }
    let end = lex::advance(input, cur, 1);
    Ok(
        (
            end,
            OneOf { descriptor: OneofDescriptor { name }, fields },
        ),
    )
}

/// Parse a message: the keyword, whitespace, its name, and braces holding
/// fields and oneof groups.  The message is recorded under the
/// message-type tag with the next dense index, its name under the name
/// tag, and its fields — oneof members included — under the field tag in
/// source order.  `Ok(None)` is returned, with the ledger unchanged,
/// exactly when the keyword does not start after the leading comments and
/// whitespace.
#[verifier::rlimit(100)]
pub fn parse(input: &Vec<u8>, c: Cursor, rec: &mut LocationRecorder) -> (r: Result<
    Option<(Cursor, MessageDescriptor)>,
    ParseError,
>)
    requires
        input@.len() <= INPUT_MAX,
        c.wf(input@),
        source::ledger_ok(old(rec).locations@),
        old(rec).locations@.len() <= c.pos + 2,
    ensures
        r matches Ok(o) ==> (o is None ==> {
            &&& final(rec).locations@ == old(rec).locations@
            &&& !lex::matches_at(
                input@,
                source::locate_start_pos(input@, c.pos as int),
                keyword::kw_message(),
            )
        }),
        r is Err ==> {
            &&& final(rec).locations@ == old(rec).locations@
            &&& lex::matches_at(
                input@,
                source::locate_start_pos(input@, c.pos as int),
                keyword::kw_message(),
            )
            &&& grammar::message_stmt(input@, c.pos as int) is None
            &&& (r->Err_0.kind == ErrorKind::UnknownType || r->Err_0.kind
                == ErrorKind::MalformedStatement)
        },
        r matches Ok(o) ==> (o matches Some((c2, md)) ==> {
            let n0 = old(rec).locations@.len() as int;
            let mi = source::count_top(old(rec).locations@, 4, n0);
            let fc = md.field@.len() as int;
            &&& c2.wf(input@)
            &&& c.pos < c2.pos
            &&& source::ledger_ok(final(rec).locations@)
            &&& final(rec).locations@.len() == n0 + 2 + fc
            &&& forall|i: int|
                0 <= i < n0 ==> final(rec).locations@[i] == old(rec).locations@[i]
            &&& final(rec).locations@[n0].path@ =~= seq![4i32, mi as i32]
            &&& final(rec).locations@[n0 + 1].path@ =~= seq![4i32, mi as i32, 1i32]
            &&& forall|f: int|
                0 <= f < fc ==> (#[trigger] final(rec).locations@[n0 + 2 + f]).path@ =~= seq![
                    4i32,
                    mi as i32,
                    2i32,
                    f as i32,
                ]
            &&& forall|i: int|
                n0 <= i < final(rec).locations@.len() ==> source::completed_span_ok(
                    (#[trigger] final(rec).locations@[i]).span@,
                )
            &&& final(rec).locations@.len() <= c2.pos + 2
            &&& forall|t: i32|
                source::count_top(final(rec).locations@, t, final(rec).locations@.len() as int)
                    == source::count_top(old(rec).locations@, t, n0) + (if t == 4 {
                    1int
                } else {
                    0int
                })
            &&& md.name@.len() > 0
            &&& forall|f: int|
                0 <= f < fc ==> ((#[trigger] md.field@[f]).oneof_index matches Some(oi) ==> 0
                    <= oi < md.oneof_decl@.len())
            &&& grammar::message_stmt(input@, c.pos as int) matches Some(st) && grammar::msg_view(
                md,
            ) == st.1 && c2.pos == lex::ws_end(input@, st.0)
        }),
{
    let ghost s = input@;
    let ghost L0 = rec.locations@;
    let ghost n0 = L0.len() as int;
    let ghost mi = source::count_top(L0, 4, n0);
    proof {
        source::lemma_next_index_count(L0, 4);
        source::lemma_count_bounds(L0, 4, 0, 0, n0);
    }
    let (start, h) = source::locate_begin(input, c, rec, Tag::MessageType);
    let ghost L1 = rec.locations@;
    proof {
        lemma_cursor_bounds(start, s);
    }
    let kw = keyword::kw_message_v();
    if !lex::match_at(input, start.pos, &kw) {
        source::locate_abort(rec, h);
        proof {
            assert(rec.locations@ =~= L0);
        }
        return Ok(None);
    }
    let p1 = lex::advance(input, start, 7);
    let w = lex::skip_ws(input, p1);
    if w.pos == p1.pos {
        source::locate_abort(rec, h);
        proof {
            assert(rec.locations@ =~= L0);
        }
        return Err(ParseError::at(ErrorKind::MalformedStatement, start.line, start.col));
    }
    proof {
        assert(L1 =~= L0.push(L1.last()));
        source::lemma_ledger_push(L0, L1.last());
        assert forall|t: i32|
            source::count_top(L1, t, L1.len() as int) == source::count_top(L0, t, n0) + (if t
                == 4 {
                1int
            } else {
                0int
            }) by {
            source::lemma_count_push(L0, L1.last(), t, 0);
        }
        assert forall|t: i32, m: i32|
            source::count_item(L1, t, m, L1.len() as int) == source::count_item(L0, t, m, n0) by {
            source::lemma_count_push(L0, L1.last(), t, m);
        }
    }
    let name_res = identifier::parse_as(input, w, rec, Tag::Name);
    let (after_name, ident) = match name_res {
        Option::None => {
            source::locate_abort(rec, h);
            proof {
                assert(rec.locations@ =~= L0);
            }
            return Err(ParseError::at(ErrorKind::MalformedStatement, w.line, w.col));
        },
        Option::Some(x) => x,
    };
    let ghost L2 = rec.locations@;
    proof {
        assert(L2 =~= L1.push(L2.last()));
        assert forall|t: i32|
            source::count_top(L2, t, L2.len() as int) == source::count_top(L0, t, n0) + (if t
                == 4 {
                1int
            } else {
                0int
            }) by {
            source::lemma_count_push(L1, L2.last(), t, 0);
        }
        assert forall|t: i32, m: i32|
            source::count_item(L2, t, m, L2.len() as int) == source::count_item(L0, t, m, n0) by {
            source::lemma_count_push(L1, L2.last(), t, m);
        }
        source::lemma_count_bounds(L0, 4, mi as i32, 0, n0);
        source::lemma_count_item_fresh(L0, 4, mi as i32, n0);
        assert(source::item_ctx(L2, 4));
    }
    if after_name.pos >= input.len() || input[after_name.pos] != '{' as u8 {
        source::locate_abort(rec, h);
        proof {
            assert(rec.locations@ =~= L0);
        }
        return Err(
            ParseError::at(ErrorKind::MalformedStatement, after_name.line, after_name.col),
        );
    }
    let mut cur = lex::advance(input, after_name, 1);
    let mut fields: Vec<FieldDescriptor> = Vec::new();
    let mut oneofs: Vec<OneofDescriptor> = Vec::new();
    let ghost body0 = cur.pos as int;
    proof {
        lemma_cursor_bounds(start, s);
        assert(L1[n0].span@[0] >= 0 && L1[n0].span@[1] >= 0);
        assert(grammar::field_views(fields@) =~= Seq::<(Seq<u8>, int, i32, Option<int>)>::empty());
        assert(grammar::oneof_names(oneofs@) =~= Seq::<Seq<u8>>::empty());
        grammar::lemma_body_init(s, body0);
    }
    loop
        invariant_except_break
            grammar::body_progress(
                s,
                body0,
                cur.pos as int,
                oneofs@.len() as int,
                grammar::field_views(fields@),
                grammar::oneof_names(oneofs@),
            ),
        invariant
            input@.len() <= INPUT_MAX,
            s == input@,
            cur.wf(input@),
            c.pos < cur.pos,
            start.wf(input@),
            start.pos <= cur.pos,
            h.index == n0,
            source::ledger_ok(rec.locations@),
            rec.locations@.len() <= cur.pos + 2,
            source::item_ctx(rec.locations@, 4),
            L0 == old(rec).locations@,
            n0 == L0.len() as int,
            n0 <= INPUT_MAX + 2,
            mi == source::count_top(L0, 4, n0),
            0 <= n0,
            0 <= mi <= n0,
            rec.locations@.len() == n0 + 2 + fields@.len(),
            forall|i: int| 0 <= i < n0 ==> rec.locations@[i] == L0[i],
            rec.locations@[n0] == L1[n0],
            L1[n0].path@ =~= seq![4i32, mi as i32],
            L1[n0].span@.len() == 2 && L1[n0].span@[0] >= 0 && L1[n0].span@[1] >= 0,
            rec.locations@[n0 + 1].path@ =~= seq![4i32, mi as i32, 1i32],
            source::completed_span_ok(rec.locations@[n0 + 1].span@),
            forall|f: int|
                0 <= f < fields@.len() ==> (#[trigger] rec.locations@[n0 + 2 + f]).path@ =~= seq![
                    4i32,
                    mi as i32,
                    2i32,
                    f as i32,
                ],
            forall|f: int|
                0 <= f < fields@.len() ==> source::completed_span_ok(
                    (#[trigger] rec.locations@[n0 + 2 + f]).span@,
                ),
            forall|t: i32|
                source::count_top(rec.locations@, t, rec.locations@.len() as int)
                    == source::count_top(L0, t, n0) + (if t == 4 {
                    1int
                } else {
                    0int
                }),
            source::count_item(rec.locations@, 4, mi as i32, rec.locations@.len() as int)
                == fields@.len(),
            oneofs@.len() <= cur.pos,
            ident.0@.len() > 0,
            forall|f: int|
                0 <= f < fields@.len() ==> ((#[trigger] fields@[f]).oneof_index matches Some(oi)
                    ==> 0 <= oi < oneofs@.len()),
            body0 <= cur.pos,
            lex::matches_at(
                s,
                source::locate_start_pos(s, c.pos as int),
                keyword::kw_message(),
            ),
            (match grammar::message_body(s, body0, 0) {
                Option::Some(t) => grammar::message_stmt(s, c.pos as int) == Some(
                    (
                        t.0,
                        grammar::MsgView { name: ident.0@, fields: t.1, oneofs: t.2 },
                    ),
                ),
                Option::None => grammar::message_stmt(s, c.pos as int) is None,
            }),
        ensures
            cur.wf(input@),
            c.pos < cur.pos,
            source::ledger_ok(rec.locations@),
            rec.locations@.len() <= cur.pos + 2,
            rec.locations@.len() == n0 + 2 + fields@.len(),
            forall|i: int| 0 <= i < n0 ==> rec.locations@[i] == L0[i],
            rec.locations@[n0] == L1[n0],
            rec.locations@[n0 + 1].path@ =~= seq![4i32, mi as i32, 1i32],
            source::completed_span_ok(rec.locations@[n0 + 1].span@),
            forall|f: int|
                0 <= f < fields@.len() ==> (#[trigger] rec.locations@[n0 + 2 + f]).path@ =~= seq![
                    4i32,
                    mi as i32,
                    2i32,
                    f as i32,
                ],
            forall|f: int|
                0 <= f < fields@.len() ==> source::completed_span_ok(
                    (#[trigger] rec.locations@[n0 + 2 + f]).span@,
                ),
            forall|t: i32|
                source::count_top(rec.locations@, t, rec.locations@.len() as int)
                    == source::count_top(L0, t, n0) + (if t == 4 {
                    1int
                } else {
                    0int
                }),
            forall|f: int|
                0 <= f < fields@.len() ==> ((#[trigger] fields@[f]).oneof_index matches Some(oi)
                    ==> 0 <= oi < oneofs@.len()),
            cur.pos < input@.len() && input@[cur.pos as int] == '}' as u8,
            ident.0@.len() > 0,
            grammar::message_stmt(s, c.pos as int) == Some(
                (
                    cur.pos + 1 as int,
                    grammar::MsgView {
                        name: ident.0@,
                        fields: grammar::field_views(fields@),
                        oneofs: grammar::oneof_names(oneofs@),
                    },
                ),
            ),
        decreases input@.len() - cur.pos,
    {
        let pw = lex::skip_ws(input, cur);
        if pw.pos < input.len() && input[pw.pos] == '}' as u8 {
            proof {
                grammar::lemma_body_close(
                    s,
                    body0,
                    cur.pos as int,
                    oneofs@.len() as int,
                    grammar::field_views(fields@),
                    grammar::oneof_names(oneofs@),
                );
            }
            cur = pw;
            break ;
        }
        let ghost before = rec.locations@;
        let ghost fc0 = fields@.len() as int;
        let ghost prev = cur.pos as int;
        let ghost k_snap = oneofs@.len() as int;
        let ghost fields_snap = fields@;
        // peek the next word to tell a oneof group from a field
        let (ac, _texts) = crate::comment::parse_many(input, cur);
        let sw = lex::skip_ws(input, ac);
        let kw_one = keyword::kw_oneof_v();
        let we = lex::scan_alnum(input, sw);
        let is_oneof = we.pos > sw.pos && we.pos - sw.pos == 5 && lex::match_at(
            input,
            sw.pos,
            &kw_one,
        );
        if is_oneof {
            proof {
                assert(oneofs@.len() <= INPUT_MAX);
            }
            let oneof_index = oneofs.len() as i32;
            match parse_oneof(input, cur, rec, oneof_index) {
                Result::Err(e) => {
                    source::locate_abort(rec, h);
                    proof {
                        assert(rec.locations@ =~= L0);
                        grammar::lemma_body_none(
                            s,
                            body0,
                            prev,
                            k_snap,
                            grammar::field_views(fields_snap),
                            grammar::oneof_names(oneofs@),
                        );
                        assert(grammar::message_stmt(s, c.pos as int) is None);
                    }
                    return Err(e);
                },
                Result::Ok((c2, of)) => {
                    let ghost ofc = of.fields@.len() as int;
                    let ghost of_fields = of.fields@;
                    let ghost of_name = of.descriptor.name@;
                    let ghost oneofs_snap = oneofs@;
                    proof {
                        assert forall|f: int| 0 <= f < fc0 + ofc implies (#[trigger] rec.locations@[n0
                            + 2 + f]).path@ =~= seq![4i32, mi as i32, 2i32, f as i32]
                            && source::completed_span_ok(rec.locations@[n0 + 2 + f].span@) by {
                            if f < fc0 {
                                assert(rec.locations@[n0 + 2 + f] == before[n0 + 2 + f]);
                            } else {
                                assert(rec.locations@[n0 + 2 + f] == rec.locations@[before.len()
                                    + (f - fc0)]);
                            }
                        }
                        assert(rec.locations@[n0] == before[n0]);
                        assert(rec.locations@[n0 + 1] == before[n0 + 1]);
                    }
                    oneofs.push(of.descriptor);
                    let mut ofields = of.fields;
                    let ghost target = fields@ + ofields@;
                    while ofields.len() > 0
                        invariant
                            fields@.len() + ofields@.len() == target.len(),
                            fields@ == target.take(fields@.len() as int),
                            forall|j: int|
                                0 <= j < ofields@.len() ==> #[trigger] ofields@[j]
                                    == target[fields@.len() + j],
                        decreases ofields@.len(),
                    {
                        let fd = ofields.remove(0);
                        fields.push(fd);
                        proof {
                            assert(fields@ =~= target.take(fields@.len() as int));
                        }
                    }
                    proof {
                        assert(fields@ =~= target);
                    }
                    proof {
                        assert forall|t: i32|
                            source::count_top(rec.locations@, t, rec.locations@.len() as int)
                                == source::count_top(L0, t, n0) + (if t == 4 {
                                1int
                            } else {
                                0int
                            }) by {
                            assert(source::count_top(rec.locations@, t, rec.locations@.len() as int)
                                == source::count_top(before, t, before.len() as int));
                        }
                    }
                    cur = c2;
                    proof {
                        let stt = grammar::oneof_stmt(s, prev)->Some_0;
                        grammar::lemma_stamped_views(of_fields, stt.2, k_snap, oneof_index);
                        grammar::lemma_field_views_concat(fields_snap, of_fields);
                        assert(fields@ == fields_snap + of_fields);
                        assert(oneofs@ =~= oneofs_snap.push(oneofs@.last()));
                        grammar::lemma_oneof_names_push(oneofs_snap, oneofs@.last());
                        assert(oneofs@.last().name@ == of_name);
                        grammar::lemma_body_oneof(
                            s,
                            body0,
                            prev,
                            k_snap,
                            grammar::field_views(fields_snap),
                            grammar::oneof_names(oneofs_snap),
                            stt,
                        );
                        assert(grammar::oneof_names(oneofs@) == grammar::oneof_names(oneofs_snap)
                            + seq![stt.1]);
                    }
                },
            }
        } else {
            match parse_field(input, cur, rec) {
                Result::Err(e) => {
                    source::locate_abort(rec, h);
                    proof {
                        assert(rec.locations@ =~= L0);
                        grammar::lemma_body_none(
                            s,
                            body0,
                            prev,
                            k_snap,
                            grammar::field_views(fields_snap),
                            grammar::oneof_names(oneofs@),
                        );
                        assert(grammar::message_stmt(s, c.pos as int) is None);
                    }
                    return Err(e);
                },
                Result::Ok(Option::None) => {
                    source::locate_abort(rec, h);
                    proof {
                        assert(rec.locations@ =~= L0);
                        grammar::lemma_body_none(
                            s,
                            body0,
                            prev,
                            k_snap,
                            grammar::field_views(fields_snap),
                            grammar::oneof_names(oneofs@),
                        );
                        assert(grammar::message_stmt(s, c.pos as int) is None);
                    }
                    return Err(
                        ParseError::at(ErrorKind::MalformedStatement, cur.line, cur.col),
                    );
                },
                Result::Ok(Option::Some((c2, fd))) => {
                    proof {
                        assert(rec.locations@[n0 + 2 + fields@.len()] == rec.locations@.last());
                        assert forall|t: i32|
                            source::count_top(rec.locations@, t, rec.locations@.len() as int)
                                == source::count_top(L0, t, n0) + (if t == 4 {
                                1int
                            } else {
                                0int
                            }) by {
                            assert(source::count_top(rec.locations@, t, rec.locations@.len() as int)
                                == source::count_top(before, t, before.len() as int));
                        }
                    }
                    fields.push(fd);
                    cur = c2;
                    proof {
                        let stf = field_stmt(s, source::locate_start_pos(s, prev))->Some_0;
                        grammar::lemma_field_views_push(fields_snap, fields@.last());
                        assert(fields@ =~= fields_snap.push(fields@.last()));
                        assert(grammar::field_view(fields@.last()) == (
                            stf.1,
                            stf.2,
                            stf.3,
                            Option::<int>::None,
                        ));
                        grammar::lemma_body_field(
                            s,
                            body0,
                            prev,
                            k_snap,
                            grammar::field_views(fields_snap),
                            grammar::oneof_names(oneofs@),
                            stf,
                        );
                    }
                },
            }
        }
    }
    let end = lex::advance(input, cur, 1);
    proof {
        lemma_cursor_bounds(start, s);
        lemma_line_count_mono(s, start.pos as int, end.pos as int);
    }
    let ghost lpre = rec.locations@;
    let c2 = source::locate_commit(input, end, rec, h);
    proof {
        assert(rec.locations@ =~= lpre.update(n0, rec.locations@[n0]));
        source::lemma_ledger_update(lpre, n0, rec.locations@[n0]);
        assert forall|i: int|
            n0 <= i < rec.locations@.len() implies source::completed_span_ok(
            (#[trigger] rec.locations@[i]).span@,
        ) by {
            if i == n0 {
            } else if i == n0 + 1 {
                assert(rec.locations@[i] == lpre[n0 + 1]);
            } else {
                assert(rec.locations@[i] == lpre[n0 + 2 + (i - n0 - 2)]);
            }
        }
        assert forall|f: int|
            0 <= f < fields@.len() implies (#[trigger] rec.locations@[n0 + 2 + f]).path@ =~= seq![
            4i32,
            mi as i32,
            2i32,
            f as i32,
        ] by {
            assert(rec.locations@[n0 + 2 + f] == lpre[n0 + 2 + f]);
        }
        assert forall|t: i32|
            source::count_top(rec.locations@, t, rec.locations@.len() as int) == source::count_top(
                L0,
                t,
                n0,
            ) + (if t == 4 {
                1int
            } else {
                0int
            }) by {
            source::lemma_count_update(lpre, n0, rec.locations@[n0], t, 0);
        }
    }
    Ok(
        Some(
            (
                c2,
                MessageDescriptor { name: ident.0, field: fields, oneof_decl: oneofs },
            ),
        ),
    )
}

} // verus!
