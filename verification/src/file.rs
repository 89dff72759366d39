//! The file driver: the mandatory syntax statement, then a loop of
//! top-level statements — imports, the package, messages, services and
//! enums — until no parser matches, at which point the whole input must be
//! consumed.  The file itself is recorded as the root location with the
//! empty path.

use vstd::prelude::*;
use crate::cursor::{Cursor, INPUT_MAX, lemma_line_count_mono, lemma_cursor_bounds};
use crate::descriptor::{EnumDescriptor, FileDescriptor, MessageDescriptor, ServiceDescriptor};
use crate::error::{ErrorKind, ParseError};
use crate::grammar;
use crate::enums;
use crate::import;
use crate::keyword;
use crate::message;
use crate::package;
use crate::service;
use crate::source::{self, LocationRecorder, Tag};
use crate::syntax;

verus! {

/// Parse one whole file into a descriptor, recording a location for every
/// node.  The file's name and its `source_code_info` are left empty for
/// the caller to fill in.  On success the ledger is a well-formed
/// pre-order trace with dense sibling indices, every recording completed,
/// the root first, and the descriptor's lists agree with the recorded
/// location counts.
#[verifier::rlimit(100)]
pub fn parse(input: &Vec<u8>, rec: &mut LocationRecorder) -> (r: Result<
    (Cursor, FileDescriptor),
    ParseError,
>)
    requires
        input@.len() <= INPUT_MAX,
        old(rec).locations@.len() == 0,
    ensures
        r matches Err(e) ==> {
            &&& final(rec).locations@.len() == 0
            &&& !grammar::file_ok(input@)
            &&& ((e.kind == ErrorKind::SyntaxMissing) <==> (syntax::syntax_stmt(
                input@,
                source::locate_start_pos(input@, source::locate_start_pos(input@, 0)),
            ) is None))
            &&& (grammar::file_result(input@) matches Some(fr) ==> {
                &&& (fr.1.items.pkgs.len() >= 2 ==> e.kind == ErrorKind::DuplicatePackage)
                &&& (fr.1.items.pkgs.len() <= 1 ==> e.kind == ErrorKind::UnconsumedInput && fr.0
                    < input@.len())
            })
        },
        r matches Ok((c2, fd)) ==> {
            let L = final(rec).locations@;
            &&& source::ledger_ok(L)
            &&& source::all_completed(L)
            &&& source::source_info_wf(L)
            &&& L.len() >= 2
            &&& L[0].path@.len() == 0
            &&& L[1].path@ =~= seq![12i32]
            &&& c2.wf(input@)
            &&& c2.pos == input@.len()
            &&& fd.name@.len() == 0
            &&& fd.source_code_info@.len() == 0
            &&& (fd.syntax@ == keyword::kw_proto2() || fd.syntax@ == keyword::kw_proto3())
            &&& ({
                let sp = source::locate_start_pos(
                    input@,
                    source::locate_start_pos(input@, 0),
                );
                syntax::syntax_stmt(input@, sp) matches Some(st) && fd.syntax@
                    == syntax::syntax_bytes(st.1)
            })
            &&& grammar::file_result(input@) matches Some(fr) && fr.0 == input@.len()
                && fr.1.items.pkgs.len() <= 1 && grammar::file_contents_match(fd, fr.1)
            &&& fd.dependency@.len() == source::count_top(L, 3, L.len() as int)
            &&& fd.message_type@.len() == source::count_top(L, 4, L.len() as int)
            &&& fd.enum_type@.len() == source::count_top(L, 5, L.len() as int)
            &&& fd.service@.len() == source::count_top(L, 6, L.len() as int)
        },
{
    let ghost s = input@;
    let c0 = Cursor::start();
    proof {
        source::lemma_ledger_ok_empty();
    }
    let (start_root, hroot) = source::locate_begin(input, c0, rec, Tag::Root);
    let ghost L1 = rec.locations@;
    proof {
        lemma_cursor_bounds(start_root, s);
        assert(L1 =~= Seq::<crate::descriptor::Location>::empty().push(L1.last()));
        source::lemma_ledger_push(Seq::empty(), L1.last());
        assert forall|t: i32|
            source::count_top(L1, t, L1.len() as int) == 0 by {
            source::lemma_count_push(Seq::empty(), L1.last(), t, 0);
        }
    }
    let syn_res = syntax::parse(input, start_root, rec);
    let (c1, syn) = match syn_res {
        Option::None => {
            source::locate_abort(rec, hroot);
            return Err(
                ParseError::at(ErrorKind::SyntaxMissing, start_root.line, start_root.col),
            );
        },
        Option::Some(x) => x,
    };
    let ghost L2 = rec.locations@;
    proof {
        assert forall|t: i32|
            source::count_top(L2, t, L2.len() as int) == 0 by {
            assert(source::count_top(L2, t, L2.len() as int) == source::count_top(
                L1,
                t,
                L1.len() as int,
            ));
        }
    }
    let mut cur = c1;
    let mut pkg: Option<Vec<u8>> = None;
    let mut deps: Vec<Vec<u8>> = Vec::new();
    let mut msgs: Vec<MessageDescriptor> = Vec::new();
    let mut enum_list: Vec<EnumDescriptor> = Vec::new();
    let mut svcs: Vec<ServiceDescriptor> = Vec::new();
    let ghost items0 = c1.pos as int;
    proof {
        grammar::lemma_items_init(s, items0);
        assert(grammar::acc_of(deps@, pkg, msgs@, enum_list@, svcs@) =~~= grammar::no_items());
    }
    loop
        invariant
            input@.len() <= INPUT_MAX,
            s == input@,
            cur.wf(input@),
            start_root.wf(input@),
            start_root.pos <= cur.pos,
            hroot.index == 0,
            source::ledger_ok(rec.locations@),
            rec.locations@.len() <= cur.pos + 2,
            rec.locations@.len() >= 2,
            rec.locations@[0] == L1[0],
            L1.len() == 1,
            L1[0].path@.len() == 0,
            L1[0].span@.len() == 2 && L1[0].span@[0] >= 0 && L1[0].span@[1] >= 0,
            rec.locations@[1].path@ =~= seq![12i32],
            forall|i: int|
                1 <= i < rec.locations@.len() ==> source::completed_span_ok(
                    (#[trigger] rec.locations@[i]).span@,
                ),
            source::count_top(rec.locations@, 3, rec.locations@.len() as int) == deps@.len(),
            source::count_top(rec.locations@, 4, rec.locations@.len() as int) == msgs@.len(),
            source::count_top(rec.locations@, 5, rec.locations@.len() as int)
                == enum_list@.len(),
            source::count_top(rec.locations@, 6, rec.locations@.len() as int) == svcs@.len(),
            items0 <= cur.pos,
            grammar::items_progress(
                s,
                items0,
                cur.pos as int,
                grammar::acc_of(deps@, pkg, msgs@, enum_list@, svcs@),
            ),
            (match grammar::file_items(s, items0) {
                Option::Some(t) => grammar::file_result(s) == Some(
                    (t.0, grammar::FileView { syntax_kind: syn, items: t.1 }),
                ),
                Option::None => grammar::file_result(s) is None,
            }),
            (syntax::syntax_stmt(
                s,
                source::locate_start_pos(s, source::locate_start_pos(s, 0)),
            ) is Some),
        ensures
            cur.wf(input@),
            start_root.pos <= cur.pos,
            source::ledger_ok(rec.locations@),
            rec.locations@.len() <= cur.pos + 2,
            rec.locations@.len() >= 2,
            rec.locations@[0] == L1[0],
            rec.locations@[1].path@ =~= seq![12i32],
            forall|i: int|
                1 <= i < rec.locations@.len() ==> source::completed_span_ok(
                    (#[trigger] rec.locations@[i]).span@,
                ),
            source::count_top(rec.locations@, 3, rec.locations@.len() as int) == deps@.len(),
            source::count_top(rec.locations@, 4, rec.locations@.len() as int) == msgs@.len(),
            source::count_top(rec.locations@, 5, rec.locations@.len() as int)
                == enum_list@.len(),
            source::count_top(rec.locations@, 6, rec.locations@.len() as int) == svcs@.len(),
            (grammar::file_items(s, items0) matches Some(t) && t.0 == cur.pos && t.1
                =~~= grammar::acc_of(deps@, pkg, msgs@, enum_list@, svcs@)),
            (match grammar::file_items(s, items0) {
                Option::Some(t) => grammar::file_result(s) == Some(
                    (t.0, grammar::FileView { syntax_kind: syn, items: t.1 }),
                ),
                Option::None => grammar::file_result(s) is None,
            }),
            (syntax::syntax_stmt(
                s,
                source::locate_start_pos(s, source::locate_start_pos(s, 0)),
            ) is Some),
        decreases input@.len() - cur.pos,
    {
        let ghost before = rec.locations@;
        let ghost prev = cur.pos as int;
        let ghost acc_snap = grammar::acc_of(deps@, pkg, msgs@, enum_list@, svcs@);
        let ghost deps_snap = deps@;
        let ghost msgs_snap = msgs@;
        let ghost enums_snap = enum_list@;
        let ghost svcs_snap = svcs@;
        let imp_res = import::parse(input, cur, rec);
        match imp_res {
            Option::Some((c2, imp)) => {
                proof {
                    assert forall|i: int|
                        1 <= i < rec.locations@.len() implies source::completed_span_ok(
                        (#[trigger] rec.locations@[i]).span@,
                    ) by {
                        if i < before.len() {
                            assert(rec.locations@[i] == before[i]);
                        } else {
                            assert(rec.locations@[i] == rec.locations@.last());
                        }
                    }
                    assert(rec.locations@[0] == before[0]);
                    assert(rec.locations@[1] == before[1]);
                }
                deps.push(imp.0);
                cur = c2;
                proof {
                    let sti = crate::import::import_stmt(
                        s,
                        source::locate_start_pos(s, prev),
                    )->Some_0;
                    grammar::lemma_byte_views_push(deps_snap, deps@.last());
                    assert(deps@ =~= deps_snap.push(deps@.last()));
                    grammar::lemma_items_import(s, items0, prev, acc_snap, sti);
                    assert(grammar::acc_of(deps@, pkg, msgs@, enum_list@, svcs@)
                        =~~= grammar::ItemsView { deps: acc_snap.deps + seq![sti.1], ..acc_snap });
                }
                continue ;
            },
            Option::None => {},
        }
        let pkg_res = package::parse(input, cur, rec);
        match pkg_res {
            Option::Some((c2, p)) => {
                if pkg.is_some() {
                    source::locate_abort(rec, hroot);
                    proof {
                        assert(rec.locations@ =~= Seq::<crate::descriptor::Location>::empty());
                        grammar::lemma_items_second_package(s, items0, prev, acc_snap);
                    }
                    return Err(
                        ParseError::at(ErrorKind::DuplicatePackage, cur.line, cur.col),
                    );
                }
                proof {
                    assert forall|i: int|
                        1 <= i < rec.locations@.len() implies source::completed_span_ok(
                        (#[trigger] rec.locations@[i]).span@,
                    ) by {
                        if i < before.len() {
                            assert(rec.locations@[i] == before[i]);
                        } else {
                            assert(rec.locations@[i] == rec.locations@.last());
                        }
                    }
                    assert(rec.locations@[0] == before[0]);
                    assert(rec.locations@[1] == before[1]);
                }
                pkg = Some(p.0);
                cur = c2;
                proof {
                    let stp = crate::package::package_stmt(
                        s,
                        source::locate_start_pos(s, prev),
                    )->Some_0;
                    grammar::lemma_items_package(s, items0, prev, acc_snap, stp);
                    assert(grammar::pkg_seq(pkg) =~= acc_snap.pkgs + seq![stp.1]);
                    assert(grammar::acc_of(deps@, pkg, msgs@, enum_list@, svcs@)
                        =~~= grammar::ItemsView { pkgs: acc_snap.pkgs + seq![stp.1], ..acc_snap });
                }
                continue ;
            },
            Option::None => {},
        }
        let msg_res = message::parse(input, cur, rec);
        match msg_res {
            Result::Err(e) => {
                source::locate_abort(rec, hroot);
                proof {
                    assert(rec.locations@ =~= Seq::<crate::descriptor::Location>::empty());
                    grammar::lemma_items_hard_none(s, items0, prev, acc_snap);
                }
                return Err(e);
            },
            Result::Ok(Option::Some((c2, md))) => {
                proof {
                    assert forall|i: int|
                        1 <= i < rec.locations@.len() implies source::completed_span_ok(
                        (#[trigger] rec.locations@[i]).span@,
                    ) by {
                        if i < before.len() {
                            assert(rec.locations@[i] == before[i]);
                        }
                    }
                    assert(rec.locations@[0] == before[0]);
                    assert(rec.locations@[1] == before[1]);
                }
                msgs.push(md);
                cur = c2;
                proof {
                    let stm = grammar::message_stmt(s, prev)->Some_0;
                    grammar::lemma_msg_views_push(msgs_snap, msgs@.last());
                    assert(msgs@ =~= msgs_snap.push(msgs@.last()));
                    grammar::lemma_items_message(s, items0, prev, acc_snap, stm);
                    assert(grammar::acc_of(deps@, pkg, msgs@, enum_list@, svcs@)
                        =~~= grammar::ItemsView { msgs: acc_snap.msgs + seq![stm.1], ..acc_snap });
                }
                continue ;
            },
            Result::Ok(Option::None) => {},
        }
        let svc_res = service::parse(input, cur, rec);
        match svc_res {
            Result::Err(e) => {
                source::locate_abort(rec, hroot);
                proof {
                    assert(rec.locations@ =~= Seq::<crate::descriptor::Location>::empty());
                    grammar::lemma_items_hard_none(s, items0, prev, acc_snap);
                }
                return Err(e);
            },
            Result::Ok(Option::Some((c2, sd))) => {
                proof {
                    assert forall|i: int|
                        1 <= i < rec.locations@.len() implies source::completed_span_ok(
                        (#[trigger] rec.locations@[i]).span@,
                    ) by {
                        if i < before.len() {
                            assert(rec.locations@[i] == before[i]);
                        }
                    }
                    assert(rec.locations@[0] == before[0]);
                    assert(rec.locations@[1] == before[1]);
                }
                svcs.push(sd);
                cur = c2;
                proof {
                    let sts = grammar::service_stmt(s, prev)->Some_0;
                    grammar::lemma_svc_views_push(svcs_snap, svcs@.last());
                    assert(svcs@ =~= svcs_snap.push(svcs@.last()));
                    grammar::lemma_items_service(s, items0, prev, acc_snap, sts);
                    assert(grammar::acc_of(deps@, pkg, msgs@, enum_list@, svcs@)
                        =~~= grammar::ItemsView { svcs: acc_snap.svcs + seq![sts.1], ..acc_snap });
                }
                continue ;
            },
            Result::Ok(Option::None) => {},
        }
        let enum_res = enums::parse(input, cur, rec);
        match enum_res {
            Result::Err(e) => {
                source::locate_abort(rec, hroot);
                proof {
                    assert(rec.locations@ =~= Seq::<crate::descriptor::Location>::empty());
                    grammar::lemma_items_hard_none(s, items0, prev, acc_snap);
                }
                return Err(e);
            },
            Result::Ok(Option::Some((c2, ed))) => {
                proof {
                    assert forall|i: int|
                        1 <= i < rec.locations@.len() implies source::completed_span_ok(
                        (#[trigger] rec.locations@[i]).span@,
                    ) by {
                        if i < before.len() {
                            assert(rec.locations@[i] == before[i]);
                        } else {
                            assert(rec.locations@[i] == rec.locations@.last());
                        }
                    }
                    assert(rec.locations@[0] == before[0]);
                    assert(rec.locations@[1] == before[1]);
                }
                enum_list.push(ed);
                cur = c2;
                proof {
                    let ste = grammar::enum_stmt(s, prev)->Some_0;
                    grammar::lemma_enum_views_push(enums_snap, enum_list@.last());
                    assert(enum_list@ =~= enums_snap.push(enum_list@.last()));
                    grammar::lemma_items_enum(s, items0, prev, acc_snap, ste);
                    assert(grammar::acc_of(deps@, pkg, msgs@, enum_list@, svcs@)
                        =~~= grammar::ItemsView { enums: acc_snap.enums + seq![ste.1], ..acc_snap });
                }
                continue ;
            },
            Result::Ok(Option::None) => {},
        }
        proof {
            grammar::lemma_items_terminal(s, items0, prev, acc_snap);
        }
        break ;
    }
    if cur.pos < input.len() {
        source::locate_abort(rec, hroot);
        proof {
            assert(rec.locations@ =~= Seq::<crate::descriptor::Location>::empty());
        }
        return Err(ParseError::at(ErrorKind::UnconsumedInput, cur.line, cur.col));
    }
    proof {
        lemma_line_count_mono(s, start_root.pos as int, cur.pos as int);
    }
    let ghost lpre = rec.locations@;
    let c2 = source::locate_commit(input, cur, rec, hroot);
    proof {
        assert(rec.locations@ =~= lpre.update(0, rec.locations@[0]));
        source::lemma_ledger_update(lpre, 0, rec.locations@[0]);
        assert forall|t: i32|
            source::count_top(rec.locations@, t, rec.locations@.len() as int) == source::count_top(
                lpre,
                t,
                lpre.len() as int,
            ) by {
            source::lemma_count_update(lpre, 0, rec.locations@[0], t, 0);
        }
        assert forall|i: int|
            0 <= i < rec.locations@.len() implies source::completed_span_ok(
            (#[trigger] rec.locations@[i]).span@,
        ) by {
            if i > 0 {
                assert(rec.locations@[i] == lpre[i]);
            }
        }
        assert(rec.locations@[1] == lpre[1]);
    }
    let syntax_text = syn.to_bytes();
    Ok(
        (
            c2,
            FileDescriptor {
                name: Vec::new(),
                syntax: syntax_text,
                package: pkg,
                dependency: deps,
                message_type: msgs,
                enum_type: enum_list,
                service: svcs,
                source_code_info: Vec::new(),
            },
        ),
    )
}

} // verus!
