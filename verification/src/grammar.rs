//! The grammar at specification level: for every statement kind, a
//! specification function giving the exact position after the statement
//! and the values it denotes, mirroring the executable parsers token by
//! token.  The parsers' contracts state their results equal to these
//! functions, and failure exactly when they yield nothing.

use vstd::prelude::*;
use crate::descriptor::{
    EnumDescriptor, EnumValueDescriptor, FieldDescriptor, FileDescriptor, MessageDescriptor,
    MethodDescriptor, OneofDescriptor, ServiceDescriptor,
};
use crate::import::import_stmt;
use crate::keyword;
use crate::lex;
use crate::package::package_stmt;
use crate::source::locate_start_pos;
use crate::syntax::{syntax_stmt, Syntax};

verus! {

/// The scalar field statement at `p`: a scalar type keyword, whitespace, a
/// run of non-whitespace bytes as the field name, `=`, a decimal field
/// number that fits in an `i32`, and `;`, with optional whitespace between
/// the tokens.  Yields the position after the statement, the name, the
/// number and the canonical type tag.
pub open spec fn field_stmt(s: Seq<u8>, p: int) -> Option<(int, Seq<u8>, int, i32)> {
    let we = lex::alnum_end(s, p);
    if we == p {
        None
    } else {
        match keyword::scalar_type_of(s.subrange(p, we)) {
            Option::None => None,
            Option::Some(ty) => {
                let ns = lex::ws_end(s, we);
                let ne = lex::nonws_end(s, ns);
                if ne == ns {
                    None
                } else {
                    let q1 = lex::ws_end(s, ne);
                    if !(q1 < s.len() && s[q1] == '=' as u8) {
                        None
                    } else {
                        let q2 = lex::ws_end(s, q1 + 1);
                        if !lex::int_ok(s, q2) {
                            None
                        } else {
                            let q3 = lex::ws_end(s, lex::int_token_end(s, q2));
                            if q3 < s.len() && s[q3] == ';' as u8 {
                                Some((q3 + 1, s.subrange(ns, ne), lex::int_val(s, q2), ty))
                            } else {
                                None
                            }
                        }
                    }
                }
            },
        }
    }
}


/// What one message denotes: its name, its fields — name, number, type
/// tag, oneof index — and its oneof names, all in source order.
#[verifier::ext_equal]
pub struct MsgView {
    pub name: Seq<u8>,
    pub fields: Seq<(Seq<u8>, int, i32, Option<int>)>,
    pub oneofs: Seq<Seq<u8>>,
}

/// What one enum denotes: its name and its values in source order.
#[verifier::ext_equal]
pub struct EnumView {
    pub name: Seq<u8>,
    pub values: Seq<(Seq<u8>, int)>,
}

/// What one service denotes: its name and its methods — name, input type,
/// output type — in source order.
#[verifier::ext_equal]
pub struct SvcView {
    pub name: Seq<u8>,
    pub methods: Seq<(Seq<u8>, Seq<u8>, Seq<u8>)>,
}

/// What one file's statements denote, in source order, with every package
/// statement collected.
#[verifier::ext_equal]
pub struct ItemsView {
    pub deps: Seq<Seq<u8>>,
    pub pkgs: Seq<Seq<u8>>,
    pub msgs: Seq<MsgView>,
    pub enums: Seq<EnumView>,
    pub svcs: Seq<SvcView>,
}

/// What one whole file denotes.
#[verifier::ext_equal]
pub struct FileView {
    pub syntax_kind: Syntax,
    pub items: ItemsView,
}

/// The denotation of a parsed field.
pub open spec fn field_view(fd: FieldDescriptor) -> (Seq<u8>, int, i32, Option<int>) {
    (
        fd.name@,
        fd.number as int,
        fd.field_type,
        match fd.oneof_index {
            Option::Some(i) => Some(i as int),
            Option::None => None,
        },
    )
}

/// The denotations of a field list.
pub open spec fn field_views(fs: Seq<FieldDescriptor>) -> Seq<(Seq<u8>, int, i32, Option<int>)> {
    fs.map_values(|f: FieldDescriptor| field_view(f))
}

/// The denotations of a oneof group's member fields, before their group
/// index is stamped.
pub open spec fn field_triples(fs: Seq<FieldDescriptor>) -> Seq<(Seq<u8>, int, i32)> {
    fs.map_values(|f: FieldDescriptor| (f.name@, f.number as int, f.field_type))
}

/// The names of a oneof declaration list.
pub open spec fn oneof_names(os: Seq<OneofDescriptor>) -> Seq<Seq<u8>> {
    os.map_values(|o: OneofDescriptor| o.name@)
}

/// The denotation of a parsed message.
pub open spec fn msg_view(md: MessageDescriptor) -> MsgView {
    MsgView { name: md.name@, fields: field_views(md.field@), oneofs: oneof_names(md.oneof_decl@) }
}

/// The denotations of a message list.
pub open spec fn msg_views(ms: Seq<MessageDescriptor>) -> Seq<MsgView> {
    ms.map_values(|m: MessageDescriptor| msg_view(m))
}

/// The denotations of an enum's values.
pub open spec fn value_views(vs: Seq<EnumValueDescriptor>) -> Seq<(Seq<u8>, int)> {
    vs.map_values(|v: EnumValueDescriptor| (v.name@, v.number as int))
}

/// The denotation of a parsed enum.
pub open spec fn enum_view(ed: EnumDescriptor) -> EnumView {
    EnumView { name: ed.name@, values: value_views(ed.value@) }
}

/// The denotations of an enum list.
pub open spec fn enum_views(es: Seq<EnumDescriptor>) -> Seq<EnumView> {
    es.map_values(|e: EnumDescriptor| enum_view(e))
}

/// The denotation of a parsed method.
pub open spec fn method_view(md: MethodDescriptor) -> (Seq<u8>, Seq<u8>, Seq<u8>) {
    (md.name@, md.input_type@, md.output_type@)
}

/// The denotations of a method list.
pub open spec fn method_views(ms: Seq<MethodDescriptor>) -> Seq<(Seq<u8>, Seq<u8>, Seq<u8>)> {
    ms.map_values(|m: MethodDescriptor| method_view(m))
}

/// The denotation of a parsed service.
pub open spec fn svc_view(sd: ServiceDescriptor) -> SvcView {
    SvcView { name: sd.name@, methods: method_views(sd.method@) }
}

/// The denotations of a service list.
pub open spec fn svc_views(ss: Seq<ServiceDescriptor>) -> Seq<SvcView> {
    ss.map_values(|sd: ServiceDescriptor| svc_view(sd))
}

/// The byte views of a list of byte vectors.
pub open spec fn byte_views(ds: Seq<Vec<u8>>) -> Seq<Seq<u8>> {
    ds.map_values(|d: Vec<u8>| d@)
}

/// An optional package as the list of package statements it came from.
pub open spec fn pkg_seq(p: Option<Vec<u8>>) -> Seq<Seq<u8>> {
    match p {
        Option::Some(v) => seq![v@],
        Option::None => Seq::empty(),
    }
}

/// The locate scan never moves backward and stays within the input.
pub proof fn lemma_start_bounds(s: Seq<u8>, p: int)
    requires
        0 <= p <= s.len(),
    ensures
        p <= locate_start_pos(s, p) <= s.len(),
{
    crate::comment::lemma_comments_from_bounds(s, p);
    lex::lemma_ws_end_range(s, crate::comment::comments_from(s, p).0);
}

/// A field statement ends after its start and within the input.
pub proof fn lemma_field_stmt_bounds(s: Seq<u8>, p: int)
    requires
        0 <= p <= s.len(),
    ensures
        field_stmt(s, p) matches Some(st) ==> p < st.0 <= s.len(),
{
    lex::lemma_run_bounds(s, p);
    let we = lex::alnum_end(s, p);
    if we > p {
        lex::lemma_ws_end_range(s, we);
        let ns = lex::ws_end(s, we);
        lex::lemma_run_bounds(s, ns);
        let ne = lex::nonws_end(s, ns);
        lex::lemma_ws_end_range(s, ne);
        let q1 = lex::ws_end(s, ne);
        if q1 < s.len() && s[q1] == '=' as u8 {
            lex::lemma_ws_end_range(s, q1 + 1);
            let q2 = lex::ws_end(s, q1 + 1);
            lex::lemma_digits_end_range(s, lex::int_sign_skip(s, q2));
            let q3e = lex::int_token_end(s, q2);
            if 0 <= q3e <= s.len() {
                lex::lemma_ws_end_range(s, q3e);
            }
        }
    }
}

/// A syntax statement ends after its start and within the input.
pub proof fn lemma_syntax_stmt_bounds(s: Seq<u8>, p: int)
    requires
        0 <= p <= s.len(),
    ensures
        syntax_stmt(s, p) matches Some(st) ==> p < st.0 <= s.len(),
{
    if lex::matches_at(s, p, keyword::kw_syntax()) {
        lex::lemma_ws_end_range(s, p + 6);
        let w1 = lex::ws_end(s, p + 6);
        if w1 < s.len() && s[w1] == '=' as u8 {
            lex::lemma_ws_end_range(s, w1 + 1);
        }
    }
}

/// An import statement ends after its start and within the input.
pub proof fn lemma_import_stmt_bounds(s: Seq<u8>, p: int)
    requires
        0 <= p <= s.len(),
    ensures
        import_stmt(s, p) matches Some(st) ==> p < st.0 <= s.len(),
{
    if lex::matches_at(s, p, keyword::kw_import()) {
        lex::lemma_ws_end_range(s, p + 6);
        let w = lex::ws_end(s, p + 6);
        if w < s.len() {
            lex::lemma_scan_bounds(s, w + 1);
        }
    }
}

/// A package statement ends after its start and within the input.
pub proof fn lemma_package_stmt_bounds(s: Seq<u8>, p: int)
    requires
        0 <= p <= s.len(),
    ensures
        package_stmt(s, p) matches Some(st) ==> p < st.0 <= s.len(),
{
    if lex::matches_at(s, p, keyword::kw_package()) {
        lex::lemma_ws_end_range(s, p + 7);
        let w = lex::ws_end(s, p + 7);
        lex::lemma_scan_bounds(s, w);
        let e = lex::package_end(s, w);
        lex::lemma_ws_end_range(s, e);
    }
}

/// The rpc method statement at `p`: after leading comments and whitespace,
/// the keyword, the method name, the parenthesised input type, `returns`,
/// the parenthesised output type and `;`.  Yields the position after the
/// statement and the three identifiers.
pub open spec fn method_stmt(s: Seq<u8>, p: int) -> Option<(int, (Seq<u8>, Seq<u8>, Seq<u8>))> {
    let sp = locate_start_pos(s, p);
    if !lex::matches_at(s, sp, keyword::kw_rpc()) {
        None
    } else {
        let np = locate_start_pos(s, sp + 3);
        let ne = lex::ident_end(s, np);
        if ne == np {
            None
        } else {
            let a1 = lex::ws_end(s, ne);
            if !(a1 < s.len() && s[a1] == '(' as u8) {
                None
            } else {
                let ip = locate_start_pos(s, a1 + 1);
                let ipe = lex::ident_end(s, ip);
                if ipe == ip {
                    None
                } else {
                    let a2 = lex::ws_end(s, ipe);
                    if !(a2 < s.len() && s[a2] == ')' as u8) {
                        None
                    } else {
                        let w1 = lex::ws_end(s, a2 + 1);
                        if w1 == a2 + 1 || !lex::matches_at(s, w1, keyword::kw_returns()) {
                            None
                        } else {
                            let w2 = lex::ws_end(s, w1 + 7);
                            if w2 == w1 + 7 || !(w2 < s.len() && s[w2] == '(' as u8) {
                                None
                            } else {
                                let op = locate_start_pos(s, w2 + 1);
                                let ope = lex::ident_end(s, op);
                                if ope == op {
                                    None
                                } else {
                                    let a3 = lex::ws_end(s, ope);
                                    if !(a3 < s.len() && s[a3] == ')' as u8) {
                                        None
                                    } else {
                                        let w3 = lex::ws_end(s, a3 + 1);
                                        if w3 < s.len() && s[w3] == ';' as u8 {
                                            Some(
                                                (
                                                    w3 + 1,
                                                    (
                                                        s.subrange(np, ne),
                                                        s.subrange(ip, ipe),
                                                        s.subrange(op, ope),
                                                    ),
                                                ),
                                            )
                                        } else {
                                            None
                                        }
                                    }
                                }
                            }
                        }
                    }
                }
            }
        }
    }
}

/// A method statement ends after its start and within the input.
pub proof fn lemma_method_stmt_bounds(s: Seq<u8>, p: int)
    requires
        0 <= p <= s.len(),
    ensures
        method_stmt(s, p) matches Some(st) ==> p < st.0 <= s.len(),
{
    lemma_start_bounds(s, p);
    let sp = locate_start_pos(s, p);
    if lex::matches_at(s, sp, keyword::kw_rpc()) {
        lemma_start_bounds(s, sp + 3);
        let np = locate_start_pos(s, sp + 3);
        lex::lemma_run_bounds(s, np);
        let ne = lex::ident_end(s, np);
        lex::lemma_ws_end_range(s, ne);
        let a1 = lex::ws_end(s, ne);
        if a1 < s.len() && s[a1] == '(' as u8 {
            lemma_start_bounds(s, a1 + 1);
            let ip = locate_start_pos(s, a1 + 1);
            lex::lemma_run_bounds(s, ip);
            let ipe = lex::ident_end(s, ip);
            lex::lemma_ws_end_range(s, ipe);
            let a2 = lex::ws_end(s, ipe);
            if a2 < s.len() && s[a2] == ')' as u8 {
                lex::lemma_ws_end_range(s, a2 + 1);
                let w1 = lex::ws_end(s, a2 + 1);
                if lex::matches_at(s, w1, keyword::kw_returns()) {
                    lex::lemma_ws_end_range(s, w1 + 7);
                    let w2 = lex::ws_end(s, w1 + 7);
                    if w2 < s.len() && s[w2] == '(' as u8 {
                        lemma_start_bounds(s, w2 + 1);
                        let op = locate_start_pos(s, w2 + 1);
                        lex::lemma_run_bounds(s, op);
                        let ope = lex::ident_end(s, op);
                        lex::lemma_ws_end_range(s, ope);
                        let a3 = lex::ws_end(s, ope);
                        if a3 < s.len() && s[a3] == ')' as u8 {
                            lex::lemma_ws_end_range(s, a3 + 1);
                        }
                    }
                }
            }
        }
    }
}

/// The fields of a oneof group from `p` up to and past its closing brace.
pub open spec fn oneof_fields(s: Seq<u8>, p: int) -> Option<(int, Seq<(Seq<u8>, int, i32)>)>
    decreases s.len() - p,
    via oneof_fields_decreases
{
    if p < 0 || p > s.len() {
        None
    } else {
        let pw = lex::ws_end(s, p);
        if pw < s.len() && s[pw] == '}' as u8 {
            Some((pw + 1, Seq::empty()))
        } else {
            match field_stmt(s, locate_start_pos(s, p)) {
                Option::None => None,
                Option::Some(st) => match oneof_fields(s, lex::ws_end(s, st.0)) {
                    Option::None => None,
                    Option::Some(r) => Some((r.0, seq![(st.1, st.2, st.3)] + r.1)),
                },
            }
        }
    }
}

#[via_fn]
proof fn oneof_fields_decreases(s: Seq<u8>, p: int) {
    if 0 <= p <= s.len() {
        lemma_start_bounds(s, p);
        lemma_field_stmt_bounds(s, locate_start_pos(s, p));
        match field_stmt(s, locate_start_pos(s, p)) {
            Option::Some(st) => {
                lex::lemma_ws_end_range(s, st.0);
            },
            Option::None => {},
        }
    }
}

/// A oneof field list ends after its start and within the input.
pub proof fn lemma_oneof_fields_bounds(s: Seq<u8>, p: int)
    requires
        0 <= p <= s.len(),
    ensures
        oneof_fields(s, p) matches Some(r) ==> p < r.0 <= s.len(),
    decreases s.len() - p,
{
    lex::lemma_ws_end_range(s, p);
    lemma_start_bounds(s, p);
    lemma_field_stmt_bounds(s, locate_start_pos(s, p));
    let pw = lex::ws_end(s, p);
    if !(pw < s.len() && s[pw] == '}' as u8) {
        match field_stmt(s, locate_start_pos(s, p)) {
            Option::Some(st) => {
                lex::lemma_ws_end_range(s, st.0);
                lemma_oneof_fields_bounds(s, lex::ws_end(s, st.0));
            },
            Option::None => {},
        }
    }
}

/// The oneof group at `p`: the keyword, its name, and braces holding zero
/// or more fields.  Yields the position after the closing brace, the name
/// and the fields.
pub open spec fn oneof_stmt(s: Seq<u8>, p: int) -> Option<(int, Seq<u8>, Seq<(Seq<u8>, int, i32)>)> {
    let sw = locate_start_pos(s, p);
    if !lex::matches_at(s, sw, keyword::kw_oneof()) {
        None
    } else {
        let w = lex::ws_end(s, sw + 5);
        if w == sw + 5 {
            None
        } else {
            let ne = lex::nonws_end(s, w);
            if ne == w {
                None
            } else {
                let wb = lex::ws_end(s, ne);
                if !(wb < s.len() && s[wb] == '{' as u8) {
                    None
                } else {
                    match oneof_fields(s, wb + 1) {
                        Option::None => None,
                        Option::Some(r) => Some((r.0, s.subrange(w, ne), r.1)),
                    }
                }
            }
        }
    }
}

/// A oneof group ends after its start and within the input.
pub proof fn lemma_oneof_stmt_bounds(s: Seq<u8>, p: int)
    requires
        0 <= p <= s.len(),
    ensures
        oneof_stmt(s, p) matches Some(r) ==> p < r.0 <= s.len(),
{
    lemma_start_bounds(s, p);
    let sw = locate_start_pos(s, p);
    if lex::matches_at(s, sw, keyword::kw_oneof()) {
        lex::lemma_ws_end_range(s, sw + 5);
        let w = lex::ws_end(s, sw + 5);
        lex::lemma_run_bounds(s, w);
        let ne = lex::nonws_end(s, w);
        lex::lemma_ws_end_range(s, ne);
        let wb = lex::ws_end(s, ne);
        if wb < s.len() && s[wb] == '{' as u8 {
            lemma_oneof_fields_bounds(s, wb + 1);
        }
    }
}

/// The body of a message from `p` up to and past its closing brace, with
/// `k` oneof groups already seen: the fields in source order — oneof
/// members stamped with their group's index — and the oneof names.
#[verifier::opaque]
pub open spec fn message_body(s: Seq<u8>, p: int, k: int) -> Option<
    (int, Seq<(Seq<u8>, int, i32, Option<int>)>, Seq<Seq<u8>>),
>
    decreases s.len() - p,
    via message_body_decreases
{
    if p < 0 || p > s.len() {
        None
    } else {
        let pw = lex::ws_end(s, p);
        if pw < s.len() && s[pw] == '}' as u8 {
            Some((pw + 1, Seq::empty(), Seq::empty()))
        } else {
            let sw = locate_start_pos(s, p);
            let we = lex::alnum_end(s, sw);
            if we > sw && we - sw == 5 && lex::matches_at(s, sw, keyword::kw_oneof()) {
                match oneof_stmt(s, p) {
                    Option::None => None,
                    Option::Some(of) => match message_body(s, of.0, k + 1) {
                        Option::None => None,
                        Option::Some(r) => Some(
                            (
                                r.0,
                                of.2.map_values(
                                    |f: (Seq<u8>, int, i32)| (f.0, f.1, f.2, Some(k)),
                                ) + r.1,
                                seq![of.1] + r.2,
                            ),
                        ),
                    },
                }
            } else {
                match field_stmt(s, sw) {
                    Option::None => None,
                    Option::Some(st) => match message_body(s, lex::ws_end(s, st.0), k) {
                        Option::None => None,
                        Option::Some(r) => Some(
                            (
                                r.0,
                                seq![(st.1, st.2, st.3, Option::<int>::None)] + r.1,
                                r.2,
                            ),
                        ),
                    },
                }
            }
        }
    }
}

#[via_fn]
proof fn message_body_decreases(s: Seq<u8>, p: int, k: int) {
    if 0 <= p <= s.len() {
        lemma_start_bounds(s, p);
        lemma_oneof_stmt_bounds(s, p);
        lemma_field_stmt_bounds(s, locate_start_pos(s, p));
        match field_stmt(s, locate_start_pos(s, p)) {
            Option::Some(st) => {
                lex::lemma_ws_end_range(s, st.0);
            },
            Option::None => {},
        }
    }
}

/// A message body ends after its start and within the input.
pub proof fn lemma_message_body_bounds(s: Seq<u8>, p: int, k: int)
    requires
        0 <= p <= s.len(),
    ensures
        message_body(s, p, k) matches Some(r) ==> p < r.0 <= s.len(),
    decreases s.len() - p,
{
    reveal_with_fuel(message_body, 1);
    lex::lemma_ws_end_range(s, p);
    lemma_start_bounds(s, p);
    lemma_oneof_stmt_bounds(s, p);
    lemma_field_stmt_bounds(s, locate_start_pos(s, p));
    let pw = lex::ws_end(s, p);
    if !(pw < s.len() && s[pw] == '}' as u8) {
        match oneof_stmt(s, p) {
            Option::Some(of) => {
                lemma_message_body_bounds(s, of.0, k + 1);
            },
            Option::None => {},
        }
        match field_stmt(s, locate_start_pos(s, p)) {
            Option::Some(st) => {
                lex::lemma_ws_end_range(s, st.0);
                lemma_message_body_bounds(s, lex::ws_end(s, st.0), k);
            },
            Option::None => {},
        }
    }
}

/// The message statement at `p`: the keyword, whitespace, the name, and
/// the braced body.  Yields the position after the closing brace and the
/// message's denotation.
pub open spec fn message_stmt(s: Seq<u8>, p: int) -> Option<(int, MsgView)> {
    let sp = locate_start_pos(s, p);
    if !lex::matches_at(s, sp, keyword::kw_message()) {
        None
    } else {
        let w = lex::ws_end(s, sp + 7);
        if w == sp + 7 {
            None
        } else {
            let np = locate_start_pos(s, w);
            let ne = lex::ident_end(s, np);
            if ne == np {
                None
            } else {
                let after = lex::ws_end(s, ne);
                if !(after < s.len() && s[after] == '{' as u8) {
                    None
                } else {
                    match message_body(s, after + 1, 0) {
                        Option::None => None,
                        Option::Some(r) => Some(
                            (
                                r.0,
                                MsgView { name: s.subrange(np, ne), fields: r.1, oneofs: r.2 },
                            ),
                        ),
                    }
                }
            }
        }
    }
}

/// A message statement ends after its start and within the input.
pub proof fn lemma_message_stmt_bounds(s: Seq<u8>, p: int)
    requires
        0 <= p <= s.len(),
    ensures
        message_stmt(s, p) matches Some(r) ==> p < r.0 <= s.len(),
{
    lemma_start_bounds(s, p);
    let sp = locate_start_pos(s, p);
    if lex::matches_at(s, sp, keyword::kw_message()) {
        lex::lemma_ws_end_range(s, sp + 7);
        let w = lex::ws_end(s, sp + 7);
        lemma_start_bounds(s, w);
        let np = locate_start_pos(s, w);
        lex::lemma_run_bounds(s, np);
        let ne = lex::ident_end(s, np);
        lex::lemma_ws_end_range(s, ne);
        let after = lex::ws_end(s, ne);
        if after < s.len() && s[after] == '{' as u8 {
            lemma_message_body_bounds(s, after + 1, 0);
        }
    }
}

/// The values of an enum from `p` up to and past its closing brace.
pub open spec fn enum_values(s: Seq<u8>, p: int) -> Option<(int, Seq<(Seq<u8>, int)>)>
    decreases s.len() - p,
    via enum_values_decreases
{
    if p < 0 || p > s.len() {
        None
    } else {
        let vw = lex::ws_end(s, p);
        if vw < s.len() && s[vw] == '}' as u8 {
            Some((vw + 1, Seq::empty()))
        } else {
            let vn = lex::alpha_end(s, vw);
            if vn == vw {
                None
            } else {
                let a = lex::ws_end(s, vn);
                if !(a < s.len() && s[a] == '=' as u8) {
                    None
                } else {
                    let b = lex::ws_end(s, a + 1);
                    if !lex::int_ok(s, b) {
                        None
                    } else {
                        let d = lex::ws_end(s, lex::int_token_end(s, b));
                        if !(d < s.len() && s[d] == ';' as u8) {
                            None
                        } else {
                            match enum_values(s, d + 1) {
                                Option::None => None,
                                Option::Some(r) => Some(
                                    (r.0, seq![(s.subrange(vw, vn), lex::int_val(s, b))] + r.1),
                                ),
                            }
                        }
                    }
                }
            }
        }
    }
}

#[via_fn]
proof fn enum_values_decreases(s: Seq<u8>, p: int) {
    if 0 <= p <= s.len() {
        lemma_enum_value_step(s, p);
    }
}

/// One enum value step moves forward and stays within the input.
proof fn lemma_enum_value_step(s: Seq<u8>, p: int)
    requires
        0 <= p <= s.len(),
    ensures
        p <= lex::ws_end(s, p) <= s.len(),
        ({
            let vw = lex::ws_end(s, p);
            let vn = lex::alpha_end(s, vw);
            let a = lex::ws_end(s, vn);
            let b = lex::ws_end(s, a + 1);
            let d = lex::ws_end(s, lex::int_token_end(s, b));
            &&& vw <= vn <= s.len()
            &&& vn <= a <= s.len()
            &&& (a < s.len() ==> a + 1 <= b <= s.len())
            &&& (a < s.len() && 0 <= lex::int_token_end(s, b) <= s.len() ==> lex::int_token_end(
                s,
                b,
            ) <= d <= s.len())
        }),
{
    lex::lemma_ws_end_range(s, p);
    let vw = lex::ws_end(s, p);
    lex::lemma_run_bounds(s, vw);
    let vn = lex::alpha_end(s, vw);
    lex::lemma_ws_end_range(s, vn);
    let a = lex::ws_end(s, vn);
    if a < s.len() {
        lex::lemma_ws_end_range(s, a + 1);
        let b = lex::ws_end(s, a + 1);
        lex::lemma_digits_end_range(s, lex::int_sign_skip(s, b));
        if 0 <= lex::int_token_end(s, b) <= s.len() {
            lex::lemma_ws_end_range(s, lex::int_token_end(s, b));
        }
    }
}

/// An enum value list ends after its start and within the input.
pub proof fn lemma_enum_values_bounds(s: Seq<u8>, p: int)
    requires
        0 <= p <= s.len(),
    ensures
        enum_values(s, p) matches Some(r) ==> p < r.0 <= s.len(),
    decreases s.len() - p,
{
    lemma_enum_value_step(s, p);
    let vw = lex::ws_end(s, p);
    if !(vw < s.len() && s[vw] == '}' as u8) {
        let vn = lex::alpha_end(s, vw);
        if vn != vw {
            let a = lex::ws_end(s, vn);
            if a < s.len() && s[a] == '=' as u8 {
                let b = lex::ws_end(s, a + 1);
                if lex::int_ok(s, b) {
                    let d = lex::ws_end(s, lex::int_token_end(s, b));
                    if d < s.len() && s[d] == ';' as u8 {
                        lemma_enum_values_bounds(s, d + 1);
                    }
                }
            }
        }
    }
}

/// The enum statement at `p`: the keyword, the name, and braces holding
/// one or more values.  Yields the position after the closing brace and
/// the enum's denotation.
pub open spec fn enum_stmt(s: Seq<u8>, p: int) -> Option<(int, EnumView)> {
    let sp = locate_start_pos(s, p);
    if !lex::matches_at(s, sp, keyword::kw_enum()) {
        None
    } else {
        let w = lex::ws_end(s, sp + 4);
        let ne = lex::alpha_end(s, w);
        if ne == w {
            None
        } else {
            let wb = lex::ws_end(s, ne);
            if !(wb < s.len() && s[wb] == '{' as u8) {
                None
            } else {
                match enum_values(s, wb + 1) {
                    Option::None => None,
                    Option::Some(r) => if r.1.len() >= 1 {
                        Some((r.0, EnumView { name: s.subrange(w, ne), values: r.1 }))
                    } else {
                        None
                    },
                }
            }
        }
    }
}

/// An enum statement ends after its start and within the input.
pub proof fn lemma_enum_stmt_bounds(s: Seq<u8>, p: int)
    requires
        0 <= p <= s.len(),
    ensures
        enum_stmt(s, p) matches Some(r) ==> p < r.0 <= s.len(),
{
    lemma_start_bounds(s, p);
    let sp = locate_start_pos(s, p);
    if lex::matches_at(s, sp, keyword::kw_enum()) {
        lex::lemma_ws_end_range(s, sp + 4);
        let w = lex::ws_end(s, sp + 4);
        lex::lemma_run_bounds(s, w);
        let ne = lex::alpha_end(s, w);
        lex::lemma_ws_end_range(s, ne);
        let wb = lex::ws_end(s, ne);
        if wb < s.len() && s[wb] == '{' as u8 {
            lemma_enum_values_bounds(s, wb + 1);
        }
    }
}

/// The methods of a service from `p` up to and past its closing brace.
pub open spec fn service_methods(s: Seq<u8>, p: int) -> Option<
    (int, Seq<(Seq<u8>, Seq<u8>, Seq<u8>)>),
>
    decreases s.len() - p,
    via service_methods_decreases
{
    if p < 0 || p > s.len() {
        None
    } else {
        let pw = lex::ws_end(s, p);
        if pw < s.len() && s[pw] == '}' as u8 {
            Some((pw + 1, Seq::empty()))
        } else {
            match method_stmt(s, p) {
                Option::None => None,
                Option::Some(st) => match service_methods(s, lex::ws_end(s, st.0)) {
                    Option::None => None,
                    Option::Some(r) => Some((r.0, seq![st.1] + r.1)),
                },
            }
        }
    }
}

#[via_fn]
proof fn service_methods_decreases(s: Seq<u8>, p: int) {
    if 0 <= p <= s.len() {
        lemma_method_stmt_bounds(s, p);
        match method_stmt(s, p) {
            Option::Some(st) => {
                lex::lemma_ws_end_range(s, st.0);
            },
            Option::None => {},
        }
    }
}

/// A method list ends after its start and within the input.
pub proof fn lemma_service_methods_bounds(s: Seq<u8>, p: int)
    requires
        0 <= p <= s.len(),
    ensures
        service_methods(s, p) matches Some(r) ==> p < r.0 <= s.len(),
    decreases s.len() - p,
{
    lex::lemma_ws_end_range(s, p);
    lemma_method_stmt_bounds(s, p);
    let pw = lex::ws_end(s, p);
    if !(pw < s.len() && s[pw] == '}' as u8) {
        match method_stmt(s, p) {
            Option::Some(st) => {
                lex::lemma_ws_end_range(s, st.0);
                lemma_service_methods_bounds(s, lex::ws_end(s, st.0));
            },
            Option::None => {},
        }
    }
}

/// The service statement at `p`: the keyword, the name, and braces
/// holding zero or more methods.  Yields the position after the closing
/// brace and the service's denotation.
pub open spec fn service_stmt(s: Seq<u8>, p: int) -> Option<(int, SvcView)> {
    let sp = locate_start_pos(s, p);
    if !lex::matches_at(s, sp, keyword::kw_service()) {
        None
    } else {
        let np = locate_start_pos(s, sp + 7);
        let ne = lex::ident_end(s, np);
        if ne == np {
            None
        } else {
            let after = lex::ws_end(s, ne);
            if !(after < s.len() && s[after] == '{' as u8) {
                None
            } else {
                match service_methods(s, after + 1) {
                    Option::None => None,
                    Option::Some(r) => Some(
                        (r.0, SvcView { name: s.subrange(np, ne), methods: r.1 }),
                    ),
                }
            }
        }
    }
}

/// A service statement ends after its start and within the input.
pub proof fn lemma_service_stmt_bounds(s: Seq<u8>, p: int)
    requires
        0 <= p <= s.len(),
    ensures
        service_stmt(s, p) matches Some(r) ==> p < r.0 <= s.len(),
{
    lemma_start_bounds(s, p);
    let sp = locate_start_pos(s, p);
    if lex::matches_at(s, sp, keyword::kw_service()) {
        lemma_start_bounds(s, sp + 7);
        let np = locate_start_pos(s, sp + 7);
        lex::lemma_run_bounds(s, np);
        let ne = lex::ident_end(s, np);
        lex::lemma_ws_end_range(s, ne);
        let after = lex::ws_end(s, ne);
        if after < s.len() && s[after] == '{' as u8 {
            lemma_service_methods_bounds(s, after + 1);
        }
    }
}

/// The top-level statements from `p`: imports, package statements,
/// messages, services and enums, tried in that order, until no statement
/// starts.  Yields the position where no statement matched and everything
/// collected.
pub open spec fn file_items(s: Seq<u8>, p: int) -> Option<(int, ItemsView)>
    decreases s.len() - p,
    via file_items_decreases
{
    if p < 0 || p > s.len() {
        None
    } else {
        let sp = locate_start_pos(s, p);
        match import_stmt(s, sp) {
            Option::Some(st) => match file_items(s, lex::ws_end(s, st.0)) {
                Option::None => None,
                Option::Some(r) => Some(
                    (r.0, ItemsView { deps: seq![st.1] + r.1.deps, ..r.1 }),
                ),
            },
            Option::None => match package_stmt(s, sp) {
                Option::Some(st) => match file_items(s, lex::ws_end(s, st.0)) {
                    Option::None => None,
                    Option::Some(r) => Some(
                        (r.0, ItemsView { pkgs: seq![st.1] + r.1.pkgs, ..r.1 }),
                    ),
                },
                Option::None => if lex::matches_at(s, sp, keyword::kw_message()) {
                    match message_stmt(s, p) {
                        Option::None => None,
                        Option::Some(m) => match file_items(s, lex::ws_end(s, m.0)) {
                            Option::None => None,
                            Option::Some(r) => Some(
                                (r.0, ItemsView { msgs: seq![m.1] + r.1.msgs, ..r.1 }),
                            ),
                        },
                    }
                } else if lex::matches_at(s, sp, keyword::kw_service()) {
                    match service_stmt(s, p) {
                        Option::None => None,
                        Option::Some(m) => match file_items(s, lex::ws_end(s, m.0)) {
                            Option::None => None,
                            Option::Some(r) => Some(
                                (r.0, ItemsView { svcs: seq![m.1] + r.1.svcs, ..r.1 }),
                            ),
                        },
                    }
                } else if lex::matches_at(s, sp, keyword::kw_enum()) {
                    match enum_stmt(s, p) {
                        Option::None => None,
                        Option::Some(m) => match file_items(s, lex::ws_end(s, m.0)) {
                            Option::None => None,
                            Option::Some(r) => Some(
                                (r.0, ItemsView { enums: seq![m.1] + r.1.enums, ..r.1 }),
                            ),
                        },
                    }
                } else {
                    Some(
                        (
                            p,
                            ItemsView {
                                deps: Seq::empty(),
                                pkgs: Seq::empty(),
                                msgs: Seq::empty(),
                                enums: Seq::empty(),
                                svcs: Seq::empty(),
                            },
                        ),
                    )
                },
            },
        }
    }
}

#[via_fn]
proof fn file_items_decreases(s: Seq<u8>, p: int) {
    if 0 <= p <= s.len() {
        lemma_start_bounds(s, p);
        let sp = locate_start_pos(s, p);
        lemma_import_stmt_bounds(s, sp);
        lemma_package_stmt_bounds(s, sp);
        lemma_message_stmt_bounds(s, p);
        lemma_service_stmt_bounds(s, p);
        lemma_enum_stmt_bounds(s, p);
        match import_stmt(s, sp) {
            Option::Some(st) => {
                lex::lemma_ws_end_range(s, st.0);
            },
            Option::None => {},
        }
        match package_stmt(s, sp) {
            Option::Some(st) => {
                lex::lemma_ws_end_range(s, st.0);
            },
            Option::None => {},
        }
        match message_stmt(s, p) {
            Option::Some(st) => {
                lex::lemma_ws_end_range(s, st.0);
            },
            Option::None => {},
        }
        match service_stmt(s, p) {
            Option::Some(st) => {
                lex::lemma_ws_end_range(s, st.0);
            },
            Option::None => {},
        }
        match enum_stmt(s, p) {
            Option::Some(st) => {
                lex::lemma_ws_end_range(s, st.0);
            },
            Option::None => {},
        }
    }
}

/// What one whole file parses to: the mandatory syntax statement after
/// the root's leading comments and whitespace, then the statement loop.
/// Yields the position where the loop stopped and the file's denotation.
pub open spec fn file_result(s: Seq<u8>) -> Option<(int, FileView)> {
    let sp1 = locate_start_pos(s, locate_start_pos(s, 0));
    match syntax_stmt(s, sp1) {
        Option::None => None,
        Option::Some(st) => match file_items(s, lex::ws_end(s, st.0)) {
            Option::None => None,
            Option::Some(r) => Some((r.0, FileView { syntax_kind: st.1, items: r.1 })),
        },
    }
}

/// A file is accepted exactly when it parses, the statement loop consumes
/// the whole input, and at most one package statement occurs.
pub open spec fn file_ok(s: Seq<u8>) -> bool {
    match file_result(s) {
        Option::Some(r) => r.0 == s.len() && r.1.items.pkgs.len() <= 1,
        Option::None => false,
    }
}

/// A parsed file's lists agree with a file denotation; the syntax and the
/// package are compared separately because the descriptor stores them
/// rendered.
pub open spec fn file_contents_match(fd: FileDescriptor, v: FileView) -> bool {
    &&& fd.syntax@ == crate::syntax::syntax_bytes(v.syntax_kind)
    &&& pkg_seq(fd.package) == v.items.pkgs
    &&& byte_views(fd.dependency@) == v.items.deps
    &&& msg_views(fd.message_type@) == v.items.msgs
    &&& enum_views(fd.enum_type@) == v.items.enums
    &&& svc_views(fd.service@) == v.items.svcs
}

/// The loop relation of a message body parse: the statements consumed so
/// far denote `acc_f` and `acc_o`, and whatever the rest of the body
/// yields from `p` completes them to the whole body's denotation.
pub open spec fn body_progress(
    s: Seq<u8>,
    body0: int,
    p: int,
    k: int,
    acc_f: Seq<(Seq<u8>, int, i32, Option<int>)>,
    acc_o: Seq<Seq<u8>>,
) -> bool {
    match message_body(s, p, k) {
        Option::None => message_body(s, body0, 0) is None,
        Option::Some(r) => message_body(s, body0, 0) matches Some(t) && t.0 == r.0 && t.1
            == acc_f + r.1 && t.2 == acc_o + r.2,
    }
}

/// At the start of a body nothing was consumed yet.
pub proof fn lemma_body_init(s: Seq<u8>, body0: int)
    ensures
        body_progress(s, body0, body0, 0, Seq::empty(), Seq::empty()),
{
    match message_body(s, body0, 0) {
        Option::Some(r) => {
            assert(Seq::<(Seq<u8>, int, i32, Option<int>)>::empty() + r.1 =~= r.1);
            assert(Seq::<Seq<u8>>::empty() + r.2 =~= r.2);
        },
        Option::None => {},
    }
}

/// Consuming one plain field extends the loop relation.
pub proof fn lemma_body_field(
    s: Seq<u8>,
    body0: int,
    p: int,
    k: int,
    acc_f: Seq<(Seq<u8>, int, i32, Option<int>)>,
    acc_o: Seq<Seq<u8>>,
    st: (int, Seq<u8>, int, i32),
)
    requires
        body_progress(s, body0, p, k, acc_f, acc_o),
        0 <= p <= s.len(),
        !(lex::ws_end(s, p) < s.len() && s[lex::ws_end(s, p)] == '}' as u8),
        !({
            let sw = locate_start_pos(s, p);
            let we = lex::alnum_end(s, sw);
            we > sw && we - sw == 5 && lex::matches_at(s, sw, keyword::kw_oneof())
        }),
        field_stmt(s, locate_start_pos(s, p)) == Some(st),
    ensures
        body_progress(
            s,
            body0,
            lex::ws_end(s, st.0),
            k,
            acc_f + seq![(st.1, st.2, st.3, Option::<int>::None)],
            acc_o,
        ),
{
    reveal_with_fuel(message_body, 1);
    let head = (st.1, st.2, st.3, Option::<int>::None);
    match message_body(s, lex::ws_end(s, st.0), k) {
        Option::Some(r1) => {
            assert(message_body(s, p, k) matches Some(r0) && r0.0 == r1.0 && r0.1 == seq![head]
                + r1.1 && r0.2 == r1.2);
            assert(acc_f + (seq![head] + r1.1) =~= (acc_f + seq![head]) + r1.1);
        },
        Option::None => {
            assert(message_body(s, p, k) is None);
        },
    }
}

/// Consuming one oneof group extends the loop relation, its members
/// stamped with the group's index.
pub proof fn lemma_body_oneof(
    s: Seq<u8>,
    body0: int,
    p: int,
    k: int,
    acc_f: Seq<(Seq<u8>, int, i32, Option<int>)>,
    acc_o: Seq<Seq<u8>>,
    stt: (int, Seq<u8>, Seq<(Seq<u8>, int, i32)>),
)
    requires
        body_progress(s, body0, p, k, acc_f, acc_o),
        0 <= p <= s.len(),
        !(lex::ws_end(s, p) < s.len() && s[lex::ws_end(s, p)] == '}' as u8),
        ({
            let sw = locate_start_pos(s, p);
            let we = lex::alnum_end(s, sw);
            we > sw && we - sw == 5 && lex::matches_at(s, sw, keyword::kw_oneof())
        }),
        oneof_stmt(s, p) == Some(stt),
    ensures
        body_progress(
            s,
            body0,
            stt.0,
            k + 1,
            acc_f + stt.2.map_values(|f: (Seq<u8>, int, i32)| (f.0, f.1, f.2, Some(k))),
            acc_o + seq![stt.1],
        ),
{
    reveal_with_fuel(message_body, 1);
    let stamped = stt.2.map_values(|f: (Seq<u8>, int, i32)| (f.0, f.1, f.2, Some(k)));
    match message_body(s, stt.0, k + 1) {
        Option::Some(r1) => {
            assert(message_body(s, p, k) matches Some(r0) && r0.0 == r1.0 && r0.1 == stamped
                + r1.1 && r0.2 == seq![stt.1] + r1.2);
            assert(acc_f + (stamped + r1.1) =~= (acc_f + stamped) + r1.1);
            assert(acc_o + (seq![stt.1] + r1.2) =~= (acc_o + seq![stt.1]) + r1.2);
        },
        Option::None => {
            assert(message_body(s, p, k) is None);
        },
    }
}

/// When neither a closing brace nor a statement starts, the whole body
/// yields nothing.
pub proof fn lemma_body_none(
    s: Seq<u8>,
    body0: int,
    p: int,
    k: int,
    acc_f: Seq<(Seq<u8>, int, i32, Option<int>)>,
    acc_o: Seq<Seq<u8>>,
)
    requires
        body_progress(s, body0, p, k, acc_f, acc_o),
        0 <= p <= s.len(),
        !(lex::ws_end(s, p) < s.len() && s[lex::ws_end(s, p)] == '}' as u8),
        ({
            let sw = locate_start_pos(s, p);
            let we = lex::alnum_end(s, sw);
            we > sw && we - sw == 5 && lex::matches_at(s, sw, keyword::kw_oneof())
        }) ==> oneof_stmt(s, p) is None,
        !({
            let sw = locate_start_pos(s, p);
            let we = lex::alnum_end(s, sw);
            we > sw && we - sw == 5 && lex::matches_at(s, sw, keyword::kw_oneof())
        }) ==> field_stmt(s, locate_start_pos(s, p)) is None,
    ensures
        message_body(s, body0, 0) is None,
{
    reveal_with_fuel(message_body, 1);
    assert(message_body(s, p, k) is None);
}

/// At the closing brace the loop relation closes the body's denotation.
pub proof fn lemma_body_close(
    s: Seq<u8>,
    body0: int,
    p: int,
    k: int,
    acc_f: Seq<(Seq<u8>, int, i32, Option<int>)>,
    acc_o: Seq<Seq<u8>>,
)
    requires
        body_progress(s, body0, p, k, acc_f, acc_o),
        0 <= p <= s.len(),
        lex::ws_end(s, p) < s.len() && s[lex::ws_end(s, p)] == '}' as u8,
    ensures
        message_body(s, body0, 0) == Some((lex::ws_end(s, p) + 1, acc_f, acc_o)),
{
    reveal_with_fuel(message_body, 1);
    assert(message_body(s, p, k) == Some(
        (
            lex::ws_end(s, p) + 1,
            Seq::<(Seq<u8>, int, i32, Option<int>)>::empty(),
            Seq::<Seq<u8>>::empty(),
        ),
    ));
    assert(acc_f + Seq::<(Seq<u8>, int, i32, Option<int>)>::empty() =~= acc_f);
    assert(acc_o + Seq::<Seq<u8>>::empty() =~= acc_o);
}

/// Field denotations distribute over appending one field.
pub proof fn lemma_field_views_push(fs: Seq<FieldDescriptor>, fd: FieldDescriptor)
    ensures
        field_views(fs.push(fd)) == field_views(fs) + seq![field_view(fd)],
{
    assert(field_views(fs.push(fd)) =~= field_views(fs) + seq![field_view(fd)]);
}

/// Field denotations distribute over concatenation.
pub proof fn lemma_field_views_concat(a: Seq<FieldDescriptor>, b: Seq<FieldDescriptor>)
    ensures
        field_views(a + b) == field_views(a) + field_views(b),
{
    assert(field_views(a + b) =~= field_views(a) + field_views(b));
}

/// The denotations of a oneof's members, once stamped with the group's
/// index, are the stamped member triples.
pub proof fn lemma_stamped_views(
    of_fields: Seq<FieldDescriptor>,
    triples: Seq<(Seq<u8>, int, i32)>,
    k: int,
    idx: i32,
)
    requires
        field_triples(of_fields) == triples,
        forall|j: int| 0 <= j < of_fields.len() ==> (#[trigger] of_fields[j]).oneof_index == Some(
            idx,
        ),
        idx == k,
    ensures
        field_views(of_fields) == triples.map_values(
            |f: (Seq<u8>, int, i32)| (f.0, f.1, f.2, Some(k)),
        ),
{
    let stamped = triples.map_values(|f: (Seq<u8>, int, i32)| (f.0, f.1, f.2, Some(k)));
    assert forall|j: int| 0 <= j < of_fields.len() implies #[trigger] field_views(of_fields)[j]
        == stamped[j] by {
        assert(field_triples(of_fields)[j] == triples[j]);
    }
    assert(field_views(of_fields) =~= stamped);
}

/// Oneof names distribute over appending one declaration.
pub proof fn lemma_oneof_names_push(os: Seq<OneofDescriptor>, od: OneofDescriptor)
    ensures
        oneof_names(os.push(od)) == oneof_names(os) + seq![od.name@],
{
    assert(oneof_names(os.push(od)) =~= oneof_names(os) + seq![od.name@]);
}

/// The loop relation of a service body parse: the methods consumed so far
/// denote `acc`, and whatever the rest yields from `p` completes them.
pub open spec fn methods_progress(
    s: Seq<u8>,
    body0: int,
    p: int,
    acc: Seq<(Seq<u8>, Seq<u8>, Seq<u8>)>,
) -> bool {
    match service_methods(s, p) {
        Option::None => service_methods(s, body0) is None,
        Option::Some(r) => service_methods(s, body0) matches Some(t) && t.0 == r.0 && t.1 == acc
            + r.1,
    }
}

/// At the start of a service body nothing was consumed yet.
pub proof fn lemma_methods_init(s: Seq<u8>, body0: int)
    ensures
        methods_progress(s, body0, body0, Seq::empty()),
{
    match service_methods(s, body0) {
        Option::Some(r) => {
            assert(Seq::<(Seq<u8>, Seq<u8>, Seq<u8>)>::empty() + r.1 =~= r.1);
        },
        Option::None => {},
    }
}

/// Consuming one method extends the loop relation.
pub proof fn lemma_methods_step(
    s: Seq<u8>,
    body0: int,
    p: int,
    acc: Seq<(Seq<u8>, Seq<u8>, Seq<u8>)>,
    st: (int, (Seq<u8>, Seq<u8>, Seq<u8>)),
)
    requires
        methods_progress(s, body0, p, acc),
        0 <= p <= s.len(),
        !(lex::ws_end(s, p) < s.len() && s[lex::ws_end(s, p)] == '}' as u8),
        method_stmt(s, p) == Some(st),
    ensures
        methods_progress(s, body0, lex::ws_end(s, st.0), acc + seq![st.1]),
{
    match service_methods(s, lex::ws_end(s, st.0)) {
        Option::Some(r1) => {
            assert(service_methods(s, p) matches Some(r0) && r0.0 == r1.0 && r0.1 == seq![st.1]
                + r1.1);
            assert(acc + (seq![st.1] + r1.1) =~= (acc + seq![st.1]) + r1.1);
        },
        Option::None => {
            assert(service_methods(s, p) is None);
        },
    }
}

/// When neither a closing brace nor a method starts, the whole body yields
/// nothing.
pub proof fn lemma_methods_none(
    s: Seq<u8>,
    body0: int,
    p: int,
    acc: Seq<(Seq<u8>, Seq<u8>, Seq<u8>)>,
)
    requires
        methods_progress(s, body0, p, acc),
        0 <= p <= s.len(),
        !(lex::ws_end(s, p) < s.len() && s[lex::ws_end(s, p)] == '}' as u8),
        method_stmt(s, p) is None,
    ensures
        service_methods(s, body0) is None,
{
    assert(service_methods(s, p) is None);
}

/// At the closing brace the loop relation closes the body's denotation.
pub proof fn lemma_methods_close(
    s: Seq<u8>,
    body0: int,
    p: int,
    acc: Seq<(Seq<u8>, Seq<u8>, Seq<u8>)>,
)
    requires
        methods_progress(s, body0, p, acc),
        0 <= p <= s.len(),
        lex::ws_end(s, p) < s.len() && s[lex::ws_end(s, p)] == '}' as u8,
    ensures
        service_methods(s, body0) == Some((lex::ws_end(s, p) + 1, acc)),
{
    assert(service_methods(s, p) == Some(
        (lex::ws_end(s, p) + 1, Seq::<(Seq<u8>, Seq<u8>, Seq<u8>)>::empty()),
    ));
    assert(acc + Seq::<(Seq<u8>, Seq<u8>, Seq<u8>)>::empty() =~= acc);
}

/// Method denotations distribute over appending one method.
pub proof fn lemma_method_views_push(ms: Seq<MethodDescriptor>, md: MethodDescriptor)
    ensures
        method_views(ms.push(md)) == method_views(ms) + seq![method_view(md)],
{
    assert(method_views(ms.push(md)) =~= method_views(ms) + seq![method_view(md)]);
}

/// An empty collection of top-level items.
pub open spec fn no_items() -> ItemsView {
    ItemsView {
        deps: Seq::empty(),
        pkgs: Seq::empty(),
        msgs: Seq::empty(),
        enums: Seq::empty(),
        svcs: Seq::empty(),
    }
}

/// The denotation of the statement loop's state: the collected statements
/// as an item collection.
pub open spec fn acc_of(
    deps: Seq<Vec<u8>>,
    pkg: Option<Vec<u8>>,
    msgs: Seq<MessageDescriptor>,
    enums: Seq<EnumDescriptor>,
    svcs: Seq<ServiceDescriptor>,
) -> ItemsView {
    ItemsView {
        deps: byte_views(deps),
        pkgs: pkg_seq(pkg),
        msgs: msg_views(msgs),
        enums: enum_views(enums),
        svcs: svc_views(svcs),
    }
}

/// The loop relation of the file's statement loop: the statements consumed
/// so far denote `acc`, and whatever the rest yields from `p` completes
/// them.
pub open spec fn items_progress(s: Seq<u8>, items0: int, p: int, acc: ItemsView) -> bool {
    match file_items(s, p) {
        Option::None => file_items(s, items0) is None,
        Option::Some(r) => file_items(s, items0) matches Some(t) && t.0 == r.0 && t.1.deps
            == acc.deps + r.1.deps && t.1.pkgs == acc.pkgs + r.1.pkgs && t.1.msgs == acc.msgs
            + r.1.msgs && t.1.enums == acc.enums + r.1.enums && t.1.svcs == acc.svcs + r.1.svcs,
    }
}

/// At the start of the statement loop nothing was consumed yet.
pub proof fn lemma_items_init(s: Seq<u8>, items0: int)
    ensures
        items_progress(s, items0, items0, no_items()),
{
    match file_items(s, items0) {
        Option::Some(r) => {
            assert(Seq::<Seq<u8>>::empty() + r.1.deps =~= r.1.deps);
            assert(Seq::<Seq<u8>>::empty() + r.1.pkgs =~= r.1.pkgs);
            assert(Seq::<MsgView>::empty() + r.1.msgs =~= r.1.msgs);
            assert(Seq::<EnumView>::empty() + r.1.enums =~= r.1.enums);
            assert(Seq::<SvcView>::empty() + r.1.svcs =~= r.1.svcs);
        },
        Option::None => {},
    }
}

/// The guards telling which statement the loop dispatches to at `p`.
pub open spec fn no_import_here(s: Seq<u8>, p: int) -> bool {
    import_stmt(s, locate_start_pos(s, p)) is None
}

/// Consuming one import statement extends the loop relation.
pub proof fn lemma_items_import(
    s: Seq<u8>,
    items0: int,
    p: int,
    acc: ItemsView,
    st: (int, Seq<u8>),
)
    requires
        items_progress(s, items0, p, acc),
        0 <= p <= s.len(),
        import_stmt(s, locate_start_pos(s, p)) == Some(st),
    ensures
        items_progress(
            s,
            items0,
            lex::ws_end(s, st.0),
            ItemsView { deps: acc.deps + seq![st.1], ..acc },
        ),
{
    match file_items(s, lex::ws_end(s, st.0)) {
        Option::Some(r1) => {
            assert(file_items(s, p) matches Some(r0) && r0.0 == r1.0 && r0.1.deps == seq![st.1]
                + r1.1.deps && r0.1.pkgs == r1.1.pkgs && r0.1.msgs == r1.1.msgs && r0.1.enums
                == r1.1.enums && r0.1.svcs == r1.1.svcs);
            assert(acc.deps + (seq![st.1] + r1.1.deps) =~= (acc.deps + seq![st.1]) + r1.1.deps);
        },
        Option::None => {
            assert(file_items(s, p) is None);
        },
    }
}

/// Consuming one package statement extends the loop relation.
pub proof fn lemma_items_package(
    s: Seq<u8>,
    items0: int,
    p: int,
    acc: ItemsView,
    st: (int, Seq<u8>),
)
    requires
        items_progress(s, items0, p, acc),
        0 <= p <= s.len(),
        no_import_here(s, p),
        package_stmt(s, locate_start_pos(s, p)) == Some(st),
    ensures
        items_progress(
            s,
            items0,
            lex::ws_end(s, st.0),
            ItemsView { pkgs: acc.pkgs + seq![st.1], ..acc },
        ),
{
    match file_items(s, lex::ws_end(s, st.0)) {
        Option::Some(r1) => {
            assert(file_items(s, p) matches Some(r0) && r0.0 == r1.0 && r0.1.pkgs == seq![st.1]
                + r1.1.pkgs && r0.1.deps == r1.1.deps && r0.1.msgs == r1.1.msgs && r0.1.enums
                == r1.1.enums && r0.1.svcs == r1.1.svcs);
            assert(acc.pkgs + (seq![st.1] + r1.1.pkgs) =~= (acc.pkgs + seq![st.1]) + r1.1.pkgs);
        },
        Option::None => {
            assert(file_items(s, p) is None);
        },
    }
}

/// A second package statement makes the whole loop yield two or more
/// packages, or nothing at all.
pub proof fn lemma_items_second_package(s: Seq<u8>, items0: int, p: int, acc: ItemsView)
    requires
        items_progress(s, items0, p, acc),
        0 <= p <= s.len(),
        no_import_here(s, p),
        package_stmt(s, locate_start_pos(s, p)) is Some,
        acc.pkgs.len() >= 1,
    ensures
        match file_items(s, items0) {
            Option::Some(t) => t.1.pkgs.len() >= 2,
            Option::None => true,
        },
{
    match file_items(s, p) {
        Option::Some(r0) => {
            let st = package_stmt(s, locate_start_pos(s, p))->Some_0;
            match file_items(s, lex::ws_end(s, st.0)) {
                Option::Some(r1) => {
                    assert(r0.1.pkgs == seq![st.1] + r1.1.pkgs);
                    assert(r0.1.pkgs.len() >= 1);
                },
                Option::None => {},
            }
        },
        Option::None => {},
    }
}

/// Consuming one message extends the loop relation.
pub proof fn lemma_items_message(s: Seq<u8>, items0: int, p: int, acc: ItemsView, m: (int, MsgView))
    requires
        items_progress(s, items0, p, acc),
        0 <= p <= s.len(),
        no_import_here(s, p),
        package_stmt(s, locate_start_pos(s, p)) is None,
        lex::matches_at(s, locate_start_pos(s, p), keyword::kw_message()),
        message_stmt(s, p) == Some(m),
    ensures
        items_progress(
            s,
            items0,
            lex::ws_end(s, m.0),
            ItemsView { msgs: acc.msgs + seq![m.1], ..acc },
        ),
{
    match file_items(s, lex::ws_end(s, m.0)) {
        Option::Some(r1) => {
            assert(file_items(s, p) matches Some(r0) && r0.0 == r1.0 && r0.1.msgs == seq![m.1]
                + r1.1.msgs && r0.1.deps == r1.1.deps && r0.1.pkgs == r1.1.pkgs && r0.1.enums
                == r1.1.enums && r0.1.svcs == r1.1.svcs);
            assert(acc.msgs + (seq![m.1] + r1.1.msgs) =~= (acc.msgs + seq![m.1]) + r1.1.msgs);
        },
        Option::None => {
            assert(file_items(s, p) is None);
        },
    }
}

/// Consuming one service extends the loop relation.
pub proof fn lemma_items_service(s: Seq<u8>, items0: int, p: int, acc: ItemsView, m: (int, SvcView))
    requires
        items_progress(s, items0, p, acc),
        0 <= p <= s.len(),
        no_import_here(s, p),
        package_stmt(s, locate_start_pos(s, p)) is None,
        !lex::matches_at(s, locate_start_pos(s, p), keyword::kw_message()),
        lex::matches_at(s, locate_start_pos(s, p), keyword::kw_service()),
        service_stmt(s, p) == Some(m),
    ensures
        items_progress(
            s,
            items0,
            lex::ws_end(s, m.0),
            ItemsView { svcs: acc.svcs + seq![m.1], ..acc },
        ),
{
    match file_items(s, lex::ws_end(s, m.0)) {
        Option::Some(r1) => {
            assert(file_items(s, p) matches Some(r0) && r0.0 == r1.0 && r0.1.svcs == seq![m.1]
                + r1.1.svcs && r0.1.deps == r1.1.deps && r0.1.pkgs == r1.1.pkgs && r0.1.enums
                == r1.1.enums && r0.1.msgs == r1.1.msgs);
            assert(acc.svcs + (seq![m.1] + r1.1.svcs) =~= (acc.svcs + seq![m.1]) + r1.1.svcs);
        },
        Option::None => {
            assert(file_items(s, p) is None);
        },
    }
}

/// Consuming one enum extends the loop relation.
pub proof fn lemma_items_enum(s: Seq<u8>, items0: int, p: int, acc: ItemsView, m: (int, EnumView))
    requires
        items_progress(s, items0, p, acc),
        0 <= p <= s.len(),
        no_import_here(s, p),
        package_stmt(s, locate_start_pos(s, p)) is None,
        !lex::matches_at(s, locate_start_pos(s, p), keyword::kw_message()),
        !lex::matches_at(s, locate_start_pos(s, p), keyword::kw_service()),
        lex::matches_at(s, locate_start_pos(s, p), keyword::kw_enum()),
        enum_stmt(s, p) == Some(m),
    ensures
        items_progress(
            s,
            items0,
            lex::ws_end(s, m.0),
            ItemsView { enums: acc.enums + seq![m.1], ..acc },
        ),
{
    match file_items(s, lex::ws_end(s, m.0)) {
        Option::Some(r1) => {
            assert(file_items(s, p) matches Some(r0) && r0.0 == r1.0 && r0.1.enums == seq![m.1]
                + r1.1.enums && r0.1.deps == r1.1.deps && r0.1.pkgs == r1.1.pkgs && r0.1.msgs
                == r1.1.msgs && r0.1.svcs == r1.1.svcs);
            assert(acc.enums + (seq![m.1] + r1.1.enums) =~= (acc.enums + seq![m.1]) + r1.1.enums);
        },
        Option::None => {
            assert(file_items(s, p) is None);
        },
    }
}

/// When a statement keyword matched but its statement yields nothing, the
/// whole loop yields nothing.
pub proof fn lemma_items_hard_none(s: Seq<u8>, items0: int, p: int, acc: ItemsView)
    requires
        items_progress(s, items0, p, acc),
        0 <= p <= s.len(),
        no_import_here(s, p),
        (package_stmt(s, locate_start_pos(s, p)) is None),
        ((lex::matches_at(s, locate_start_pos(s, p), keyword::kw_message()) && message_stmt(s, p)
            is None) || (!lex::matches_at(s, locate_start_pos(s, p), keyword::kw_message())
            && lex::matches_at(s, locate_start_pos(s, p), keyword::kw_service()) && service_stmt(
            s,
            p,
        ) is None) || (!lex::matches_at(s, locate_start_pos(s, p), keyword::kw_message())
            && !lex::matches_at(s, locate_start_pos(s, p), keyword::kw_service())
            && lex::matches_at(s, locate_start_pos(s, p), keyword::kw_enum()) && enum_stmt(s, p)
            is None)),
    ensures
        (file_items(s, items0) is None),
{
    assert(file_items(s, p) is None);
}

/// When no statement starts, the loop relation closes the items.
pub proof fn lemma_items_terminal(s: Seq<u8>, items0: int, p: int, acc: ItemsView)
    requires
        items_progress(s, items0, p, acc),
        0 <= p <= s.len(),
        no_import_here(s, p),
        (package_stmt(s, locate_start_pos(s, p)) is None),
        !lex::matches_at(s, locate_start_pos(s, p), keyword::kw_message()),
        !lex::matches_at(s, locate_start_pos(s, p), keyword::kw_service()),
        !lex::matches_at(s, locate_start_pos(s, p), keyword::kw_enum()),
    ensures
        (file_items(s, items0) matches Some(t) && t.0 == p && t.1 =~~= acc),
{
    assert(file_items(s, p) == Some((p, no_items())));
    match file_items(s, items0) {
        Option::Some(t) => {
            assert(acc.deps + Seq::<Seq<u8>>::empty() =~= acc.deps);
            assert(acc.pkgs + Seq::<Seq<u8>>::empty() =~= acc.pkgs);
            assert(acc.msgs + Seq::<MsgView>::empty() =~= acc.msgs);
            assert(acc.enums + Seq::<EnumView>::empty() =~= acc.enums);
            assert(acc.svcs + Seq::<SvcView>::empty() =~= acc.svcs);
            assert(t.1 =~~= acc);
        },
        Option::None => {},
    }
}

/// Dependency views distribute over appending one path.
pub proof fn lemma_byte_views_push(ds: Seq<Vec<u8>>, d: Vec<u8>)
    ensures
        byte_views(ds.push(d)) == byte_views(ds) + seq![d@],
{
    assert(byte_views(ds.push(d)) =~= byte_views(ds) + seq![d@]);
}

/// Message views distribute over appending one message.
pub proof fn lemma_msg_views_push(ms: Seq<MessageDescriptor>, m: MessageDescriptor)
    ensures
        msg_views(ms.push(m)) == msg_views(ms) + seq![msg_view(m)],
{
    assert(msg_views(ms.push(m)) =~= msg_views(ms) + seq![msg_view(m)]);
}

/// Enum views distribute over appending one enum.
pub proof fn lemma_enum_views_push(es: Seq<EnumDescriptor>, e: EnumDescriptor)
    ensures
        enum_views(es.push(e)) == enum_views(es) + seq![enum_view(e)],
{
    assert(enum_views(es.push(e)) =~= enum_views(es) + seq![enum_view(e)]);
}

/// Service views distribute over appending one service.
pub proof fn lemma_svc_views_push(ss: Seq<ServiceDescriptor>, sd: ServiceDescriptor)
    ensures
        svc_views(ss.push(sd)) == svc_views(ss) + seq![svc_view(sd)],
{
    assert(svc_views(ss.push(sd)) =~= svc_views(ss) + seq![svc_view(sd)]);
}

} // verus!
