//! Failure cases: each error kind on an input that provokes it, field
//! number limits, and the resolver applied a second time.

use proto_parse::descriptor::FileDescriptor;
use proto_parse::error::ErrorKind;
use proto_parse::resolve_files;
use proto_parse::{parse, InputFile, ParsedFile};

fn bytes(s: &str) -> Vec<u8> {
    s.as_bytes().to_vec()
}

fn parse_one(text: &str) -> Result<proto_parse::descriptor::FileDescriptorSet, proto_parse::error::ParseError> {
    parse(vec![InputFile {
        path: bytes("test.proto"),
        name: bytes("test.proto"),
        text: bytes(text),
    }])
}

#[test]
fn missing_syntax_statement() {
    let err = parse_one(r#"message M {}"#).unwrap_err();
    assert_eq!(ErrorKind::SyntaxMissing, err.kind);
}

#[test]
fn second_package_is_rejected() {
    let err = parse_one(r#"syntax = "proto3"; package a; package b;"#).unwrap_err();
    assert_eq!(ErrorKind::DuplicatePackage, err.kind);
}

#[test]
fn unknown_field_type() {
    let err = parse_one(r#"syntax = "proto3"; message M { widget w = 1; }"#).unwrap_err();
    assert_eq!(ErrorKind::UnknownType, err.kind);
    assert_eq!(1, err.line);
    assert_eq!(32, err.col);
}

#[test]
fn malformed_field_statement() {
    let err = parse_one(r#"syntax = "proto3"; message M { string s }"#).unwrap_err();
    assert_eq!(ErrorKind::MalformedStatement, err.kind);
}

#[test]
fn empty_enum_is_rejected() {
    let err = parse_one(r#"syntax = "proto3"; enum E { }"#).unwrap_err();
    assert_eq!(ErrorKind::MalformedStatement, err.kind);
}

#[test]
fn residual_input_is_rejected() {
    let err = parse_one(r#"syntax = "proto3"; garbage"#).unwrap_err();
    assert_eq!(ErrorKind::UnconsumedInput, err.kind);
}

#[test]
fn unresolvable_rpc_type() {
    let err = parse_one(r#"syntax = "proto3"; service S { rpc F(Missing) returns (Missing); }"#)
        .unwrap_err();
    assert_eq!(ErrorKind::TypeNotFound, err.kind);
}

#[test]
fn absolute_type_must_exist() {
    let err = parse_one(
        r#"syntax = "proto3"; message A {} service S { rpc F(.q.B) returns (.q.B); }"#,
    )
    .unwrap_err();
    assert_eq!(ErrorKind::TypeNotFound, err.kind);
}

#[test]
fn field_number_extremes() {
    let set = parse_one(
        r#"syntax = "proto3"; message M { int32 a = 2147483647; sint64 b = -7; }"#,
    )
    .unwrap();
    let m = &set.file[0].message_type[0];
    assert_eq!(2147483647, m.field[0].number);
    assert_eq!(-7, m.field[1].number);
    assert_eq!(18, m.field[1].field_type);
}

#[test]
fn field_number_overflow_is_rejected() {
    let err = parse_one(r#"syntax = "proto3"; message M { int32 a = 2147483648; }"#).unwrap_err();
    assert_eq!(ErrorKind::MalformedStatement, err.kind);
}

#[test]
fn resolver_is_idempotent() {
    fn types_of(files: &[ParsedFile]) -> Vec<(Vec<u8>, Vec<u8>)> {
        let mut out = Vec::new();
        for f in files {
            for s in &f.descriptor.service {
                for m in &s.method {
                    out.push((m.input_type.clone(), m.output_type.clone()));
                }
            }
        }
        out
    }
    let set = parse(vec![
        InputFile {
            path: bytes("a.proto"),
            name: bytes("a.proto"),
            text: bytes(r#"syntax = "proto3"; package p; message Empty{}"#),
        },
        InputFile {
            path: bytes("b.proto"),
            name: bytes("b.proto"),
            text: bytes(
                r#"syntax = "proto3"; package p; service S { rpc F(Empty) returns (.p.Empty); }"#,
            ),
        },
    ])
    .unwrap();
    let once: Vec<ParsedFile> = set
        .file
        .into_iter()
        .enumerate()
        .map(|(i, descriptor): (usize, FileDescriptor)| ParsedFile {
            path: if i == 0 { bytes("a.proto") } else { bytes("b.proto") },
            descriptor,
        })
        .collect();
    let expected = types_of(&once);
    let twice = resolve_files(once).unwrap();
    assert_eq!(expected, types_of(&twice));
    assert_eq!(vec![(bytes(".p.Empty"), bytes(".p.Empty"))], types_of(&twice));
}

#[test]
fn service_with_no_methods() {
    let set = parse_one(r#"syntax = "proto3"; service S {}"#).unwrap();
    let svc = &set.file[0].service[0];
    assert_eq!(bytes("S"), svc.name);
    assert!(svc.method.is_empty());
}

#[test]
fn proto2_syntax_is_accepted() {
    let set = parse_one(r#"syntax = "proto2";"#).unwrap();
    assert_eq!(bytes("proto2"), set.file[0].syntax);
}
