//! The parser's unit tests: comments, leaf statements, messages, services
//! and the recorder's path assignment.

use proto_parse::comment;
use proto_parse::cursor::Cursor;
use proto_parse::descriptor::{
    EnumDescriptor, EnumValueDescriptor, FieldDescriptor, MessageDescriptor, MethodDescriptor,
    OneofDescriptor, ServiceDescriptor,
};
use proto_parse::enums;
use proto_parse::import::{self, Import};
use proto_parse::message;
use proto_parse::package::{self, Package};
use proto_parse::service;
use proto_parse::source::{LocationRecorder, Tag};
use proto_parse::syntax::{self, Syntax};

fn bytes(s: &str) -> Vec<u8> {
    s.as_bytes().to_vec()
}

#[test]
fn parses_slash_style_line_comment() {
    let comment = "Testing testing 123".to_string();
    let input = bytes(&format!(r#"//{comment}"#));
    let result = comment::parse(&input, Cursor::start()).unwrap();
    assert_eq!(bytes(&comment), result.1);
}

#[test]
fn parses_doc_style_line_comment() {
    let comment = "Testing testing 123".to_string();
    let input = bytes(&format!(r#"/*{comment}*/"#));
    let result = comment::parse(&input, Cursor::start()).unwrap();
    assert_eq!(bytes(&comment), result.1);
}

#[test]
fn parses_attached_comment() {
    let comment = "Testing attached comment".to_string();
    let input = bytes(&format!(
        r#"
            //{comment}
            message Foo {{}}
            "#
    ));
    let (rest, result) = comment::parse(&input, Cursor::start()).unwrap();
    assert!(rest.pos < input.len());
    assert_eq!(bytes(&comment), result);
}

#[test]
fn parses_detached_comment() {
    let comment = "Testing detached comment".to_string();
    let input = bytes(&format!(
        r#"
            //{comment}

            message Foo {{}}
            "#
    ));
    let (rest, result) = comment::parse(&input, Cursor::start()).unwrap();
    assert!(rest.pos < input.len());
    assert_eq!(bytes(&comment), result);
}

#[test]
fn parses_multiple_comments() {
    let comment = "Testing comments of all kind".to_string();
    let input = bytes(&format!(
        r#"
            //{comment}

            //{comment}

            //{comment}
            message Foo {{}}
            "#
    ));
    let (rest, result) = comment::parse_many(&input, Cursor::start());
    assert!(rest.pos < input.len());
    assert_eq!(
        vec![bytes(&comment), bytes(&comment), bytes(&comment)],
        result
    );
}

#[test]
fn parses_valid_enum() {
    let name = "Testing".to_string();
    let first = "FIRST".to_string();
    let second = "SECOND".to_string();
    let input = bytes(&format!(
        r#"enum {name} {{
               {first} = 0;
               {second} = 1;
           }}"#
    ));
    let enum_type = EnumDescriptor {
        name: bytes(&name),
        value: vec![
            EnumValueDescriptor { name: bytes(&first), number: 0 },
            EnumValueDescriptor { name: bytes(&second), number: 1 },
        ],
    };
    let mut rec = LocationRecorder::new();
    let result = enums::parse(&input, Cursor::start(), &mut rec).unwrap().unwrap();
    assert_eq!(enum_type, result.1);
}

#[test]
fn parses_valid_import() {
    let import = Import::new(bytes("google/api/annotations.proto"));
    let input = bytes(&format!(r#"import "google/api/annotations.proto";"#));
    let mut rec = LocationRecorder::new();
    let result = import::parse(&input, Cursor::start(), &mut rec).unwrap();
    assert_eq!(import, result.1);
}

#[test]
fn generates_correct_empty_message_paths() {
    let name = "Testing".to_string();
    let input = bytes(&format!(
        r#"message {name} {{
           }}"#
    ));
    let expected = vec![vec![4, 0], vec![4, 0, 1]];
    let mut rec = LocationRecorder::new();
    message::parse(&input, Cursor::start(), &mut rec).unwrap().unwrap();
    let actual: Vec<Vec<i32>> = rec
        .into_inner()
        .into_iter()
        .map(|location| location.path)
        .collect();
    assert_eq!(expected, actual);
}

#[test]
fn generates_message_field_paths() {
    let mut rec = LocationRecorder::new();
    let cursor = Cursor::start();
    rec.record_location_start(cursor, Tag::Root);
    let expected: Vec<Vec<i32>> = vec![vec![], vec![4, 0], vec![4, 0, 1]];
    rec.record_location_start(cursor, Tag::MessageType);
    rec.record_location_start(cursor, Tag::Name);
    let actual: Vec<Vec<i32>> = rec
        .locations
        .iter()
        .map(|location| location.path.clone())
        .collect();
    assert_eq!(expected, actual);
}

#[test]
fn parses_valid_scalar_message() {
    let name = "Testing".to_string();
    let first = "first_field".to_string();
    let second = "second_field".to_string();
    let input = bytes(&format!(
        r#"message {name} {{
               string {first} = 1;
               int32 {second} = 2;
           }}"#
    ));
    let expected = MessageDescriptor {
        name: bytes(&name),
        field: vec![
            FieldDescriptor {
                name: bytes(&first),
                number: 1,
                field_type: 9,
                oneof_index: None,
            },
            FieldDescriptor {
                name: bytes(&second),
                number: 2,
                field_type: 5,
                oneof_index: None,
            },
        ],
        oneof_decl: vec![],
    };
    let mut rec = LocationRecorder::new();
    let actual = message::parse(&input, Cursor::start(), &mut rec).unwrap().unwrap();
    assert_eq!(expected, actual.1);
}

#[test]
fn parses_empty_message() {
    let name = "Testing".to_string();
    let input = bytes(&format!(
        r#"message {name} {{
        }}"#
    ));
    let expected = MessageDescriptor { name: bytes(&name), field: vec![], oneof_decl: vec![] };
    let mut rec = LocationRecorder::new();
    let actual = message::parse(&input, Cursor::start(), &mut rec).unwrap().unwrap();
    assert_eq!(expected, actual.1);
}

#[test]
fn parses_valid_oneof_field() {
    let name = "Testing".to_string();
    let one_of = "test_oneof".to_string();
    let left = "name".to_string();
    let right = "id".to_string();
    let input = bytes(&format!(
        r#"message {name} {{
             oneof {one_of} {{
                 string {left} = 1;
                 int32 {right} = 2;
             }}
           }}"#
    ));
    let expected = MessageDescriptor {
        name: bytes(&name),
        oneof_decl: vec![OneofDescriptor { name: bytes(&one_of) }],
        field: vec![
            FieldDescriptor {
                name: bytes(&left),
                number: 1,
                field_type: 9,
                oneof_index: Some(0),
            },
            FieldDescriptor {
                name: bytes(&right),
                number: 2,
                field_type: 5,
                oneof_index: Some(0),
            },
        ],
    };
    let mut rec = LocationRecorder::new();
    let actual = message::parse(&input, Cursor::start(), &mut rec).unwrap().unwrap();
    assert_eq!(expected, actual.1);
}

#[test]
fn parses_valid_package() {
    let package = Package::new(bytes("testing.v1"));
    let input = bytes(r#"package testing.v1;"#);
    let mut rec = LocationRecorder::new();
    let result = package::parse(&input, Cursor::start(), &mut rec).unwrap();
    assert_eq!(package, result.1);
}

#[test]
fn parses_valid_service() {
    let name = "Test".to_string();
    let method = "GetTest".to_string();
    let empty = "google.protobuf.Empty".to_string();
    let input = bytes(&format!(
        r#"
        service {name} {{
            rpc {method} ({empty}) returns ({empty});
        }}
    "#
    ));
    let expected = ServiceDescriptor {
        name: bytes(&name),
        method: vec![MethodDescriptor {
            name: bytes(&method),
            input_type: bytes(&empty),
            output_type: bytes(&empty),
        }],
    };
    let mut rec = LocationRecorder::new();
    let actual = service::parse(&input, Cursor::start(), &mut rec).unwrap().unwrap();
    assert_eq!(expected, actual.1);
}

#[test]
fn handles_root_path() {
    let mut rec = LocationRecorder::new();
    rec.record_location_start(Cursor::start(), Tag::Root);
    let expected: Vec<i32> = Vec::new();
    assert_eq!(expected, rec.locations[0].path);
}

#[test]
fn parses_valid_syntax() {
    let input = bytes(r#"syntax = "proto3";"#);
    let mut rec = LocationRecorder::new();
    let result = syntax::parse(&input, Cursor::start(), &mut rec).unwrap();
    assert_eq!(Syntax::Proto3, result.1);
}
