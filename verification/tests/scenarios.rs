//! End-to-end scenarios: whole files through the set driver, the emitted
//! location ledger, and cross-file type resolution.

use proto_parse::descriptor::FileDescriptorSet;
use proto_parse::parse;
use proto_parse::InputFile;

fn bytes(s: &str) -> Vec<u8> {
    s.as_bytes().to_vec()
}

fn one_file(text: &str) -> FileDescriptorSet {
    parse(vec![InputFile {
        path: bytes("test.proto"),
        name: bytes("test.proto"),
        text: bytes(text),
    }])
    .unwrap()
}

fn paths_of(set: &FileDescriptorSet) -> Vec<Vec<i32>> {
    set.file[0]
        .source_code_info
        .iter()
        .map(|l| l.path.clone())
        .collect()
}

#[test]
fn syntax_only_file() {
    let set = one_file(r#"syntax = "proto3";"#);
    let fd = &set.file[0];
    assert_eq!(bytes("proto3"), fd.syntax);
    assert_eq!(None, fd.package);
    assert!(fd.dependency.is_empty());
    assert!(fd.message_type.is_empty());
    assert!(fd.enum_type.is_empty());
    assert!(fd.service.is_empty());
    let paths = paths_of(&set);
    assert_eq!(vec![Vec::<i32>::new(), vec![12]], paths);
}

#[test]
fn syntax_and_package_locations() {
    let set = one_file(r#"syntax = "proto3"; package a.b;"#);
    let fd = &set.file[0];
    assert_eq!(Some(bytes("a.b")), fd.package);
    let paths = paths_of(&set);
    assert_eq!(vec![Vec::<i32>::new(), vec![12], vec![2]], paths);
}

#[test]
fn message_field_locations() {
    let set = one_file(r#"syntax = "proto3"; message M { string s = 1; int32 n = 2; }"#);
    let fd = &set.file[0];
    assert_eq!(1, fd.message_type.len());
    let m = &fd.message_type[0];
    assert_eq!(bytes("M"), m.name);
    assert_eq!(2, m.field.len());
    assert_eq!(bytes("s"), m.field[0].name);
    assert_eq!(9, m.field[0].field_type);
    assert_eq!(1, m.field[0].number);
    assert_eq!(bytes("n"), m.field[1].name);
    assert_eq!(5, m.field[1].field_type);
    assert_eq!(2, m.field[1].number);
    let paths = paths_of(&set);
    assert_eq!(
        vec![
            Vec::<i32>::new(),
            vec![12],
            vec![4, 0],
            vec![4, 0, 1],
            vec![4, 0, 2, 0],
            vec![4, 0, 2, 1],
        ],
        paths
    );
}

#[test]
fn oneof_fields_carry_their_index() {
    let set = one_file(r#"syntax = "proto3"; message M { oneof k { string a = 1; int32 b = 2; } }"#);
    let m = &set.file[0].message_type[0];
    assert_eq!(1, m.oneof_decl.len());
    assert_eq!(bytes("k"), m.oneof_decl[0].name);
    assert_eq!(2, m.field.len());
    assert_eq!(Some(0), m.field[0].oneof_index);
    assert_eq!(Some(0), m.field[1].oneof_index);
    assert_eq!(bytes("a"), m.field[0].name);
    assert_eq!(bytes("b"), m.field[1].name);
}

#[test]
fn enum_values_in_order() {
    let set = one_file(r#"syntax = "proto3"; enum E { A = 0; B = 1; }"#);
    let e = &set.file[0].enum_type[0];
    assert_eq!(bytes("E"), e.name);
    assert_eq!(2, e.value.len());
    assert_eq!(bytes("A"), e.value[0].name);
    assert_eq!(0, e.value[0].number);
    assert_eq!(bytes("B"), e.value[1].name);
    assert_eq!(1, e.value[1].number);
}

#[test]
fn cross_file_resolution() {
    let a = InputFile {
        path: bytes("a.proto"),
        name: bytes("a.proto"),
        text: bytes(r#"syntax = "proto3"; package p; message Empty{}"#),
    };
    let b = InputFile {
        path: bytes("b.proto"),
        name: bytes("b.proto"),
        text: bytes(
            r#"syntax = "proto3"; package p; import "a.proto"; service S { rpc F(Empty) returns (Empty); }"#,
        ),
    };
    let set = parse(vec![a, b]).unwrap();
    assert_eq!(2, set.file.len());
    assert_eq!(bytes("a.proto"), set.file[0].name);
    assert_eq!(bytes("b.proto"), set.file[1].name);
    let svc = &set.file[1].service[0];
    assert_eq!(bytes("S"), svc.name);
    let f = &svc.method[0];
    assert_eq!(bytes("F"), f.name);
    assert_eq!(bytes(".p.Empty"), f.input_type);
    assert_eq!(bytes(".p.Empty"), f.output_type);
}

#[test]
fn service_locations_and_method_paths() {
    let set = one_file(
        r#"syntax = "proto3"; message A {} service S { rpc F(A) returns (A); rpc G(A) returns (A); }"#,
    );
    let paths = paths_of(&set);
    assert_eq!(
        vec![
            Vec::<i32>::new(),
            vec![12],
            vec![4, 0],
            vec![4, 0, 1],
            vec![6, 0],
            vec![6, 0, 1],
            vec![6, 0, 2, 0],
            vec![6, 0, 2, 0, 1],
            vec![6, 0, 2, 0, 2],
            vec![6, 0, 2, 0, 3],
            vec![6, 0, 2, 1],
            vec![6, 0, 2, 1, 1],
            vec![6, 0, 2, 1, 2],
            vec![6, 0, 2, 1, 3],
        ],
        paths
    );
}

#[test]
fn sibling_indices_stay_dense() {
    let set = one_file(
        r#"syntax = "proto3"; import "x.proto"; import "y.proto"; message A {} message B {} enum E { V = 0; } message C {}"#,
    );
    let fd = &set.file[0];
    assert_eq!(vec![bytes("x.proto"), bytes("y.proto")], fd.dependency);
    let paths = paths_of(&set);
    assert_eq!(
        vec![
            Vec::<i32>::new(),
            vec![12],
            vec![3, 0],
            vec![3, 1],
            vec![4, 0],
            vec![4, 0, 1],
            vec![4, 1],
            vec![4, 1, 1],
            vec![5, 0],
            vec![4, 2],
            vec![4, 2, 1],
        ],
        paths
    );
}

#[test]
fn spans_cover_their_statements() {
    let set = one_file("syntax = \"proto3\";\nmessage M {\n  string s = 1;\n}\n");
    let info = &set.file[0].source_code_info;
    // the root runs to the position after the final newline
    assert_eq!(vec![0, 0, 4, 0], info[0].span);
    // the syntax statement sits on line 0
    assert_eq!(vec![0, 0, 18], info[1].span);
    // the message crosses lines 1 to 3
    assert_eq!(vec![1, 0, 3, 1], info[2].span);
    // its name sits on line 1
    assert_eq!(vec![1, 8, 9], info[3].span);
    // the field sits on line 2
    assert_eq!(vec![2, 2, 15], info[4].span);
}

#[test]
fn comments_attach_by_blank_line() {
    let set = one_file(
        "syntax = \"proto3\";\n// detached note\n\n// attached note\nmessage M {}\n",
    );
    let info = &set.file[0].source_code_info;
    // the message location is the third completed entry
    let m = &info[2];
    assert_eq!(vec![4, 0], m.path);
    assert_eq!(Some(b" attached note".to_vec()), m.leading_comments);
    assert_eq!(vec![b" detached note".to_vec()], m.leading_detached_comments);
    assert_eq!(None, m.trailing_comments);
}
