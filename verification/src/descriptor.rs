//! The descriptor tree produced by the parser: plain records mirroring the
//! canonical Protocol Buffers descriptor fields that this parser populates.
//! All text is held as bytes of the source it was read from.

use vstd::prelude::*;

verus! {

/// One recorded source location: the path of field tags leading to a
/// descriptor node, the node's span in the source, and its comments.
///
/// A completed span holds `[start_line, start_col, end_line, end_col]`, or
/// `[start_line, start_col, end_col]` when the node starts and ends on one
/// line; lines and columns are zero-based.  A placeholder whose recording
/// was never completed holds only `[start_line, start_col]`.
#[derive(Clone, Debug, PartialEq)]
pub struct Location {
    pub path: Vec<i32>,
    pub span: Vec<i32>,
    pub leading_comments: Option<Vec<u8>>,
    pub trailing_comments: Option<Vec<u8>>,
    pub leading_detached_comments: Vec<Vec<u8>>,
}

/// A message field: name, number, scalar type tag, and, for members of a
/// oneof, the index of the oneof declaration in the enclosing message.
#[derive(Clone, Debug, PartialEq)]
pub struct FieldDescriptor {
    pub name: Vec<u8>,
    pub number: i32,
    pub field_type: i32,
    pub oneof_index: Option<i32>,
}

/// A oneof declaration inside a message.
#[derive(Clone, Debug, PartialEq)]
pub struct OneofDescriptor {
    pub name: Vec<u8>,
}

/// A message: its name, its fields in source order, and its oneof
/// declarations in source order.
#[derive(Clone, Debug, PartialEq)]
pub struct MessageDescriptor {
    pub name: Vec<u8>,
    pub field: Vec<FieldDescriptor>,
    pub oneof_decl: Vec<OneofDescriptor>,
}

/// One enumerator of an enum: name and number.
#[derive(Clone, Debug, PartialEq)]
pub struct EnumValueDescriptor {
    pub name: Vec<u8>,
    pub number: i32,
}

/// An enum: its name and its values in source order.
#[derive(Clone, Debug, PartialEq)]
pub struct EnumDescriptor {
    pub name: Vec<u8>,
    pub value: Vec<EnumValueDescriptor>,
}

/// An rpc method: its name and the names of its input and output types.
/// After cross-file resolution both type names are fully qualified and begin
/// with a dot.
#[derive(Clone, Debug, PartialEq)]
pub struct MethodDescriptor {
    pub name: Vec<u8>,
    pub input_type: Vec<u8>,
    pub output_type: Vec<u8>,
}

/// A service: its name and its methods in source order.
#[derive(Clone, Debug, PartialEq)]
pub struct ServiceDescriptor {
    pub name: Vec<u8>,
    pub method: Vec<MethodDescriptor>,
}

/// A file descriptor: everything parsed from one `.proto` file, together
/// with the ledger of completed source locations.
#[derive(Clone, Debug, PartialEq)]
pub struct FileDescriptor {
    pub name: Vec<u8>,
    pub syntax: Vec<u8>,
    pub package: Option<Vec<u8>>,
    pub dependency: Vec<Vec<u8>>,
    pub message_type: Vec<MessageDescriptor>,
    pub enum_type: Vec<EnumDescriptor>,
    pub service: Vec<ServiceDescriptor>,
    pub source_code_info: Vec<Location>,
}

/// The result of parsing and resolving a set of files.
#[derive(Clone, Debug, PartialEq)]
pub struct FileDescriptorSet {
    pub file: Vec<FileDescriptor>,
}

} // verus!
