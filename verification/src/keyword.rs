//! The grammar's keywords as byte sequences, and the mapping from scalar
//! type keywords to their canonical descriptor type tags.

use vstd::prelude::*;

verus! {

/// The bytes of `syntax`.
pub open spec fn kw_syntax() -> Seq<u8> {
    seq!['s' as u8, 'y' as u8, 'n' as u8, 't' as u8, 'a' as u8, 'x' as u8]
}

/// The bytes of `syntax`, as a vector.
pub fn kw_syntax_v() -> (v: Vec<u8>)
    ensures
        v@ == kw_syntax(),
{
    let v: Vec<u8> = vec!['s' as u8, 'y' as u8, 'n' as u8, 't' as u8, 'a' as u8, 'x' as u8];
    proof {
        assert(v@ =~= kw_syntax());
    }
    v
}

/// The bytes of `proto2`.
pub open spec fn kw_proto2() -> Seq<u8> {
    seq!['p' as u8, 'r' as u8, 'o' as u8, 't' as u8, 'o' as u8, '2' as u8]
}

/// The bytes of `proto2`, as a vector.
pub fn kw_proto2_v() -> (v: Vec<u8>)
    ensures
        v@ == kw_proto2(),
{
    let v: Vec<u8> = vec!['p' as u8, 'r' as u8, 'o' as u8, 't' as u8, 'o' as u8, '2' as u8];
    proof {
        assert(v@ =~= kw_proto2());
    }
    v
}

/// The bytes of `proto3`.
pub open spec fn kw_proto3() -> Seq<u8> {
    seq!['p' as u8, 'r' as u8, 'o' as u8, 't' as u8, 'o' as u8, '3' as u8]
}

/// The bytes of `proto3`, as a vector.
pub fn kw_proto3_v() -> (v: Vec<u8>)
    ensures
        v@ == kw_proto3(),
{
    let v: Vec<u8> = vec!['p' as u8, 'r' as u8, 'o' as u8, 't' as u8, 'o' as u8, '3' as u8];
    proof {
        assert(v@ =~= kw_proto3());
    }
    v
}

/// The bytes of `package`.
pub open spec fn kw_package() -> Seq<u8> {
    seq!['p' as u8, 'a' as u8, 'c' as u8, 'k' as u8, 'a' as u8, 'g' as u8, 'e' as u8]
}

/// The bytes of `package`, as a vector.
pub fn kw_package_v() -> (v: Vec<u8>)
    ensures
        v@ == kw_package(),
{
    let v: Vec<u8> = vec!['p' as u8, 'a' as u8, 'c' as u8, 'k' as u8, 'a' as u8, 'g' as u8, 'e' as u8];
    proof {
        assert(v@ =~= kw_package());
    }
    v
}

/// The bytes of `import`.
pub open spec fn kw_import() -> Seq<u8> {
    seq!['i' as u8, 'm' as u8, 'p' as u8, 'o' as u8, 'r' as u8, 't' as u8]
}

/// The bytes of `import`, as a vector.
pub fn kw_import_v() -> (v: Vec<u8>)
    ensures
        v@ == kw_import(),
{
    let v: Vec<u8> = vec!['i' as u8, 'm' as u8, 'p' as u8, 'o' as u8, 'r' as u8, 't' as u8];
    proof {
        assert(v@ =~= kw_import());
    }
    v
}

/// The bytes of `message`.
pub open spec fn kw_message() -> Seq<u8> {
    seq!['m' as u8, 'e' as u8, 's' as u8, 's' as u8, 'a' as u8, 'g' as u8, 'e' as u8]
}

/// The bytes of `message`, as a vector.
pub fn kw_message_v() -> (v: Vec<u8>)
    ensures
        v@ == kw_message(),
{
    let v: Vec<u8> = vec!['m' as u8, 'e' as u8, 's' as u8, 's' as u8, 'a' as u8, 'g' as u8, 'e' as u8];
    proof {
        assert(v@ =~= kw_message());
    }
    v
}

/// The bytes of `oneof`.
pub open spec fn kw_oneof() -> Seq<u8> {
    seq!['o' as u8, 'n' as u8, 'e' as u8, 'o' as u8, 'f' as u8]
}

/// The bytes of `oneof`, as a vector.
pub fn kw_oneof_v() -> (v: Vec<u8>)
    ensures
        v@ == kw_oneof(),
{
    let v: Vec<u8> = vec!['o' as u8, 'n' as u8, 'e' as u8, 'o' as u8, 'f' as u8];
    proof {
        assert(v@ =~= kw_oneof());
    }
    v
}

/// The bytes of `enum`.
pub open spec fn kw_enum() -> Seq<u8> {
    seq!['e' as u8, 'n' as u8, 'u' as u8, 'm' as u8]
}

/// The bytes of `enum`, as a vector.
pub fn kw_enum_v() -> (v: Vec<u8>)
    ensures
        v@ == kw_enum(),
{
    let v: Vec<u8> = vec!['e' as u8, 'n' as u8, 'u' as u8, 'm' as u8];
    proof {
        assert(v@ =~= kw_enum());
    }
    v
}

/// The bytes of `service`.
pub open spec fn kw_service() -> Seq<u8> {
    seq!['s' as u8, 'e' as u8, 'r' as u8, 'v' as u8, 'i' as u8, 'c' as u8, 'e' as u8]
}

/// The bytes of `service`, as a vector.
pub fn kw_service_v() -> (v: Vec<u8>)
    ensures
        v@ == kw_service(),
{
    let v: Vec<u8> = vec!['s' as u8, 'e' as u8, 'r' as u8, 'v' as u8, 'i' as u8, 'c' as u8, 'e' as u8];
    proof {
        assert(v@ =~= kw_service());
    }
    v
}

/// The bytes of `rpc`.
pub open spec fn kw_rpc() -> Seq<u8> {
    seq!['r' as u8, 'p' as u8, 'c' as u8]
}

/// The bytes of `rpc`, as a vector.
pub fn kw_rpc_v() -> (v: Vec<u8>)
    ensures
        v@ == kw_rpc(),
{
    let v: Vec<u8> = vec!['r' as u8, 'p' as u8, 'c' as u8];
    proof {
        assert(v@ =~= kw_rpc());
    }
    v
}

/// The bytes of `returns`.
pub open spec fn kw_returns() -> Seq<u8> {
    seq!['r' as u8, 'e' as u8, 't' as u8, 'u' as u8, 'r' as u8, 'n' as u8, 's' as u8]
}

/// The bytes of `returns`, as a vector.
pub fn kw_returns_v() -> (v: Vec<u8>)
    ensures
        v@ == kw_returns(),
{
    let v: Vec<u8> = vec!['r' as u8, 'e' as u8, 't' as u8, 'u' as u8, 'r' as u8, 'n' as u8, 's' as u8];
    proof {
        assert(v@ =~= kw_returns());
    }
    v
}

/// The bytes of `double`.
pub open spec fn kw_double() -> Seq<u8> {
    seq!['d' as u8, 'o' as u8, 'u' as u8, 'b' as u8, 'l' as u8, 'e' as u8]
}

/// The bytes of `double`, as a vector.
pub fn kw_double_v() -> (v: Vec<u8>)
    ensures
        v@ == kw_double(),
{
    let v: Vec<u8> = vec!['d' as u8, 'o' as u8, 'u' as u8, 'b' as u8, 'l' as u8, 'e' as u8];
    proof {
        assert(v@ =~= kw_double());
    }
    v
}

/// The bytes of `float`.
pub open spec fn kw_float_name() -> Seq<u8> {
    seq!['f' as u8, 'l' as u8, 'o' as u8, 'a' as u8, 't' as u8]
}

/// The bytes of `float`, as a vector.
pub fn kw_float_name_v() -> (v: Vec<u8>)
    ensures
        v@ == kw_float_name(),
{
    let v: Vec<u8> = vec!['f' as u8, 'l' as u8, 'o' as u8, 'a' as u8, 't' as u8];
    proof {
        assert(v@ =~= kw_float_name());
    }
    v
}

/// The bytes of `int64`.
pub open spec fn kw_int64() -> Seq<u8> {
    seq!['i' as u8, 'n' as u8, 't' as u8, '6' as u8, '4' as u8]
}

/// The bytes of `int64`, as a vector.
pub fn kw_int64_v() -> (v: Vec<u8>)
    ensures
        v@ == kw_int64(),
{
    let v: Vec<u8> = vec!['i' as u8, 'n' as u8, 't' as u8, '6' as u8, '4' as u8];
    proof {
        assert(v@ =~= kw_int64());
    }
    v
}

/// The bytes of `uint64`.
pub open spec fn kw_uint64() -> Seq<u8> {
    seq!['u' as u8, 'i' as u8, 'n' as u8, 't' as u8, '6' as u8, '4' as u8]
}

/// The bytes of `uint64`, as a vector.
pub fn kw_uint64_v() -> (v: Vec<u8>)
    ensures
        v@ == kw_uint64(),
{
    let v: Vec<u8> = vec!['u' as u8, 'i' as u8, 'n' as u8, 't' as u8, '6' as u8, '4' as u8];
    proof {
        assert(v@ =~= kw_uint64());
    }
    v
}

/// The bytes of `int32`.
pub open spec fn kw_int32() -> Seq<u8> {
    seq!['i' as u8, 'n' as u8, 't' as u8, '3' as u8, '2' as u8]
}

/// The bytes of `int32`, as a vector.
pub fn kw_int32_v() -> (v: Vec<u8>)
    ensures
        v@ == kw_int32(),
{
    let v: Vec<u8> = vec!['i' as u8, 'n' as u8, 't' as u8, '3' as u8, '2' as u8];
    proof {
        assert(v@ =~= kw_int32());
    }
    v
}

/// The bytes of `fixed64`.
pub open spec fn kw_fixed64() -> Seq<u8> {
    seq!['f' as u8, 'i' as u8, 'x' as u8, 'e' as u8, 'd' as u8, '6' as u8, '4' as u8]
}

/// The bytes of `fixed64`, as a vector.
pub fn kw_fixed64_v() -> (v: Vec<u8>)
    ensures
        v@ == kw_fixed64(),
{
    let v: Vec<u8> = vec!['f' as u8, 'i' as u8, 'x' as u8, 'e' as u8, 'd' as u8, '6' as u8, '4' as u8];
    proof {
        assert(v@ =~= kw_fixed64());
    }
    v
}

/// The bytes of `fixed32`.
pub open spec fn kw_fixed32() -> Seq<u8> {
    seq!['f' as u8, 'i' as u8, 'x' as u8, 'e' as u8, 'd' as u8, '3' as u8, '2' as u8]
}

/// The bytes of `fixed32`, as a vector.
pub fn kw_fixed32_v() -> (v: Vec<u8>)
    ensures
        v@ == kw_fixed32(),
{
    let v: Vec<u8> = vec!['f' as u8, 'i' as u8, 'x' as u8, 'e' as u8, 'd' as u8, '3' as u8, '2' as u8];
    proof {
        assert(v@ =~= kw_fixed32());
    }
    v
}

/// The bytes of `bool`.
pub open spec fn kw_bool_name() -> Seq<u8> {
    seq!['b' as u8, 'o' as u8, 'o' as u8, 'l' as u8]
}

/// The bytes of `bool`, as a vector.
pub fn kw_bool_name_v() -> (v: Vec<u8>)
    ensures
        v@ == kw_bool_name(),
{
    let v: Vec<u8> = vec!['b' as u8, 'o' as u8, 'o' as u8, 'l' as u8];
    proof {
        assert(v@ =~= kw_bool_name());
    }
    v
}

/// The bytes of `string`.
pub open spec fn kw_string_name() -> Seq<u8> {
    seq!['s' as u8, 't' as u8, 'r' as u8, 'i' as u8, 'n' as u8, 'g' as u8]
}

/// The bytes of `string`, as a vector.
pub fn kw_string_name_v() -> (v: Vec<u8>)
    ensures
        v@ == kw_string_name(),
{
    let v: Vec<u8> = vec!['s' as u8, 't' as u8, 'r' as u8, 'i' as u8, 'n' as u8, 'g' as u8];
    proof {
        assert(v@ =~= kw_string_name());
    }
    v
}

/// The bytes of `bytes`.
pub open spec fn kw_bytes_name() -> Seq<u8> {
    seq!['b' as u8, 'y' as u8, 't' as u8, 'e' as u8, 's' as u8]
}

/// The bytes of `bytes`, as a vector.
pub fn kw_bytes_name_v() -> (v: Vec<u8>)
    ensures
        v@ == kw_bytes_name(),
{
    let v: Vec<u8> = vec!['b' as u8, 'y' as u8, 't' as u8, 'e' as u8, 's' as u8];
    proof {
        assert(v@ =~= kw_bytes_name());
    }
    v
}

/// The bytes of `uint32`.
pub open spec fn kw_uint32() -> Seq<u8> {
    seq!['u' as u8, 'i' as u8, 'n' as u8, 't' as u8, '3' as u8, '2' as u8]
}

/// The bytes of `uint32`, as a vector.
pub fn kw_uint32_v() -> (v: Vec<u8>)
    ensures
        v@ == kw_uint32(),
{
    let v: Vec<u8> = vec!['u' as u8, 'i' as u8, 'n' as u8, 't' as u8, '3' as u8, '2' as u8];
    proof {
        assert(v@ =~= kw_uint32());
    }
    v
}

/// The bytes of `sfixed32`.
pub open spec fn kw_sfixed32() -> Seq<u8> {
    seq!['s' as u8, 'f' as u8, 'i' as u8, 'x' as u8, 'e' as u8, 'd' as u8, '3' as u8, '2' as u8]
}

/// The bytes of `sfixed32`, as a vector.
pub fn kw_sfixed32_v() -> (v: Vec<u8>)
    ensures
        v@ == kw_sfixed32(),
{
    let v: Vec<u8> = vec!['s' as u8, 'f' as u8, 'i' as u8, 'x' as u8, 'e' as u8, 'd' as u8, '3' as u8, '2' as u8];
    proof {
        assert(v@ =~= kw_sfixed32());
    }
    v
}

/// The bytes of `sfixed64`.
pub open spec fn kw_sfixed64() -> Seq<u8> {
    seq!['s' as u8, 'f' as u8, 'i' as u8, 'x' as u8, 'e' as u8, 'd' as u8, '6' as u8, '4' as u8]
}

/// The bytes of `sfixed64`, as a vector.
pub fn kw_sfixed64_v() -> (v: Vec<u8>)
    ensures
        v@ == kw_sfixed64(),
{
    let v: Vec<u8> = vec!['s' as u8, 'f' as u8, 'i' as u8, 'x' as u8, 'e' as u8, 'd' as u8, '6' as u8, '4' as u8];
    proof {
        assert(v@ =~= kw_sfixed64());
    }
    v
}

/// The bytes of `sint32`.
pub open spec fn kw_sint32() -> Seq<u8> {
    seq!['s' as u8, 'i' as u8, 'n' as u8, 't' as u8, '3' as u8, '2' as u8]
}

/// The bytes of `sint32`, as a vector.
pub fn kw_sint32_v() -> (v: Vec<u8>)
    ensures
        v@ == kw_sint32(),
{
    let v: Vec<u8> = vec!['s' as u8, 'i' as u8, 'n' as u8, 't' as u8, '3' as u8, '2' as u8];
    proof {
        assert(v@ =~= kw_sint32());
    }
    v
}

/// The bytes of `sint64`.
pub open spec fn kw_sint64() -> Seq<u8> {
    seq!['s' as u8, 'i' as u8, 'n' as u8, 't' as u8, '6' as u8, '4' as u8]
}

/// The bytes of `sint64`, as a vector.
pub fn kw_sint64_v() -> (v: Vec<u8>)
    ensures
        v@ == kw_sint64(),
{
    let v: Vec<u8> = vec!['s' as u8, 'i' as u8, 'n' as u8, 't' as u8, '6' as u8, '4' as u8];
    proof {
        assert(v@ =~= kw_sint64());
    }
    v
}

/// The canonical type tag of a scalar type keyword, or `None` when the
/// word is not one of the accepted scalar keywords.
pub open spec fn scalar_type_of(w: Seq<u8>) -> Option<i32> {
    if w == kw_double() {
        Some(1)
    } else if w == kw_float_name() {
        Some(2)
    } else if w == kw_int64() {
        Some(3)
    } else if w == kw_uint64() {
        Some(4)
    } else if w == kw_int32() {
        Some(5)
    } else if w == kw_fixed64() {
        Some(6)
    } else if w == kw_fixed32() {
        Some(7)
    } else if w == kw_bool_name() {
        Some(8)
    } else if w == kw_string_name() {
        Some(9)
    } else if w == kw_bytes_name() {
        Some(12)
    } else if w == kw_uint32() {
        Some(13)
    } else if w == kw_sfixed32() {
        Some(15)
    } else if w == kw_sfixed64() {
        Some(16)
    } else if w == kw_sint32() {
        Some(17)
    } else if w == kw_sint64() {
        Some(18)
    } else {
        None
    }
}

/// Whether two byte vectors hold the same bytes.
pub fn bytes_eq(a: &Vec<u8>, b: &Vec<u8>) -> (r: bool)
    ensures
        r == (a@ == b@),
{
    if a.len() != b.len() {
        return false;
    }
    let mut i: usize = 0;
    while i < a.len()
        invariant
            a@.len() == b@.len(),
            0 <= i <= a@.len(),
            forall|j: int| 0 <= j < i ==> a@[j] == b@[j],
        decreases a@.len() - i,
    {
        if a[i] != b[i] {
            return false;
        }
        i += 1;
    }
    proof {
        assert(a@ =~= b@);
    }
    true
}

/// Map a scalar type keyword to its canonical type tag.
pub fn scalar_type(w: &Vec<u8>) -> (r: Option<i32>)
    ensures
        r == scalar_type_of(w@),
{
    let kw = kw_double_v();
    if bytes_eq(w, &kw) {
        return Some(1);
    }
    let kw = kw_float_name_v();
    if bytes_eq(w, &kw) {
        return Some(2);
    }
    let kw = kw_int64_v();
    if bytes_eq(w, &kw) {
        return Some(3);
    }
    let kw = kw_uint64_v();
    if bytes_eq(w, &kw) {
        return Some(4);
    }
    let kw = kw_int32_v();
    if bytes_eq(w, &kw) {
        return Some(5);
    }
    let kw = kw_fixed64_v();
    if bytes_eq(w, &kw) {
        return Some(6);
    }
    let kw = kw_fixed32_v();
    if bytes_eq(w, &kw) {
        return Some(7);
    }
    let kw = kw_bool_name_v();
    if bytes_eq(w, &kw) {
        return Some(8);
    }
    let kw = kw_string_name_v();
    if bytes_eq(w, &kw) {
        return Some(9);
    }
    let kw = kw_bytes_name_v();
    if bytes_eq(w, &kw) {
        return Some(12);
    }
    let kw = kw_uint32_v();
    if bytes_eq(w, &kw) {
        return Some(13);
    }
    let kw = kw_sfixed32_v();
    if bytes_eq(w, &kw) {
        return Some(15);
    }
    let kw = kw_sfixed64_v();
    if bytes_eq(w, &kw) {
        return Some(16);
    }
    let kw = kw_sint32_v();
    if bytes_eq(w, &kw) {
        return Some(17);
    }
    let kw = kw_sint64_v();
    if bytes_eq(w, &kw) {
        return Some(18);
    }
    None
}

} // verus!
