//! A verified parser for a subset of the Protocol Buffers schema language.
//!
//! The parser consumes raw `.proto` source text and produces a descriptor
//! tree together with a ledger of source locations: for every descriptor
//! node, the path of field tags that leads to it in the output tree and the
//! line/column span it covers in the input.  After all files parse, a
//! cross-file resolver rewrites every rpc input and output type to its
//! fully-qualified dotted name.

pub mod comment;
pub mod cursor;
pub mod descriptor;
pub mod enums;
pub mod error;
pub mod file;
pub mod grammar;
pub mod identifier;
pub mod import;
pub mod keyword;
pub mod lex;
pub mod message;
pub mod method;
pub mod package;
pub mod service;
pub mod source;
pub mod syntax;

use vstd::prelude::*;
use crate::cursor::INPUT_MAX;
use crate::descriptor::{FileDescriptor, FileDescriptorSet, MethodDescriptor, ServiceDescriptor};
use crate::error::{ErrorKind, ParseError};

verus! {

/// One input to the set driver: the file's path, the logical name the
/// descriptor will carry, and the source text.
pub struct InputFile {
    pub path: Vec<u8>,
    pub name: Vec<u8>,
    pub text: Vec<u8>,
}

/// A parsed file together with the path it was read under, which the
/// resolver uses to find the file's own message list.
pub struct ParsedFile {
    pub path: Vec<u8>,
    pub descriptor: FileDescriptor,
}

/// One file's entry in the message index: its path and the
/// fully-qualified names of its messages.
pub struct FileMessages {
    pub path: Vec<u8>,
    pub messages: Vec<Vec<u8>>,
}

/// `m` ends with `t`.
pub open spec fn seq_ends_with(m: Seq<u8>, t: Seq<u8>) -> bool {
    m.len() >= t.len() && m.subrange(m.len() - t.len(), m.len() as int) == t
}

/// A type name that is already fully qualified: it begins with a dot.
pub open spec fn is_absolute(t: Seq<u8>) -> bool {
    t.len() > 0 && t[0] == '.' as u8
}

/// A file's package, or empty when it declared none.
pub open spec fn pkg_of(fd: FileDescriptor) -> Seq<u8> {
    match fd.package {
        Option::Some(p) => p@,
        Option::None => Seq::empty(),
    }
}

/// The fully-qualified name of a message: a dot, the package, a dot, and
/// the message name.
pub open spec fn full_name(pkg: Seq<u8>, name: Seq<u8>) -> Seq<u8> {
    seq!['.' as u8] + pkg + seq!['.' as u8] + name
}

/// The index holds `t` among some file's message names.
pub open spec fn index_contains(ms: Seq<FileMessages>, t: Seq<u8>) -> bool {
    exists|i: int, j: int|
        0 <= i < ms.len() && 0 <= j < ms[i].messages@.len() && (#[trigger] ms[i].messages@[j])@
            == t
}

/// Some file of the set declares a message whose fully-qualified name is
/// `t`.
pub open spec fn files_contain(fs: Seq<ParsedFile>, t: Seq<u8>) -> bool {
    exists|i: int, j: int|
        0 <= i < fs.len() && 0 <= j < fs[i].descriptor.message_type@.len() && full_name(
            pkg_of(fs[i].descriptor),
            (#[trigger] fs[i].descriptor.message_type@[j]).name@,
        ) == t
}

/// The first index entry at or after `i` whose path is `p`.
pub open spec fn find_file_from(ms: Seq<FileMessages>, p: Seq<u8>, i: int) -> Option<int>
    decreases ms.len() - i,
{
    if i < 0 || i >= ms.len() {
        None
    } else if ms[i].path@ == p {
        Some(i)
    } else {
        find_file_from(ms, p, i + 1)
    }
}

/// The first file at or after `i` whose path is `p`.
pub open spec fn first_file_from(fs: Seq<ParsedFile>, p: Seq<u8>, i: int) -> Option<int>
    decreases fs.len() - i,
{
    if i < 0 || i >= fs.len() {
        None
    } else if fs[i].path@ == p {
        Some(i)
    } else {
        first_file_from(fs, p, i + 1)
    }
}

/// The first message name at or after `j` that ends with `t`.
pub open spec fn find_suffix_from(msgs: Seq<Vec<u8>>, t: Seq<u8>, j: int) -> Option<int>
    decreases msgs.len() - j,
{
    if j < 0 || j >= msgs.len() {
        None
    } else if seq_ends_with(msgs[j]@, t) {
        Some(j)
    } else {
        find_suffix_from(msgs, t, j + 1)
    }
}

/// The current file's own suffix match: the first name ending with `t` in
/// the first index entry carrying path `p`.
pub open spec fn local_suffix(ms: Seq<FileMessages>, p: Seq<u8>, t: Seq<u8>) -> Option<(int, int)> {
    match find_file_from(ms, p, 0) {
        Option::None => None,
        Option::Some(i) => match find_suffix_from(ms[i].messages@, t, 0) {
            Option::None => None,
            Option::Some(j) => Some((i, j)),
        },
    }
}

/// The first suffix match anywhere in the index, scanning files in order
/// from `i`.
pub open spec fn find_global_suffix(ms: Seq<FileMessages>, t: Seq<u8>, i: int) -> Option<
    (int, int),
>
    decreases ms.len() - i,
{
    if i < 0 || i >= ms.len() {
        None
    } else {
        match find_suffix_from(ms[i].messages@, t, 0) {
            Option::Some(j) => Some((i, j)),
            Option::None => find_global_suffix(ms, t, i + 1),
        }
    }
}

/// How one rpc type name resolves against the index.  An absolute name
/// resolves to itself when any file's list holds it.  A relative name is
/// looked up first in the index entry carrying the current file's path;
/// when that file declares no matching name, the imported files are
/// searched through the rest of the index in order.
pub open spec fn resolve_type_spec(t: Seq<u8>, p: Seq<u8>, ms: Seq<FileMessages>) -> Option<
    Seq<u8>,
> {
    if is_absolute(t) {
        if index_contains(ms, t) {
            Some(t)
        } else {
            None
        }
    } else {
        match local_suffix(ms, p, t) {
            Option::Some(pair) => Some(ms[pair.0].messages@[pair.1]@),
            Option::None => match find_global_suffix(ms, t, 0) {
                Option::Some(pair) => Some(ms[pair.0].messages@[pair.1]@),
                Option::None => None,
            },
        }
    }
}

/// The index is exactly the message index of the files: entry by entry the
/// same path, and the fully-qualified names of that file's messages in
/// order.
pub open spec fn index_matches(ms: Seq<FileMessages>, fs: Seq<ParsedFile>) -> bool {
    &&& ms.len() == fs.len()
    &&& forall|i: int| 0 <= i < ms.len() ==> (#[trigger] ms[i]).path@ == fs[i].path@
    &&& forall|i: int|
        0 <= i < ms.len() ==> (#[trigger] ms[i]).messages@.len()
            == fs[i].descriptor.message_type@.len()
    &&& forall|i: int, j: int|
        0 <= i < ms.len() && 0 <= j < ms[i].messages@.len() ==> (#[trigger] ms[i].messages@[j])@
            == full_name(pkg_of(fs[i].descriptor), fs[i].descriptor.message_type@[j].name@)
}

/// Some file of the set declares a message whose fully-qualified name
/// ends with `t`.
pub open spec fn files_contain_suffix(fs: Seq<ParsedFile>, t: Seq<u8>) -> bool {
    exists|i: int, j: int|
        0 <= i < fs.len() && 0 <= j < fs[i].descriptor.message_type@.len() && seq_ends_with(
            full_name(
                pkg_of(fs[i].descriptor),
                (#[trigger] fs[i].descriptor.message_type@[j]).name@,
            ),
            t,
        )
}

/// Whether one rpc type name can be resolved against the file set itself:
/// an absolute name must be declared exactly, a relative one as the
/// suffix of some declared name.
pub open spec fn type_resolvable(t: Seq<u8>, p: Seq<u8>, fs: Seq<ParsedFile>) -> bool {
    if is_absolute(t) {
        files_contain(fs, t)
    } else {
        files_contain_suffix(fs, t)
    }
}

/// Every rpc type of every file resolves.
pub open spec fn all_types_resolve(fs: Seq<ParsedFile>) -> bool {
    forall|i: int, k: int, m: int|
        0 <= i < fs.len() && 0 <= k < fs[i].descriptor.service@.len() && 0 <= m
            < fs[i].descriptor.service@[k].method@.len() ==> {
            let md = #[trigger] fs[i].descriptor.service@[k].method@[m];
            &&& type_resolvable(md.input_type@, fs[i].path@, fs)
            &&& type_resolvable(md.output_type@, fs[i].path@, fs)
        }
}

/// Every rpc type of every file is fully qualified and names a message
/// declared somewhere in the set.
pub open spec fn set_resolved(fs: Seq<ParsedFile>) -> bool {
    forall|i: int, k: int, m: int|
        0 <= i < fs.len() && 0 <= k < fs[i].descriptor.service@.len() && 0 <= m
            < fs[i].descriptor.service@[k].method@.len() ==> {
            let md = #[trigger] fs[i].descriptor.service@[k].method@[m];
            &&& is_absolute(md.input_type@) && files_contain(fs, md.input_type@)
            &&& is_absolute(md.output_type@) && files_contain(fs, md.output_type@)
        }
}

/// The two file searches agree when the index matches the files.
proof fn lemma_find_file_agree(ms: Seq<FileMessages>, fs: Seq<ParsedFile>, p: Seq<u8>, i: int)
    requires
        index_matches(ms, fs),
        0 <= i,
    ensures
        find_file_from(ms, p, i) == first_file_from(fs, p, i),
    decreases ms.len() - i,
{
    if i < ms.len() {
        lemma_find_file_agree(ms, fs, p, i + 1);
    }
}

/// The suffix search succeeds exactly when some name at or after `j` ends
/// with `t`, and it returns the first such position.
proof fn lemma_find_suffix(msgs: Seq<Vec<u8>>, t: Seq<u8>, j: int)
    requires
        0 <= j,
    ensures
        (find_suffix_from(msgs, t, j) is Some) == exists|k: int|
            j <= k < msgs.len() && seq_ends_with((#[trigger] msgs[k])@, t),
        find_suffix_from(msgs, t, j) matches Some(k) ==> j <= k < msgs.len() && seq_ends_with(
            msgs[k]@,
            t,
        ),
    decreases msgs.len() - j,
{
    if j < msgs.len() {
        lemma_find_suffix(msgs, t, j + 1);
        if seq_ends_with(msgs[j]@, t) {
            assert(j <= j < msgs.len() && seq_ends_with(msgs[j]@, t));
        }
    }
}


/// A successful file search stays in bounds and hits the path.
proof fn lemma_find_file_bounds(ms: Seq<FileMessages>, p: Seq<u8>, i: int)
    requires
        0 <= i,
    ensures
        find_file_from(ms, p, i) matches Some(k) ==> i <= k < ms.len() && ms[k].path@ == p,
    decreases ms.len() - i,
{
    if i < ms.len() && !(ms[i].path@ == p) {
        lemma_find_file_bounds(ms, p, i + 1);
    }
}

/// The index holds a name exactly when some file declares it.
proof fn lemma_index_contains_agree(ms: Seq<FileMessages>, fs: Seq<ParsedFile>, t: Seq<u8>)
    requires
        index_matches(ms, fs),
    ensures
        index_contains(ms, t) == files_contain(fs, t),
{
    if index_contains(ms, t) {
        let (i, j) = choose|i: int, j: int|
            0 <= i < ms.len() && 0 <= j < ms[i].messages@.len()
                && (#[trigger] ms[i].messages@[j])@ == t;
        assert(full_name(pkg_of(fs[i].descriptor), fs[i].descriptor.message_type@[j].name@) == t);
        assert(files_contain(fs, t));
    }
    if files_contain(fs, t) {
        let (i, j) = choose|i: int, j: int|
            0 <= i < fs.len() && 0 <= j < fs[i].descriptor.message_type@.len() && full_name(
                pkg_of(fs[i].descriptor),
                (#[trigger] fs[i].descriptor.message_type@[j]).name@,
            ) == t;
        assert((ms[i].messages@[j])@ == t);
        assert(index_contains(ms, t));
    }
}

/// A successful global suffix search stays in bounds and hits a name
/// ending with `t`, and it succeeds exactly when one exists.
proof fn lemma_global_suffix(ms: Seq<FileMessages>, t: Seq<u8>, i: int)
    requires
        0 <= i,
    ensures
        (find_global_suffix(ms, t, i) is Some) == exists|i2: int, j: int|
            i <= i2 < ms.len() && 0 <= j < ms[i2].messages@.len() && seq_ends_with(
                (#[trigger] ms[i2].messages@[j])@,
                t,
            ),
        find_global_suffix(ms, t, i) matches Some(pair) ==> i <= pair.0 < ms.len() && 0 <= pair.1
            < ms[pair.0].messages@.len() && seq_ends_with(ms[pair.0].messages@[pair.1]@, t),
    decreases ms.len() - i,
{
    if i < ms.len() {
        lemma_find_suffix(ms[i].messages@, t, 0);
        lemma_global_suffix(ms, t, i + 1);
        match find_suffix_from(ms[i].messages@, t, 0) {
            Option::Some(j) => {
                assert(i <= i < ms.len() && 0 <= j < ms[i].messages@.len() && seq_ends_with(
                    (ms[i].messages@[j])@,
                    t,
                ));
            },
            Option::None => {},
        }
    }
}

/// What resolution yields, stated against the file set: it succeeds
/// exactly when the name is resolvable, the resolved name is fully
/// qualified and declared by some file, and a name that is already fully
/// qualified and declared resolves to itself.
pub proof fn lemma_resolve_spec(ms: Seq<FileMessages>, fs: Seq<ParsedFile>, t: Seq<u8>, p: Seq<u8>)
    requires
        index_matches(ms, fs),
    ensures
        (resolve_type_spec(t, p, ms) is Some) == type_resolvable(t, p, fs),
        resolve_type_spec(t, p, ms) matches Some(v) ==> is_absolute(v) && files_contain(fs, v),
        is_absolute(t) && files_contain(fs, t) ==> resolve_type_spec(t, p, ms) == Some(t),
{
    lemma_index_contains_agree(ms, fs, t);
    if is_absolute(t) {
        if index_contains(ms, t) {
            assert(resolve_type_spec(t, p, ms) == Some(t));
        }
    } else {
        lemma_find_file_bounds(ms, p, 0);
        lemma_global_suffix(ms, t, 0);
        // the chosen entry, local or global, is a declared full name
        assert forall|pair: (int, int)|
            (local_suffix(ms, p, t) == Some(pair) || find_global_suffix(ms, t, 0) == Some(
                pair,
            )) implies {
            let v = (ms[pair.0].messages@[pair.1])@;
            &&& 0 <= pair.0 < ms.len() && 0 <= pair.1 < ms[pair.0].messages@.len()
            &&& seq_ends_with(v, t)
            &&& v == full_name(
                pkg_of(fs[pair.0].descriptor),
                fs[pair.0].descriptor.message_type@[pair.1].name@,
            )
            &&& is_absolute(v)
            &&& files_contain(fs, v)
            &&& files_contain_suffix(fs, t)
        } by {
            if local_suffix(ms, p, t) == Some(pair) {
                let i = find_file_from(ms, p, 0)->Some_0;
                lemma_find_suffix(ms[i].messages@, t, 0);
            }
            let v = (ms[pair.0].messages@[pair.1])@;
            assert(v == full_name(
                pkg_of(fs[pair.0].descriptor),
                fs[pair.0].descriptor.message_type@[pair.1].name@,
            ));
            assert(v[0] == (seq!['.' as u8] + pkg_of(fs[pair.0].descriptor))[0]);
            assert(files_contain(fs, v));
            assert(files_contain_suffix(fs, t));
        }
        match local_suffix(ms, p, t) {
            Option::Some(pair) => {},
            Option::None => {
                match find_global_suffix(ms, t, 0) {
                    Option::Some(pair) => {},
                    Option::None => {
                        // nothing anywhere ends with the name
                        assert forall|i: int, j: int|
                            0 <= i < fs.len() && 0 <= j < fs[i].descriptor.message_type@.len()
                                implies !seq_ends_with(
                            full_name(
                                pkg_of(fs[i].descriptor),
                                (#[trigger] fs[i].descriptor.message_type@[j]).name@,
                            ),
                            t,
                        ) by {
                            assert((ms[i].messages@[j])@ == full_name(
                                pkg_of(fs[i].descriptor),
                                fs[i].descriptor.message_type@[j].name@,
                            ));
                            assert(!seq_ends_with((ms[i].messages@[j])@, t));
                        }
                        assert(!files_contain_suffix(fs, t));
                    },
                }
            },
        }
    }
}


/// Resolving is idempotent name by name: whatever one resolution pass
/// yields against the message index of a file set, a second pass returns
/// unchanged, because the result is fully qualified and declared.
pub proof fn lemma_resolve_idempotent(
    ms: Seq<FileMessages>,
    fs: Seq<ParsedFile>,
    t: Seq<u8>,
    p: Seq<u8>,
)
    requires
        index_matches(ms, fs),
    ensures
        resolve_type_spec(t, p, ms) matches Some(r) ==> resolve_type_spec(r, p, ms) == Some(r),
{
    lemma_resolve_spec(ms, fs, t, p);
    match resolve_type_spec(t, p, ms) {
        Option::Some(r) => {
            lemma_resolve_spec(ms, fs, r, p);
        },
        Option::None => {},
    }
}


/// The package a file denotation declares, or empty.
pub open spec fn view_pkg(v: grammar::FileView) -> Seq<u8> {
    if v.items.pkgs.len() >= 1 {
        v.items.pkgs[0]
    } else {
        Seq::empty()
    }
}

/// The fully-qualified name of the `j`-th message of a file denotation.
pub open spec fn view_name(pv: (Seq<u8>, grammar::FileView), j: int) -> Seq<u8> {
    full_name(view_pkg(pv.1), pv.1.items.msgs[j].name)
}

/// Some file denotation declares a message whose fully-qualified name is
/// `t`.
pub open spec fn view_files_contain(vfs: Seq<(Seq<u8>, grammar::FileView)>, t: Seq<u8>) -> bool {
    exists|i: int, j: int|
        0 <= i < vfs.len() && 0 <= j < vfs[i].1.items.msgs.len() && #[trigger] view_name(
            vfs[i],
            j,
        ) == t
}

/// The first file denotation at or after `i` whose path is `p`.
pub open spec fn view_find_file(
    vfs: Seq<(Seq<u8>, grammar::FileView)>,
    p: Seq<u8>,
    i: int,
) -> Option<int>
    decreases vfs.len() - i,
{
    if i < 0 || i >= vfs.len() {
        None
    } else if vfs[i].0 == p {
        Some(i)
    } else {
        view_find_file(vfs, p, i + 1)
    }
}

/// The first message denotation at or after `j` whose fully-qualified name
/// under `pkg` ends with `t`.
pub open spec fn view_find_suffix(
    msgs: Seq<grammar::MsgView>,
    pkg: Seq<u8>,
    t: Seq<u8>,
    j: int,
) -> Option<int>
    decreases msgs.len() - j,
{
    if j < 0 || j >= msgs.len() {
        None
    } else if seq_ends_with(full_name(pkg, msgs[j].name), t) {
        Some(j)
    } else {
        view_find_suffix(msgs, pkg, t, j + 1)
    }
}

/// The current file denotation's own suffix match.
pub open spec fn view_local(
    vfs: Seq<(Seq<u8>, grammar::FileView)>,
    p: Seq<u8>,
    t: Seq<u8>,
) -> Option<(int, int)> {
    match view_find_file(vfs, p, 0) {
        Option::None => None,
        Option::Some(i) => match view_find_suffix(
            vfs[i].1.items.msgs,
            view_pkg(vfs[i].1),
            t,
            0,
        ) {
            Option::None => None,
            Option::Some(j) => Some((i, j)),
        },
    }
}

/// The first suffix match anywhere among the file denotations.
pub open spec fn view_global(
    vfs: Seq<(Seq<u8>, grammar::FileView)>,
    t: Seq<u8>,
    i: int,
) -> Option<(int, int)>
    decreases vfs.len() - i,
{
    if i < 0 || i >= vfs.len() {
        None
    } else {
        match view_find_suffix(vfs[i].1.items.msgs, view_pkg(vfs[i].1), t, 0) {
            Option::Some(j) => Some((i, j)),
            Option::None => view_global(vfs, t, i + 1),
        }
    }
}

/// How one rpc type name resolves against the file denotations, mirroring
/// resolution against the message index.
pub open spec fn view_resolve(
    t: Seq<u8>,
    p: Seq<u8>,
    vfs: Seq<(Seq<u8>, grammar::FileView)>,
) -> Option<Seq<u8>> {
    if is_absolute(t) {
        if view_files_contain(vfs, t) {
            Some(t)
        } else {
            None
        }
    } else {
        match view_local(vfs, p, t) {
            Option::Some(pair) => Some(view_name(vfs[pair.0], pair.1)),
            Option::None => match view_global(vfs, t, 0) {
                Option::Some(pair) => Some(view_name(vfs[pair.0], pair.1)),
                Option::None => None,
            },
        }
    }
}

/// The parsed files correspond to the file denotations: same paths, and
/// each descriptor's contents match its denotation with at most one
/// package.
pub open spec fn views_match(fs: Seq<ParsedFile>, vfs: Seq<(Seq<u8>, grammar::FileView)>) -> bool {
    &&& fs.len() == vfs.len()
    &&& forall|i: int| 0 <= i < fs.len() ==> (#[trigger] fs[i]).path@ == vfs[i].0
    &&& forall|i: int|
        0 <= i < fs.len() ==> grammar::file_contents_match(
            (#[trigger] fs[i]).descriptor,
            vfs[i].1,
        )
    &&& forall|i: int| 0 <= i < vfs.len() ==> (#[trigger] vfs[i]).1.items.pkgs.len() <= 1
}

/// Under the correspondence, packages and message names agree.
proof fn lemma_views_match_names(fs: Seq<ParsedFile>, vfs: Seq<(Seq<u8>, grammar::FileView)>, i: int)
    requires
        views_match(fs, vfs),
        0 <= i < fs.len(),
    ensures
        pkg_of(fs[i].descriptor) == view_pkg(vfs[i].1),
        fs[i].descriptor.message_type@.len() == vfs[i].1.items.msgs.len(),
        forall|j: int|
            0 <= j < vfs[i].1.items.msgs.len() ==> full_name(
                pkg_of(fs[i].descriptor),
                (#[trigger] fs[i].descriptor.message_type@[j]).name@,
            ) == view_name(vfs[i], j),
{
    assert(grammar::pkg_seq(fs[i].descriptor.package) == vfs[i].1.items.pkgs);
    match fs[i].descriptor.package {
        Option::Some(pv) => {
            assert(vfs[i].1.items.pkgs == seq![pv@]);
            assert(vfs[i].1.items.pkgs[0] == pv@);
        },
        Option::None => {},
    }
    assert forall|j: int| 0 <= j < vfs[i].1.items.msgs.len() implies full_name(
        pkg_of(fs[i].descriptor),
        (#[trigger] fs[i].descriptor.message_type@[j]).name@,
    ) == view_name(vfs[i], j) by {
        assert(grammar::msg_views(fs[i].descriptor.message_type@)[j] == vfs[i].1.items.msgs[j]);
    }
}

/// Under the correspondence the two file searches agree.
proof fn lemma_view_find_file_agree(
    ms: Seq<FileMessages>,
    fs: Seq<ParsedFile>,
    vfs: Seq<(Seq<u8>, grammar::FileView)>,
    p: Seq<u8>,
    i: int,
)
    requires
        index_matches(ms, fs),
        views_match(fs, vfs),
        0 <= i,
    ensures
        find_file_from(ms, p, i) == view_find_file(vfs, p, i),
    decreases ms.len() - i,
{
    if i < ms.len() {
        lemma_view_find_file_agree(ms, fs, vfs, p, i + 1);
    }
}

/// Under the correspondence the two suffix searches agree within one file.
proof fn lemma_view_find_suffix_agree(
    ms: Seq<FileMessages>,
    fs: Seq<ParsedFile>,
    vfs: Seq<(Seq<u8>, grammar::FileView)>,
    i: int,
    t: Seq<u8>,
    j: int,
)
    requires
        index_matches(ms, fs),
        views_match(fs, vfs),
        0 <= i < ms.len(),
        0 <= j,
    ensures
        find_suffix_from(ms[i].messages@, t, j) == view_find_suffix(
            vfs[i].1.items.msgs,
            view_pkg(vfs[i].1),
            t,
            j,
        ),
    decreases ms[i].messages@.len() - j,
{
    lemma_views_match_names(fs, vfs, i);
    if j < ms[i].messages@.len() {
        assert((ms[i].messages@[j])@ == view_name(vfs[i], j));
        lemma_view_find_suffix_agree(ms, fs, vfs, i, t, j + 1);
    }
}

/// Under the correspondence the two global suffix searches agree.
proof fn lemma_view_global_agree(
    ms: Seq<FileMessages>,
    fs: Seq<ParsedFile>,
    vfs: Seq<(Seq<u8>, grammar::FileView)>,
    t: Seq<u8>,
    i: int,
)
    requires
        index_matches(ms, fs),
        views_match(fs, vfs),
        0 <= i,
    ensures
        find_global_suffix(ms, t, i) == view_global(vfs, t, i),
    decreases ms.len() - i,
{
    if i < ms.len() {
        lemma_view_find_suffix_agree(ms, fs, vfs, i, t, 0);
        lemma_view_global_agree(ms, fs, vfs, t, i + 1);
    }
}

/// Under the correspondence the declared-name tests agree.
proof fn lemma_view_contains_agree(
    ms: Seq<FileMessages>,
    fs: Seq<ParsedFile>,
    vfs: Seq<(Seq<u8>, grammar::FileView)>,
    t: Seq<u8>,
)
    requires
        index_matches(ms, fs),
        views_match(fs, vfs),
    ensures
        index_contains(ms, t) == view_files_contain(vfs, t),
{
    if index_contains(ms, t) {
        let (i, j) = choose|i: int, j: int|
            0 <= i < ms.len() && 0 <= j < ms[i].messages@.len()
                && (#[trigger] ms[i].messages@[j])@ == t;
        lemma_views_match_names(fs, vfs, i);
        assert(view_name(vfs[i], j) == t);
        assert(view_files_contain(vfs, t));
    }
    if view_files_contain(vfs, t) {
        let (i, j) = choose|i: int, j: int|
            0 <= i < vfs.len() && 0 <= j < vfs[i].1.items.msgs.len() && #[trigger] view_name(
                vfs[i],
                j,
            ) == t;
        lemma_views_match_names(fs, vfs, i);
        assert((ms[i].messages@[j])@ == t);
        assert(index_contains(ms, t));
    }
}

/// Resolution against the index and against the file denotations agree.
pub proof fn lemma_view_resolve_agree(
    ms: Seq<FileMessages>,
    fs: Seq<ParsedFile>,
    vfs: Seq<(Seq<u8>, grammar::FileView)>,
    t: Seq<u8>,
    p: Seq<u8>,
)
    requires
        index_matches(ms, fs),
        views_match(fs, vfs),
    ensures
        resolve_type_spec(t, p, ms) == view_resolve(t, p, vfs),
{
    lemma_view_contains_agree(ms, fs, vfs, t);
    if !is_absolute(t) {
        lemma_view_find_file_agree(ms, fs, vfs, p, 0);
        lemma_find_file_bounds(ms, p, 0);
        match find_file_from(ms, p, 0) {
            Option::Some(i) => {
                lemma_view_find_suffix_agree(ms, fs, vfs, i, t, 0);
            },
            Option::None => {},
        }
        lemma_view_global_agree(ms, fs, vfs, t, 0);
        match find_global_suffix(ms, t, 0) {
            Option::Some(pair) => {
                lemma_global_suffix(ms, t, 0);
                lemma_view_find_suffix_agree(ms, fs, vfs, pair.0, t, 0);
                lemma_views_match_names(fs, vfs, pair.0);
            },
            Option::None => {},
        }
        match view_local(vfs, p, t) {
            Option::Some(pair) => {
                lemma_view_find_suffix_agree(ms, fs, vfs, pair.0, t, 0);
                lemma_views_match_names(fs, vfs, pair.0);
                lemma_find_suffix(ms[pair.0].messages@, t, 0);
            },
            Option::None => {},
        }
    }
}


/// A successful view file search stays in bounds and hits the path.
proof fn lemma_view_find_file_bounds(vfs: Seq<(Seq<u8>, grammar::FileView)>, p: Seq<u8>, i: int)
    requires
        0 <= i,
    ensures
        view_find_file(vfs, p, i) matches Some(k) ==> i <= k < vfs.len(),
    decreases vfs.len() - i,
{
    if i < vfs.len() && !(vfs[i].0 == p) {
        lemma_view_find_file_bounds(vfs, p, i + 1);
    }
}

/// The view suffix search succeeds exactly when a matching name exists.
proof fn lemma_view_suffix_exists(msgs: Seq<grammar::MsgView>, pkg: Seq<u8>, t: Seq<u8>, j: int)
    requires
        0 <= j,
    ensures
        (view_find_suffix(msgs, pkg, t, j) is Some) == exists|k: int|
            j <= k < msgs.len() && seq_ends_with(full_name(pkg, (#[trigger] msgs[k]).name), t),
        view_find_suffix(msgs, pkg, t, j) matches Some(k) ==> j <= k < msgs.len()
            && seq_ends_with(full_name(pkg, msgs[k].name), t),
    decreases msgs.len() - j,
{
    if j < msgs.len() {
        lemma_view_suffix_exists(msgs, pkg, t, j + 1);
        if seq_ends_with(full_name(pkg, msgs[j].name), t) {
            assert(j <= j < msgs.len() && seq_ends_with(full_name(pkg, msgs[j].name), t));
        }
    }
}

/// The global view suffix search succeeds exactly when a matching name
/// exists anywhere.
proof fn lemma_view_global_exists(vfs: Seq<(Seq<u8>, grammar::FileView)>, t: Seq<u8>, i: int)
    requires
        0 <= i,
    ensures
        (view_global(vfs, t, i) is Some) == exists|i2: int, j: int|
            i <= i2 < vfs.len() && 0 <= j < vfs[i2].1.items.msgs.len() && seq_ends_with(
                #[trigger] view_name(vfs[i2], j),
                t,
            ),
        view_global(vfs, t, i) matches Some(pair) ==> i <= pair.0 < vfs.len() && 0 <= pair.1
            < vfs[pair.0].1.items.msgs.len() && seq_ends_with(view_name(vfs[pair.0], pair.1), t),
    decreases vfs.len() - i,
{
    if i < vfs.len() {
        lemma_view_suffix_exists(vfs[i].1.items.msgs, view_pkg(vfs[i].1), t, 0);
        lemma_view_global_exists(vfs, t, i + 1);
        match view_find_suffix(vfs[i].1.items.msgs, view_pkg(vfs[i].1), t, 0) {
            Option::Some(j) => {
                assert(i <= i < vfs.len() && 0 <= j < vfs[i].1.items.msgs.len() && seq_ends_with(
                    view_name(vfs[i], j),
                    t,
                ));
            },
            Option::None => {},
        }
    }
}

/// Under the correspondence, a name is resolvable against the files
/// exactly when it resolves against the denotations.
pub proof fn lemma_view_resolvable(
    fs: Seq<ParsedFile>,
    vfs: Seq<(Seq<u8>, grammar::FileView)>,
    t: Seq<u8>,
    p: Seq<u8>,
)
    requires
        views_match(fs, vfs),
    ensures
        type_resolvable(t, p, fs) == (view_resolve(t, p, vfs) is Some),
{
    if is_absolute(t) {
        if files_contain(fs, t) {
            let (i, j) = choose|i: int, j: int|
                0 <= i < fs.len() && 0 <= j < fs[i].descriptor.message_type@.len() && full_name(
                    pkg_of(fs[i].descriptor),
                    (#[trigger] fs[i].descriptor.message_type@[j]).name@,
                ) == t;
            lemma_views_match_names(fs, vfs, i);
            assert(view_name(vfs[i], j) == t);
            assert(view_files_contain(vfs, t));
        }
        if view_files_contain(vfs, t) {
            let (i, j) = choose|i: int, j: int|
                0 <= i < vfs.len() && 0 <= j < vfs[i].1.items.msgs.len() && #[trigger] view_name(
                    vfs[i],
                    j,
                ) == t;
            lemma_views_match_names(fs, vfs, i);
            assert(full_name(
                pkg_of(fs[i].descriptor),
                fs[i].descriptor.message_type@[j].name@,
            ) == t);
            assert(files_contain(fs, t));
        }
    } else {
        lemma_view_global_exists(vfs, t, 0);
        lemma_view_find_file_bounds(vfs, p, 0);
        if files_contain_suffix(fs, t) {
            let (i, j) = choose|i: int, j: int|
                0 <= i < fs.len() && 0 <= j < fs[i].descriptor.message_type@.len()
                    && seq_ends_with(
                    full_name(
                        pkg_of(fs[i].descriptor),
                        (#[trigger] fs[i].descriptor.message_type@[j]).name@,
                    ),
                    t,
                );
            lemma_views_match_names(fs, vfs, i);
            assert(seq_ends_with(view_name(vfs[i], j), t));
            assert(view_global(vfs, t, 0) is Some);
            match view_local(vfs, p, t) {
                Option::Some(pair) => {},
                Option::None => {},
            }
        }
        match view_local(vfs, p, t) {
            Option::Some(pair) => {
                let fi = view_find_file(vfs, p, 0)->Some_0;
                lemma_view_suffix_exists(vfs[fi].1.items.msgs, view_pkg(vfs[fi].1), t, 0);
                lemma_views_match_names(fs, vfs, fi);
                assert(seq_ends_with(view_name(vfs[fi], pair.1), t));
                assert(seq_ends_with(
                    full_name(
                        pkg_of(fs[fi].descriptor),
                        fs[fi].descriptor.message_type@[pair.1].name@,
                    ),
                    t,
                ));
                assert(files_contain_suffix(fs, t));
            },
            Option::None => {
                match view_global(vfs, t, 0) {
                    Option::Some(pair) => {
                        lemma_views_match_names(fs, vfs, pair.0);
                        assert(seq_ends_with(
                            full_name(
                                pkg_of(fs[pair.0].descriptor),
                                fs[pair.0].descriptor.message_type@[pair.1].name@,
                            ),
                            t,
                        ));
                        assert(files_contain_suffix(fs, t));
                    },
                    Option::None => {},
                }
            },
        }
    }
}

/// Resolve one rpc type name against the message index, as the resolver
/// does for every method: an absolute name must exist somewhere in the
/// index and is returned unchanged; a relative name is replaced by the
/// first fully-qualified name of the current file's entry that ends with
/// it, or, when the current file declares none, by the first such name
/// anywhere in the index.  Fails with `TypeNotFound` exactly when no such
/// name exists.
pub fn resolve_message_type(
    wanted: &Vec<u8>,
    path: &Vec<u8>,
    messages: &Vec<FileMessages>,
) -> (r: Result<Vec<u8>, ParseError>)
    ensures
        (r is Ok) == (resolve_type_spec(wanted@, path@, messages@) is Some),
        r matches Ok(v) ==> Some(v@) == resolve_type_spec(wanted@, path@, messages@),
        r matches Err(e) ==> e.kind == ErrorKind::TypeNotFound,
{
    let ghost t = wanted@;
    let ghost ms = messages@;
    if wanted.len() > 0 && wanted[0] == '.' as u8 {
        let mut i: usize = 0;
        while i < messages.len()
            invariant
                t == wanted@,
                ms == messages@,
                is_absolute(t),
                0 <= i <= ms.len(),
                forall|i2: int, j2: int|
                    0 <= i2 < i && 0 <= j2 < ms[i2].messages@.len()
                        ==> (#[trigger] ms[i2].messages@[j2])@ != t,
            decreases ms.len() - i,
        {
            let entry = &messages[i];
            let mut j: usize = 0;
            while j < entry.messages.len()
                invariant
                    t == wanted@,
                    ms == messages@,
                    is_absolute(t),
                    0 <= i < ms.len(),
                    entry == &ms[i as int],
                    0 <= j <= entry.messages@.len(),
                    forall|j2: int| 0 <= j2 < j ==> (#[trigger] entry.messages@[j2])@ != t,
                decreases entry.messages@.len() - j,
            {
                if keyword::bytes_eq(&entry.messages[j], wanted) {
                    proof {
                        assert((ms[i as int].messages@[j as int])@ == t);
                        assert(index_contains(ms, t));
                    }
                    return Ok(lex::copy_bytes(&entry.messages[j]));
                }
                j += 1;
            }
            i += 1;
        }
        proof {
            assert(!index_contains(ms, t));
        }
        Err(ParseError::at(ErrorKind::TypeNotFound, 0, 0))
    } else {
        // the current file's own entry first
        let mut i: usize = 0;
        let mut file_at: Option<usize> = None;
        while i < messages.len() && file_at.is_none()
            invariant
                t == wanted@,
                ms == messages@,
                !is_absolute(t),
                0 <= i <= ms.len(),
                match file_at {
                    Option::Some(fi) => find_file_from(ms, path@, 0) == Some(fi as int) && fi
                        < ms.len(),
                    Option::None => find_file_from(ms, path@, 0) == find_file_from(
                        ms,
                        path@,
                        i as int,
                    ),
                },
            decreases 2 * (ms.len() - i) + (if file_at is None {
                1int
            } else {
                0int
            }),
        {
            if keyword::bytes_eq(&messages[i].path, path) {
                file_at = Some(i);
            } else {
                i += 1;
            }
        }
        match file_at {
            Option::Some(fi) => {
                let entry = &messages[fi];
                let mut j: usize = 0;
                while j < entry.messages.len()
                    invariant
                        t == wanted@,
                        ms == messages@,
                        !is_absolute(t),
                        0 <= fi < ms.len(),
                        entry == &ms[fi as int],
                        find_file_from(ms, path@, 0) == Some(fi as int),
                        0 <= j <= entry.messages@.len(),
                        find_suffix_from(entry.messages@, t, 0) == find_suffix_from(
                            entry.messages@,
                            t,
                            j as int,
                        ),
                    decreases entry.messages@.len() - j,
                {
                    if lex::ends_with(&entry.messages[j], wanted) {
                        proof {
                            assert(find_suffix_from(entry.messages@, t, j as int) == Some(
                                j as int,
                            ));
                            assert(local_suffix(ms, path@, t) == Some((fi as int, j as int)));
                        }
                        return Ok(lex::copy_bytes(&entry.messages[j]));
                    }
                    j += 1;
                }
                proof {
                    assert(find_suffix_from(entry.messages@, t, j as int) is None);
                    assert(local_suffix(ms, path@, t) is None);
                }
            },
            Option::None => {
                proof {
                    assert(find_file_from(ms, path@, i as int) is None);
                    assert(local_suffix(ms, path@, t) is None);
                }
            },
        }
        // no local match: the first suffix match anywhere in the index
        let mut i2: usize = 0;
        while i2 < messages.len()
            invariant
                t == wanted@,
                ms == messages@,
                !is_absolute(t),
                local_suffix(ms, path@, t) is None,
                0 <= i2 <= ms.len(),
                find_global_suffix(ms, t, 0) == find_global_suffix(ms, t, i2 as int),
            decreases ms.len() - i2,
        {
            let entry = &messages[i2];
            let mut j: usize = 0;
            while j < entry.messages.len()
                invariant
                    t == wanted@,
                    ms == messages@,
                    !is_absolute(t),
                    local_suffix(ms, path@, t) is None,
                    0 <= i2 < ms.len(),
                    entry == &ms[i2 as int],
                    find_global_suffix(ms, t, 0) == find_global_suffix(ms, t, i2 as int),
                    0 <= j <= entry.messages@.len(),
                    find_suffix_from(entry.messages@, t, 0) == find_suffix_from(
                        entry.messages@,
                        t,
                        j as int,
                    ),
                decreases entry.messages@.len() - j,
            {
                if lex::ends_with(&entry.messages[j], wanted) {
                    proof {
                        assert(find_suffix_from(entry.messages@, t, j as int) == Some(j as int));
                        assert(find_global_suffix(ms, t, i2 as int) == Some((
                            i2 as int,
                            j as int,
                        )));
                    }
                    return Ok(lex::copy_bytes(&entry.messages[j]));
                }
                j += 1;
            }
            proof {
                assert(find_suffix_from(entry.messages@, t, j as int) is None);
            }
            i2 += 1;
        }
        proof {
            assert(find_global_suffix(ms, t, i2 as int) is None);
        }
        Err(ParseError::at(ErrorKind::TypeNotFound, 0, 0))
    }
}

/// Build one message's fully-qualified name: a dot, the package, a dot,
/// and the message name.
fn make_full_name(pkg: &Option<Vec<u8>>, name: &Vec<u8>) -> (r: Vec<u8>)
    ensures
        r@ == full_name(
            match pkg {
                Option::Some(p) => p@,
                Option::None => Seq::empty(),
            },
            name@,
        ),
{
    let mut v: Vec<u8> = Vec::new();
    v.push('.' as u8);
    match pkg {
        Option::Some(p) => {
            lex::append_bytes(&mut v, p);
        },
        Option::None => {},
    }
    v.push('.' as u8);
    lex::append_bytes(&mut v, name);
    proof {
        assert(v@ =~= full_name(
            match pkg {
                Option::Some(p) => p@,
                Option::None => Seq::empty(),
            },
            name@,
        ));
    }
    v
}

/// Build the message index of a file set: for each file, its path and the
/// fully-qualified names of its messages in order.
fn build_index(files: &Vec<ParsedFile>) -> (idx: Vec<FileMessages>)
    ensures
        index_matches(idx@, files@),
{
    let mut idx: Vec<FileMessages> = Vec::new();
    let mut i: usize = 0;
    while i < files.len()
        invariant
            0 <= i <= files@.len(),
            idx@.len() == i,
            forall|i2: int| 0 <= i2 < i ==> (#[trigger] idx@[i2]).path@ == files@[i2].path@,
            forall|i2: int|
                0 <= i2 < i ==> (#[trigger] idx@[i2]).messages@.len()
                    == files@[i2].descriptor.message_type@.len(),
            forall|i2: int, j2: int|
                0 <= i2 < i && 0 <= j2 < idx@[i2].messages@.len()
                    ==> (#[trigger] idx@[i2].messages@[j2])@ == full_name(
                    pkg_of(files@[i2].descriptor),
                    files@[i2].descriptor.message_type@[j2].name@,
                ),
        decreases files@.len() - i,
    {
        let fd = &files[i].descriptor;
        let mut names: Vec<Vec<u8>> = Vec::new();
        let mut j: usize = 0;
        while j < fd.message_type.len()
            invariant
                0 <= i < files@.len(),
                fd == &files@[i as int].descriptor,
                0 <= j <= fd.message_type@.len(),
                names@.len() == j,
                forall|j2: int|
                    0 <= j2 < j ==> (#[trigger] names@[j2])@ == full_name(
                        pkg_of(files@[i as int].descriptor),
                        files@[i as int].descriptor.message_type@[j2].name@,
                    ),
            decreases fd.message_type@.len() - j,
        {
            let name = make_full_name(&fd.package, &fd.message_type[j].name);
            names.push(name);
            j += 1;
        }
        let path = lex::copy_bytes(&files[i].path);
        idx.push(FileMessages { path, messages: names });
        i += 1;
    }
    idx
}

/// Everything except the rpc type names is carried over unchanged from a
/// file to its resolved form, and the service and method shapes agree.
pub open spec fn shell_preserved(a: ParsedFile, b: ParsedFile) -> bool {
    &&& b.path == a.path
    &&& b.descriptor.name == a.descriptor.name
    &&& b.descriptor.syntax == a.descriptor.syntax
    &&& b.descriptor.package == a.descriptor.package
    &&& b.descriptor.dependency == a.descriptor.dependency
    &&& b.descriptor.message_type == a.descriptor.message_type
    &&& b.descriptor.enum_type == a.descriptor.enum_type
    &&& b.descriptor.source_code_info == a.descriptor.source_code_info
    &&& b.descriptor.service@.len() == a.descriptor.service@.len()
    &&& forall|k: int|
        0 <= k < a.descriptor.service@.len() ==> {
            &&& (#[trigger] b.descriptor.service@[k]).name == a.descriptor.service@[k].name
            &&& b.descriptor.service@[k].method@.len() == a.descriptor.service@[k].method@.len()
            &&& forall|m: int|
                0 <= m < a.descriptor.service@[k].method@.len()
                    ==> (#[trigger] b.descriptor.service@[k].method@[m]).name
                    == a.descriptor.service@[k].method@[m].name
        }
}

/// Every rpc type of `b` is what the corresponding type of `a` resolves to
/// against the index.
pub open spec fn file_resolved_against(a: ParsedFile, b: ParsedFile, ms: Seq<FileMessages>) -> bool {
    forall|k: int, m: int|
        0 <= k < a.descriptor.service@.len() && 0 <= m < a.descriptor.service@[k].method@.len()
            ==> {
            let am = #[trigger] a.descriptor.service@[k].method@[m];
            let bm = b.descriptor.service@[k].method@[m];
            &&& Some(bm.input_type@) == resolve_type_spec(am.input_type@, a.path@, ms)
            &&& Some(bm.output_type@) == resolve_type_spec(am.output_type@, a.path@, ms)
        }
}

/// Every file of `b` is `a`'s file with its rpc types resolved against
/// the index.
pub open spec fn resolved_against(
    a: Seq<ParsedFile>,
    b: Seq<ParsedFile>,
    ms: Seq<FileMessages>,
) -> bool {
    forall|i: int|
        0 <= i < a.len() ==> file_resolved_against(a[i], #[trigger] b[i], ms)
}

/// The rpc type names of `b` equal those of `a`, method by method.
pub open spec fn types_unchanged(a: Seq<ParsedFile>, b: Seq<ParsedFile>) -> bool {
    forall|i: int, k: int, m: int|
        0 <= i < a.len() && 0 <= k < a[i].descriptor.service@.len() && 0 <= m
            < a[i].descriptor.service@[k].method@.len() ==> {
            let am = #[trigger] a[i].descriptor.service@[k].method@[m];
            let bm = b[i].descriptor.service@[k].method@[m];
            &&& bm.input_type@ == am.input_type@
            &&& bm.output_type@ == am.output_type@
        }
}

/// Two sets whose packages and message names agree declare the same
/// fully-qualified names.
proof fn lemma_files_contain_preserved(a: Seq<ParsedFile>, b: Seq<ParsedFile>, t: Seq<u8>)
    requires
        a.len() == b.len(),
        forall|i: int| 0 <= i < a.len() ==> shell_preserved(a[i], #[trigger] b[i]),
    ensures
        files_contain(a, t) == files_contain(b, t),
{
    if files_contain(a, t) {
        let (i, j) = choose|i: int, j: int|
            0 <= i < a.len() && 0 <= j < a[i].descriptor.message_type@.len() && full_name(
                pkg_of(a[i].descriptor),
                (#[trigger] a[i].descriptor.message_type@[j]).name@,
            ) == t;
        assert(shell_preserved(a[i], b[i]));
        assert(full_name(pkg_of(b[i].descriptor), b[i].descriptor.message_type@[j].name@) == t);
        assert(files_contain(b, t));
    }
    if files_contain(b, t) {
        let (i, j) = choose|i: int, j: int|
            0 <= i < b.len() && 0 <= j < b[i].descriptor.message_type@.len() && full_name(
                pkg_of(b[i].descriptor),
                (#[trigger] b[i].descriptor.message_type@[j]).name@,
            ) == t;
        assert(shell_preserved(a[i], b[i]));
        assert(full_name(pkg_of(a[i].descriptor), a[i].descriptor.message_type@[j].name@) == t);
        assert(files_contain(a, t));
    }
}

/// Resolve every rpc input and output type of every file against the
/// set's message index, leaving everything else as it was.  Succeeds
/// exactly when every type name resolves.  Applying the resolver to an
/// already resolved set gives back the same set: every type name is then
/// fully qualified and declared, so it resolves to itself.
#[verifier::rlimit(100)]
pub fn resolve_files(files: Vec<ParsedFile>) -> (r: Result<Vec<ParsedFile>, ParseError>)
    ensures
        (r is Ok) == all_types_resolve(files@),
        r matches Err(e) ==> e.kind == ErrorKind::TypeNotFound,
        r matches Ok(out) ==> {
            &&& out@.len() == files@.len()
            &&& forall|i: int|
                0 <= i < files@.len() ==> shell_preserved(files@[i], #[trigger] out@[i])
            &&& set_resolved(out@)
            &&& (set_resolved(files@) ==> types_unchanged(files@, out@))
            &&& exists|ms: Seq<FileMessages>|
                index_matches(ms, files@) && #[trigger] resolved_against(files@, out@, ms)
        },
{
    let idx = build_index(&files);
    let ghost F = files@;
    let mut remaining = files;
    let mut out: Vec<ParsedFile> = Vec::new();
    while remaining.len() > 0
        invariant
            index_matches(idx@, F),
            F == files@,
            remaining@ == F.subrange(out@.len() as int, F.len() as int),
            out@.len() <= F.len(),
            forall|i: int|
                0 <= i < out@.len() ==> shell_preserved(F[i], #[trigger] out@[i])
                    && file_resolved_against(F[i], out@[i], idx@),
        decreases remaining@.len(),
    {
        let ghost fi = out@.len() as int;
        let pf = remaining.remove(0);
        proof {
            assert(pf == F[fi]);
            assert(remaining@ =~= F.subrange(fi + 1, F.len() as int));
        }
        let ParsedFile { path, descriptor } = pf;
        let FileDescriptor {
            name,
            syntax: syntax_field,
            package,
            dependency,
            message_type,
            enum_type,
            service,
            source_code_info,
        } = descriptor;
        let ghost svcs_spec = service@;
        let mut svcs_in = service;
        let mut svcs_out: Vec<ServiceDescriptor> = Vec::new();
        while svcs_in.len() > 0
            invariant
                index_matches(idx@, F),
                F == files@,
                0 <= fi < F.len(),
                svcs_spec == F[fi].descriptor.service@,
                path@ == F[fi].path@,
                svcs_in@ == svcs_spec.subrange(svcs_out@.len() as int, svcs_spec.len() as int),
                svcs_out@.len() <= svcs_spec.len(),
                forall|k: int|
                    0 <= k < svcs_out@.len() ==> {
                        &&& (#[trigger] svcs_out@[k]).name == svcs_spec[k].name
                        &&& svcs_out@[k].method@.len() == svcs_spec[k].method@.len()
                        &&& forall|m: int|
                            0 <= m < svcs_spec[k].method@.len() ==> {
                                let am = svcs_spec[k].method@[m];
                                let bm = #[trigger] svcs_out@[k].method@[m];
                                &&& bm.name == am.name
                                &&& Some(bm.input_type@) == resolve_type_spec(
                                    am.input_type@,
                                    F[fi].path@,
                                    idx@,
                                )
                                &&& Some(bm.output_type@) == resolve_type_spec(
                                    am.output_type@,
                                    F[fi].path@,
                                    idx@,
                                )
                            }
                    },
            decreases svcs_in@.len(),
        {
            let ghost ki = svcs_out@.len() as int;
            let sv = svcs_in.remove(0);
            proof {
                assert(sv == svcs_spec[ki]);
                assert(svcs_in@ =~= svcs_spec.subrange(ki + 1, svcs_spec.len() as int));
            }
            let ServiceDescriptor { name: sname, method } = sv;
            let ghost meths_spec = method@;
            let mut m_in = method;
            let mut m_out: Vec<MethodDescriptor> = Vec::new();
            while m_in.len() > 0
                invariant
                    index_matches(idx@, F),
                    F == files@,
                    0 <= fi < F.len(),
                    0 <= ki < F[fi].descriptor.service@.len(),
                    meths_spec == F[fi].descriptor.service@[ki].method@,
                    path@ == F[fi].path@,
                    m_in@ == meths_spec.subrange(m_out@.len() as int, meths_spec.len() as int),
                    m_out@.len() <= meths_spec.len(),
                    forall|m: int|
                        0 <= m < m_out@.len() ==> {
                            let am = meths_spec[m];
                            let bm = #[trigger] m_out@[m];
                            &&& bm.name == am.name
                            &&& Some(bm.input_type@) == resolve_type_spec(
                                am.input_type@,
                                F[fi].path@,
                                idx@,
                            )
                            &&& Some(bm.output_type@) == resolve_type_spec(
                                am.output_type@,
                                F[fi].path@,
                                idx@,
                            )
                        },
                decreases m_in@.len(),
            {
                let ghost mj = m_out@.len() as int;
                let md = m_in.remove(0);
                proof {
                    assert(md == meths_spec[mj]);
                    assert(m_in@ =~= meths_spec.subrange(mj + 1, meths_spec.len() as int));
                }
                let rin_res = resolve_message_type(&md.input_type, &path, &idx);
                let rin = match rin_res {
                    Result::Ok(v) => v,
                    Result::Err(e) => {
                        proof {
                            lemma_resolve_spec(idx@, F, md.input_type@, F[fi].path@);
                            assert(!type_resolvable(md.input_type@, F[fi].path@, F));
                            assert(F[fi].descriptor.service@[ki].method@[mj] == md);
                            assert(!all_types_resolve(F));
                        }
                        return Err(e);
                    },
                };
                let rout_res = resolve_message_type(&md.output_type, &path, &idx);
                let rout = match rout_res {
                    Result::Ok(v) => v,
                    Result::Err(e) => {
                        proof {
                            lemma_resolve_spec(idx@, F, md.output_type@, F[fi].path@);
                            assert(!type_resolvable(md.output_type@, F[fi].path@, F));
                            assert(F[fi].descriptor.service@[ki].method@[mj] == md);
                            assert(!all_types_resolve(F));
                        }
                        return Err(e);
                    },
                };
                m_out.push(MethodDescriptor { name: md.name, input_type: rin, output_type: rout });
            }
            svcs_out.push(ServiceDescriptor { name: sname, method: m_out });
        }
        out.push(
            ParsedFile {
                path,
                descriptor: FileDescriptor {
                    name,
                    syntax: syntax_field,
                    package,
                    dependency,
                    message_type,
                    enum_type,
                    service: svcs_out,
                    source_code_info,
                },
            },
        );
        proof {
            assert(shell_preserved(F[fi], out@[fi]));
            assert(file_resolved_against(F[fi], out@[fi], idx@));
        }
    }
    proof {
        assert(out@.len() == F.len());
        assert forall|i: int, k: int, m: int|
            0 <= i < F.len() && 0 <= k < F[i].descriptor.service@.len() && 0 <= m
                < F[i].descriptor.service@[k].method@.len() implies {
            let md = #[trigger] F[i].descriptor.service@[k].method@[m];
            &&& type_resolvable(md.input_type@, F[i].path@, F)
            &&& type_resolvable(md.output_type@, F[i].path@, F)
        } by {
            assert(file_resolved_against(F[i], out@[i], idx@));
            let am = F[i].descriptor.service@[k].method@[m];
            lemma_resolve_spec(idx@, F, am.input_type@, F[i].path@);
            lemma_resolve_spec(idx@, F, am.output_type@, F[i].path@);
        }
        assert(all_types_resolve(F));
        assert forall|i: int, k: int, m: int|
            0 <= i < out@.len() && 0 <= k < out@[i].descriptor.service@.len() && 0 <= m
                < out@[i].descriptor.service@[k].method@.len() implies {
            let md = #[trigger] out@[i].descriptor.service@[k].method@[m];
            &&& is_absolute(md.input_type@) && files_contain(out@, md.input_type@)
            &&& is_absolute(md.output_type@) && files_contain(out@, md.output_type@)
        } by {
            assert(shell_preserved(F[i], out@[i]));
            assert(file_resolved_against(F[i], out@[i], idx@));
            let am = F[i].descriptor.service@[k].method@[m];
            lemma_resolve_spec(idx@, F, am.input_type@, F[i].path@);
            lemma_resolve_spec(idx@, F, am.output_type@, F[i].path@);
            let bm = out@[i].descriptor.service@[k].method@[m];
            lemma_files_contain_preserved(F, out@, bm.input_type@);
            lemma_files_contain_preserved(F, out@, bm.output_type@);
        }
        assert(set_resolved(out@));
        assert(index_matches(idx@, F) && resolved_against(F, out@, idx@));
        if set_resolved(F) {
            assert forall|i: int, k: int, m: int|
                0 <= i < F.len() && 0 <= k < F[i].descriptor.service@.len() && 0 <= m
                    < F[i].descriptor.service@[k].method@.len() implies {
                let am = #[trigger] F[i].descriptor.service@[k].method@[m];
                let bm = out@[i].descriptor.service@[k].method@[m];
                &&& bm.input_type@ == am.input_type@
                &&& bm.output_type@ == am.output_type@
            } by {
                assert(file_resolved_against(F[i], out@[i], idx@));
                let am = F[i].descriptor.service@[k].method@[m];
                lemma_resolve_spec(idx@, F, am.input_type@, F[i].path@);
                lemma_resolve_spec(idx@, F, am.output_type@, F[i].path@);
            }
            assert(types_unchanged(F, out@));
        }
    }
    Ok(out)
}

/// Some descriptor of the set declares a message whose fully-qualified
/// name is `t`.
pub open spec fn set_contains(ds: Seq<FileDescriptor>, t: Seq<u8>) -> bool {
    exists|i: int, j: int|
        0 <= i < ds.len() && 0 <= j < ds[i].message_type@.len() && full_name(
            pkg_of(ds[i]),
            (#[trigger] ds[i].message_type@[j]).name@,
        ) == t
}

/// Every rpc type in the emitted set is fully qualified and names a
/// message declared somewhere in the set.
pub open spec fn descriptors_resolved(ds: Seq<FileDescriptor>) -> bool {
    forall|i: int, k: int, m: int|
        0 <= i < ds.len() && 0 <= k < ds[i].service@.len() && 0 <= m
            < ds[i].service@[k].method@.len() ==> {
            let md = #[trigger] ds[i].service@[k].method@[m];
            &&& is_absolute(md.input_type@) && set_contains(ds, md.input_type@)
            &&& is_absolute(md.output_type@) && set_contains(ds, md.output_type@)
        }
}

/// Stripping the paths off a file set keeps the declared names.
proof fn lemma_set_contains_agree(fs: Seq<ParsedFile>, ds: Seq<FileDescriptor>, t: Seq<u8>)
    requires
        ds.len() == fs.len(),
        forall|i: int| 0 <= i < ds.len() ==> #[trigger] ds[i] == fs[i].descriptor,
    ensures
        files_contain(fs, t) == set_contains(ds, t),
{
    if files_contain(fs, t) {
        let (i, j) = choose|i: int, j: int|
            0 <= i < fs.len() && 0 <= j < fs[i].descriptor.message_type@.len() && full_name(
                pkg_of(fs[i].descriptor),
                (#[trigger] fs[i].descriptor.message_type@[j]).name@,
            ) == t;
        assert(full_name(pkg_of(ds[i]), ds[i].message_type@[j].name@) == t);
        assert(set_contains(ds, t));
    }
    if set_contains(ds, t) {
        let (i, j) = choose|i: int, j: int|
            0 <= i < ds.len() && 0 <= j < ds[i].message_type@.len() && full_name(
                pkg_of(ds[i]),
                (#[trigger] ds[i].message_type@[j]).name@,
            ) == t;
        assert(full_name(pkg_of(fs[i].descriptor), fs[i].descriptor.message_type@[j].name@) == t);
        assert(files_contain(fs, t));
    }
}

/// The denotations of the input files, path by path, as `file_result`
/// yields them; meaningful where every file parses.
pub open spec fn input_views(files: Seq<InputFile>) -> Seq<(Seq<u8>, grammar::FileView)> {
    Seq::new(
        files.len(),
        |i: int| (files[i].path@, grammar::file_result(files[i].text@)->Some_0.1),
    )
}

/// The whole set is accepted: every file parses completely with at most
/// one package, and every rpc type name of every file resolves against
/// the set's denotations.
pub open spec fn set_parses(files: Seq<InputFile>) -> bool {
    &&& forall|i: int| 0 <= i < files.len() ==> grammar::file_ok((#[trigger] files[i]).text@)
    &&& forall|i: int, k: int, m: int|
        0 <= i < files.len() && 0 <= k < input_views(files)[i].1.items.svcs.len() && 0 <= m
            < input_views(files)[i].1.items.svcs[k].methods.len() ==> {
            let md = #[trigger] input_views(files)[i].1.items.svcs[k].methods[m];
            &&& view_resolve(md.1, files[i].path@, input_views(files)) is Some
            &&& view_resolve(md.2, files[i].path@, input_views(files)) is Some
        }
}

/// An emitted descriptor against its file's denotation: everything equal,
/// and each rpc type name resolved against the set's denotations.
pub open spec fn resolved_file_matches(
    fd: FileDescriptor,
    path: Seq<u8>,
    v: grammar::FileView,
    vfs: Seq<(Seq<u8>, grammar::FileView)>,
) -> bool {
    &&& fd.syntax@ == crate::syntax::syntax_bytes(v.syntax_kind)
    &&& grammar::pkg_seq(fd.package) == v.items.pkgs
    &&& grammar::byte_views(fd.dependency@) == v.items.deps
    &&& grammar::msg_views(fd.message_type@) == v.items.msgs
    &&& grammar::enum_views(fd.enum_type@) == v.items.enums
    &&& fd.service@.len() == v.items.svcs.len()
    &&& forall|k: int|
        0 <= k < v.items.svcs.len() ==> {
            let sv = #[trigger] fd.service@[k];
            &&& sv.name@ == v.items.svcs[k].name
            &&& sv.method@.len() == v.items.svcs[k].methods.len()
            &&& forall|m: int|
                0 <= m < v.items.svcs[k].methods.len() ==> {
                    let md = #[trigger] sv.method@[m];
                    let vm = v.items.svcs[k].methods[m];
                    &&& md.name@ == vm.0
                    &&& Some(md.input_type@) == view_resolve(vm.1, path, vfs)
                    &&& Some(md.output_type@) == view_resolve(vm.2, path, vfs)
                }
        }
}

/// Parse a set of files into a descriptor set: each file is parsed on its
/// own recorder, given the supplied logical name and its completed
/// locations, and finally every rpc type name is resolved across the set.
///
/// On success the set holds one descriptor per input in order, each
/// carrying its given name; each descriptor's locations form a well-formed
/// pre-order trace with dense sibling indices and completed spans, with
/// the root location first and the syntax statement after it; and every
/// rpc type name is fully qualified and declared by some file of the set.
#[verifier::rlimit(50)]
pub fn parse(files: Vec<InputFile>) -> (r: Result<FileDescriptorSet, ParseError>)
    requires
        forall|i: int|
            0 <= i < files@.len() ==> (#[trigger] files@[i]).text@.len() <= INPUT_MAX,
    ensures
        (r is Ok) == set_parses(files@),
        r matches Ok(set) ==> {
            &&& set.file@.len() == files@.len()
            &&& forall|i: int|
                0 <= i < files@.len() ==> (#[trigger] set.file@[i]).name@ == files@[i].name@
            &&& forall|i: int|
                0 <= i < files@.len() ==> crate::source::source_info_wf(
                    (#[trigger] set.file@[i]).source_code_info@,
                )
            &&& forall|i: int|
                0 <= i < files@.len() ==> {
                    let L = (#[trigger] set.file@[i]).source_code_info@;
                    &&& L.len() >= 2
                    &&& L[0].path@.len() == 0
                    &&& L[1].path@ =~= seq![12i32]
                }
            &&& forall|i: int|
                0 <= i < files@.len() ==> ((#[trigger] set.file@[i]).syntax@
                    == keyword::kw_proto2() || set.file@[i].syntax@ == keyword::kw_proto3())
            &&& descriptors_resolved(set.file@)
            &&& forall|i: int|
                0 <= i < files@.len() ==> resolved_file_matches(
                    #[trigger] set.file@[i],
                    files@[i].path@,
                    input_views(files@)[i].1,
                    input_views(files@),
                )
        },
{
    let ghost src_files = files@;
    let mut remaining = files;
    let mut parsed: Vec<ParsedFile> = Vec::new();
    while remaining.len() > 0
        invariant
            src_files == files@,
            forall|i: int|
                0 <= i < src_files.len() ==> (#[trigger] src_files[i]).text@.len() <= INPUT_MAX,
            remaining@ == src_files.subrange(parsed@.len() as int, src_files.len() as int),
            parsed@.len() <= src_files.len(),
            forall|i: int|
                0 <= i < parsed@.len() ==> {
                    let pf = #[trigger] parsed@[i];
                    &&& pf.descriptor.name@ == src_files[i].name@
                    &&& crate::source::source_info_wf(pf.descriptor.source_code_info@)
                    &&& pf.descriptor.source_code_info@.len() >= 2
                    &&& pf.descriptor.source_code_info@[0].path@.len() == 0
                    &&& pf.descriptor.source_code_info@[1].path@ =~= seq![12i32]
                    &&& (pf.descriptor.syntax@ == keyword::kw_proto2() || pf.descriptor.syntax@
                        == keyword::kw_proto3())
                },
            forall|i: int|
                0 <= i < parsed@.len() ==> grammar::file_ok((#[trigger] src_files[i]).text@),
            forall|i: int|
                0 <= i < parsed@.len() ==> (#[trigger] parsed@[i]).path@ == src_files[i].path@,
            forall|i: int|
                0 <= i < parsed@.len() ==> grammar::file_contents_match(
                    (#[trigger] parsed@[i]).descriptor,
                    input_views(src_files)[i].1,
                ),
            forall|i: int|
                0 <= i < parsed@.len() ==> (#[trigger] input_views(
                    src_files,
                )[i]).1.items.pkgs.len() <= 1,
        decreases remaining@.len(),
    {
        let ghost fi = parsed@.len() as int;
        let f = remaining.remove(0);
        proof {
            assert(f == src_files[fi]);
            assert(remaining@ =~= src_files.subrange(fi + 1, src_files.len() as int));
        }
        let InputFile { path, name, text } = f;
        let mut recorder = source::LocationRecorder::new();
        let res = file::parse(&text, &mut recorder);
        match res {
            Result::Err(e) => {
                proof {
                    assert(!grammar::file_ok(src_files[fi].text@));
                    assert(!set_parses(src_files));
                }
                return Err(e);
            },
            Result::Ok((_end, mut fd)) => {
                let ghost ledger = recorder.locations@;
                fd.name = name;
                proof {
                    assert forall|i: int|
                        0 <= i < ledger.len() implies (#[trigger] ledger[i]).span@.len() > 2 by {
                        assert(crate::source::completed_span_ok(ledger[i].span@));
                    }
                    crate::source::lemma_completed_identity(ledger);
                }
                let locs = recorder.into_inner();
                fd.source_code_info = locs;
                parsed.push(ParsedFile { path, descriptor: fd });
            },
        }
    }
    let ghost parsed_snapshot = parsed@;
    let ghost vfs = input_views(src_files);
    proof {
        assert(views_match(parsed_snapshot, vfs));
    }
    let resolved = match resolve_files(parsed) {
        Result::Err(e) => {
            proof {
                if set_parses(src_files) {
                    assert forall|i: int, k: int, m: int|
                        0 <= i < parsed_snapshot.len() && 0 <= k
                            < parsed_snapshot[i].descriptor.service@.len() && 0 <= m
                            < parsed_snapshot[i].descriptor.service@[k].method@.len() implies {
                        let md = #[trigger] parsed_snapshot[i].descriptor.service@[k].method@[m];
                        &&& type_resolvable(md.input_type@, parsed_snapshot[i].path@, parsed_snapshot)
                        &&& type_resolvable(
                            md.output_type@,
                            parsed_snapshot[i].path@,
                            parsed_snapshot,
                        )
                    } by {
                        let md = parsed_snapshot[i].descriptor.service@[k].method@[m];
                        assert(grammar::svc_views(parsed_snapshot[i].descriptor.service@)[k]
                            == vfs[i].1.items.svcs[k]);
                        assert(grammar::method_views(
                            parsed_snapshot[i].descriptor.service@[k].method@,
                        )[m] == vfs[i].1.items.svcs[k].methods[m]);
                        lemma_view_resolvable(
                            parsed_snapshot,
                            vfs,
                            md.input_type@,
                            src_files[i].path@,
                        );
                        lemma_view_resolvable(
                            parsed_snapshot,
                            vfs,
                            md.output_type@,
                            src_files[i].path@,
                        );
                    }
                    assert(all_types_resolve(parsed_snapshot));
                    assert(false);
                }
            }
            return Err(e);
        },
        Result::Ok(out) => out,
    };
    let ghost resolved_snapshot = resolved@;
    let mut rest = resolved;
    let mut out_files: Vec<FileDescriptor> = Vec::new();
    while rest.len() > 0
        invariant
            rest@ == resolved_snapshot.subrange(out_files@.len() as int, resolved_snapshot.len() as int),
            out_files@.len() <= resolved_snapshot.len(),
            forall|i: int|
                0 <= i < out_files@.len() ==> #[trigger] out_files@[i]
                    == resolved_snapshot[i].descriptor,
        decreases rest@.len(),
    {
        let ghost fi = out_files@.len() as int;
        let pf = rest.remove(0);
        proof {
            assert(pf == resolved_snapshot[fi]);
            assert(rest@ =~= resolved_snapshot.subrange(fi + 1, resolved_snapshot.len() as int));
        }
        out_files.push(pf.descriptor);
    }
    proof {
        assert(out_files@.len() == resolved_snapshot.len());
        assert forall|i: int, k: int, m: int|
            0 <= i < out_files@.len() && 0 <= k < out_files@[i].service@.len() && 0 <= m
                < out_files@[i].service@[k].method@.len() implies {
            let md = #[trigger] out_files@[i].service@[k].method@[m];
            &&& is_absolute(md.input_type@) && set_contains(out_files@, md.input_type@)
            &&& is_absolute(md.output_type@) && set_contains(out_files@, md.output_type@)
        } by {
            assert(out_files@[i] == resolved_snapshot[i].descriptor);
            let md = resolved_snapshot[i].descriptor.service@[k].method@[m];
            lemma_set_contains_agree(resolved_snapshot, out_files@, md.input_type@);
            lemma_set_contains_agree(resolved_snapshot, out_files@, md.output_type@);
        }
        assert(descriptors_resolved(out_files@));
        let ms = choose|ms: Seq<FileMessages>|
            index_matches(ms, parsed_snapshot) && #[trigger] resolved_against(
                parsed_snapshot,
                resolved_snapshot,
                ms,
            );
        assert forall|i: int|
            0 <= i < src_files.len() implies resolved_file_matches(
            #[trigger] out_files@[i],
            src_files[i].path@,
            vfs[i].1,
            vfs,
        ) by {
            assert(out_files@[i] == resolved_snapshot[i].descriptor);
            assert(shell_preserved(parsed_snapshot[i], resolved_snapshot[i]));
            assert(file_resolved_against(parsed_snapshot[i], resolved_snapshot[i], ms));
            assert(grammar::file_contents_match(parsed_snapshot[i].descriptor, vfs[i].1));
            let v = vfs[i].1;
            assert forall|k: int| 0 <= k < v.items.svcs.len() implies {
                let sv = #[trigger] out_files@[i].service@[k];
                &&& sv.name@ == v.items.svcs[k].name
                &&& sv.method@.len() == v.items.svcs[k].methods.len()
                &&& forall|m: int|
                    0 <= m < v.items.svcs[k].methods.len() ==> {
                        let md = #[trigger] sv.method@[m];
                        let vm = v.items.svcs[k].methods[m];
                        &&& md.name@ == vm.0
                        &&& Some(md.input_type@) == view_resolve(vm.1, src_files[i].path@, vfs)
                        &&& Some(md.output_type@) == view_resolve(vm.2, src_files[i].path@, vfs)
                    }
            } by {
                assert(grammar::svc_views(parsed_snapshot[i].descriptor.service@)[k]
                    == v.items.svcs[k]);
                assert forall|m: int| 0 <= m < v.items.svcs[k].methods.len() implies {
                    let md = #[trigger] out_files@[i].service@[k].method@[m];
                    let vm = v.items.svcs[k].methods[m];
                    &&& md.name@ == vm.0
                    &&& Some(md.input_type@) == view_resolve(vm.1, src_files[i].path@, vfs)
                    &&& Some(md.output_type@) == view_resolve(vm.2, src_files[i].path@, vfs)
                } by {
                    let am = parsed_snapshot[i].descriptor.service@[k].method@[m];
                    assert(grammar::method_views(
                        parsed_snapshot[i].descriptor.service@[k].method@,
                    )[m] == v.items.svcs[k].methods[m]);
                    lemma_view_resolve_agree(
                        ms,
                        parsed_snapshot,
                        vfs,
                        am.input_type@,
                        src_files[i].path@,
                    );
                    lemma_view_resolve_agree(
                        ms,
                        parsed_snapshot,
                        vfs,
                        am.output_type@,
                        src_files[i].path@,
                    );
                }
            }
        }
        assert forall|i: int, k: int, m: int|
            0 <= i < src_files.len() && 0 <= k < vfs[i].1.items.svcs.len() && 0 <= m
                < vfs[i].1.items.svcs[k].methods.len() implies {
            let md = #[trigger] input_views(src_files)[i].1.items.svcs[k].methods[m];
            &&& view_resolve(md.1, src_files[i].path@, input_views(src_files)) is Some
            &&& view_resolve(md.2, src_files[i].path@, input_views(src_files)) is Some
        } by {
            let am = parsed_snapshot[i].descriptor.service@[k].method@[m];
            assert(grammar::svc_views(parsed_snapshot[i].descriptor.service@)[k]
                == vfs[i].1.items.svcs[k]);
            assert(grammar::method_views(parsed_snapshot[i].descriptor.service@[k].method@)[m]
                == vfs[i].1.items.svcs[k].methods[m]);
            assert(file_resolved_against(parsed_snapshot[i], resolved_snapshot[i], ms));
            lemma_view_resolve_agree(ms, parsed_snapshot, vfs, am.input_type@, src_files[i].path@);
            lemma_view_resolve_agree(
                ms,
                parsed_snapshot,
                vfs,
                am.output_type@,
                src_files[i].path@,
            );
        }
        assert(set_parses(src_files));
        assert forall|i: int| 0 <= i < out_files@.len() implies {
            let fd = #[trigger] out_files@[i];
            &&& fd.name@ == src_files[i].name@
            &&& crate::source::source_info_wf(fd.source_code_info@)
            &&& fd.source_code_info@.len() >= 2
            &&& fd.source_code_info@[0].path@.len() == 0
            &&& fd.source_code_info@[1].path@ =~= seq![12i32]
            &&& (fd.syntax@ == keyword::kw_proto2() || fd.syntax@ == keyword::kw_proto3())
        } by {
            assert(shell_preserved(parsed_snapshot[i], resolved_snapshot[i]));
            assert(out_files@[i] == resolved_snapshot[i].descriptor);
        }
    }
    Ok(FileDescriptorSet { file: out_files })
}

} // verus!
