//! The location ledger: the shared record of source locations accumulated
//! while parsing, the tag strategies that compute each node's path into the
//! descriptor tree, and the recorder operations `start`, `end`, `discard`
//! and `finish`.
//!
//! The ledger's well-formedness predicate pins down the three global
//! properties of the emitted locations: every non-root path has one of the
//! tree shapes this grammar produces, sibling indices are dense and
//! monotonic (each repeated node's index equals the number of earlier
//! siblings of its kind), and a path that strictly extends another is
//! recorded after it, so completed locations appear in pre-order.

use vstd::prelude::*;
use crate::cursor::{Cursor, INPUT_MAX};
use crate::descriptor::Location;
use crate::cursor::lemma_cursor_bounds;
use crate::comment;
use crate::lex;

verus! {

/// Field tags of repeated file-level nodes: dependency, message type, enum
/// type, service.
pub open spec fn top_tag(t: i32) -> bool {
    t == 3 || t == 4 || t == 5 || t == 6
}

/// A top-level repeated node's path: `[tag, index]`.
pub open spec fn is_top(p: Seq<i32>, t: i32) -> bool {
    p.len() == 2 && p[0] == t
}

/// Every path this parser records has one of these shapes:
/// the root `[]`; `[12]` (syntax) or `[2]` (package); `[t, i]` for a
/// repeated file-level node; `[t, i, 1]` for a message or service name;
/// `[t, i, 2, k]` for a field or method; `[6, i, 2, k, c]` for a method's
/// name, input type or output type.
pub open spec fn shape_ok(p: Seq<i32>) -> bool {
    ||| p.len() == 0
    ||| (p.len() == 1 && (p[0] == 12 || p[0] == 2))
    ||| (p.len() == 2 && top_tag(p[0]) && p[1] >= 0)
    ||| (p.len() == 3 && (p[0] == 4 || p[0] == 6) && p[1] >= 0 && p[2] == 1)
    ||| (p.len() == 4 && (p[0] == 4 || p[0] == 6) && p[1] >= 0 && p[2] == 2 && p[3] >= 0)
    ||| (p.len() == 5 && p[0] == 6 && p[1] >= 0 && p[2] == 2 && p[3] >= 0 && (p[4] == 1 || p[4]
        == 2 || p[4] == 3))
}

/// How many of the first `i` ledger entries are top-level nodes of tag `t`.
pub open spec fn count_top(L: Seq<Location>, t: i32, i: int) -> int
    decreases i,
{
    if i <= 0 {
        0
    } else {
        count_top(L, t, i - 1) + if is_top(L[i - 1].path@, t) {
            1int
        } else {
            0int
        }
    }
}

/// How many of the first `i` ledger entries are items (fields or methods,
/// paths `[t, m, 2, k]`) of the parent with tag `t` and index `m`.
pub open spec fn count_item(L: Seq<Location>, t: i32, m: i32, i: int) -> int
    decreases i,
{
    if i <= 0 {
        0
    } else {
        count_item(L, t, m, i - 1) + if L[i - 1].path@.len() == 4 && L[i - 1].path@[0] == t && L[i
            - 1].path@[1] == m {
            1int
        } else {
            0int
        }
    }
}

/// `a` is a strict prefix of `b`.
pub open spec fn strict_prefix(a: Seq<i32>, b: Seq<i32>) -> bool {
    a.len() < b.len() && a == b.take(a.len() as int)
}

/// Well-formedness of the ledger's paths.
///
/// Dense monotonic sibling indices are stated by counting: a repeated
/// node's final path component equals the number of earlier siblings of
/// its kind, so among the completed locations the indices `0..n` each
/// appear exactly once and in recording order.  Entries under a parent
/// carry the index of the most recent parent of their tag.  The prefix
/// clause at the end makes the ledger a pre-order trace: a path is
/// recorded before every path that strictly extends it.
#[verifier::opaque]
pub open spec fn paths_ok(L: Seq<Location>) -> bool {
    &&& forall|i: int| 0 <= i < L.len() ==> shape_ok((#[trigger] L[i]).path@)
    &&& forall|i: int| 0 < i < L.len() ==> (#[trigger] L[i]).path@.len() > 0
    &&& forall|i: int|
        0 <= i < L.len() && (#[trigger] L[i]).path@.len() == 2 && top_tag(L[i].path@[0])
            ==> L[i].path@[1] == count_top(L, L[i].path@[0], i)
    &&& forall|i: int|
        0 <= i < L.len() && (#[trigger] L[i]).path@.len() > 2 && top_tag(L[i].path@[0]) ==> {
            &&& count_top(L, L[i].path@[0], i) >= 1
            &&& L[i].path@[1] == count_top(L, L[i].path@[0], i) - 1
        }
    &&& forall|i: int|
        0 <= i < L.len() && (#[trigger] L[i]).path@.len() == 4 ==> L[i].path@[3] == count_item(
            L,
            L[i].path@[0],
            L[i].path@[1],
            i,
        )
    &&& forall|i: int|
        0 <= i < L.len() && (#[trigger] L[i]).path@.len() == 5 ==> {
            &&& count_item(L, 6, L[i].path@[1], i) >= 1
            &&& L[i].path@[3] == count_item(L, 6, L[i].path@[1], i) - 1
        }
    &&& forall|i: int, j: int|
        0 <= i < L.len() && 0 <= j < L.len() && strict_prefix(
            (#[trigger] L[i]).path@,
            (#[trigger] L[j]).path@,
        ) ==> i < j
}

/// A span that recording has completed: `[sl, sc, ec]` or
/// `[sl, sc, el, ec]` with the end line strictly after the start line.
pub open spec fn completed_span_ok(sp: Seq<i32>) -> bool {
    &&& 3 <= sp.len() <= 4
    &&& sp[0] >= 0 && sp[1] >= 0 && sp[2] >= 0
    &&& sp.len() == 4 ==> sp[0] < sp[2] && sp[3] >= 0
}

/// Every span is either a two-entry placeholder or completed.
#[verifier::opaque]
pub open spec fn spans_ok(L: Seq<Location>) -> bool {
    forall|i: int|
        0 <= i < L.len() ==> {
            ||| ((#[trigger] L[i]).span@.len() == 2 && L[i].span@[0] >= 0 && L[i].span@[1] >= 0)
            ||| completed_span_ok(L[i].span@)
        }
}

/// The ledger invariant every parser maintains.
pub open spec fn ledger_ok(L: Seq<Location>) -> bool {
    paths_ok(L) && spans_ok(L)
}

/// Every entry's recording was completed.
pub open spec fn all_completed(L: Seq<Location>) -> bool {
    forall|i: int| 0 <= i < L.len() ==> completed_span_ok((#[trigger] L[i]).span@)
}

/// What holds of an emitted `source_code_info` list: well-formed pre-order
/// paths with dense sibling indices, and a completed span on every entry.
pub open spec fn source_info_wf(L: Seq<Location>) -> bool {
    paths_ok(L) && all_completed(L)
}

/// Counting functions only look at paths, so two ledgers with equal paths
/// entry by entry count alike.
pub proof fn lemma_count_agree(L1: Seq<Location>, L2: Seq<Location>, t: i32, m: i32, i: int)
    requires
        i <= L1.len(),
        i <= L2.len(),
        forall|j: int| 0 <= j < i ==> (#[trigger] L1[j]).path@ == L2[j].path@,
    ensures
        count_top(L1, t, i) == count_top(L2, t, i),
        count_item(L1, t, m, i) == count_item(L2, t, m, i),
    decreases i,
{
    if i > 0 {
        lemma_count_agree(L1, L2, t, m, i - 1);
    }
}

/// Counts grow monotonically and by at most one per entry.
pub proof fn lemma_count_bounds(L: Seq<Location>, t: i32, m: i32, i: int, j: int)
    requires
        0 <= i <= j,
    ensures
        count_top(L, t, i) <= count_top(L, t, j) <= count_top(L, t, i) + (j - i),
        count_item(L, t, m, i) <= count_item(L, t, m, j) <= count_item(L, t, m, i) + (j - i),
    decreases j - i,
{
    if i < j {
        lemma_count_bounds(L, t, m, i, j - 1);
    }
}

/// A prefix of a well-formed ledger is well-formed.
pub proof fn lemma_ledger_ok_take(L: Seq<Location>, n: int)
    requires
        ledger_ok(L),
        0 <= n <= L.len(),
    ensures
        ledger_ok(L.take(n)),
{
    reveal(paths_ok);
    reveal(spans_ok);
    let P = L.take(n);
    assert forall|i: int| 0 <= i < P.len() implies {
        &&& shape_ok((#[trigger] P[i]).path@)
        &&& (0 < i ==> P[i].path@.len() > 0)
        &&& (P[i].path@.len() == 2 && top_tag(P[i].path@[0]) ==> P[i].path@[1] == count_top(
            P,
            P[i].path@[0],
            i,
        ))
        &&& (P[i].path@.len() > 2 && top_tag(P[i].path@[0]) ==> count_top(P, P[i].path@[0], i)
            >= 1 && P[i].path@[1] == count_top(P, P[i].path@[0], i) - 1)
        &&& (P[i].path@.len() == 4 ==> P[i].path@[3] == count_item(
            P,
            P[i].path@[0],
            P[i].path@[1],
            i,
        ))
        &&& (P[i].path@.len() == 5 ==> count_item(P, 6, P[i].path@[1], i) >= 1 && P[i].path@[3]
            == count_item(P, 6, P[i].path@[1], i) - 1)
    } by {
        assert(P[i] == L[i]);
        lemma_count_agree(P, L, P[i].path@[0], P[i].path@[1], i);
        lemma_count_agree(P, L, 6, P[i].path@[1], i);
    }
    assert forall|i: int, j: int|
        0 <= i < P.len() && 0 <= j < P.len() && strict_prefix(
            (#[trigger] P[i]).path@,
            (#[trigger] P[j]).path@,
        ) implies i < j by {
        assert(P[i] == L[i]);
        assert(P[j] == L[j]);
    }
    assert forall|i: int| 0 <= i < P.len() implies {
        ||| ((#[trigger] P[i]).span@.len() == 2 && P[i].span@[0] >= 0 && P[i].span@[1] >= 0)
        ||| completed_span_ok(P[i].span@)
    } by {
        assert(P[i] == L[i]);
    }
}

/// What must hold of a new path `q` for appending it to keep the ledger
/// well-formed: its sibling index is the next free one of its kind and its
/// parent is the most recent node of its tag.
pub open spec fn push_pre(L: Seq<Location>, q: Seq<i32>) -> bool {
    &&& q.len() == 0 ==> L.len() == 0
    &&& q.len() == 2 ==> q[1] == count_top(L, q[0], L.len() as int)
    &&& q.len() == 3 ==> count_top(L, q[0], L.len() as int) == q[1] + 1
    &&& q.len() == 4 ==> {
        &&& count_top(L, q[0], L.len() as int) == q[1] + 1
        &&& q[3] == count_item(L, q[0], q[1], L.len() as int)
    }
    &&& q.len() == 5 ==> {
        &&& count_top(L, 6, L.len() as int) == q[1] + 1
        &&& count_item(L, 6, q[1], L.len() as int) == q[3] + 1
    }
}

/// Appending an entry whose path satisfies `push_pre` keeps the ledger
/// well-formed.
pub proof fn lemma_ledger_push(L: Seq<Location>, loc: Location)
    requires
        ledger_ok(L),
        shape_ok(loc.path@),
        (loc.span@.len() == 2 && loc.span@[0] >= 0 && loc.span@[1] >= 0) || completed_span_ok(
            loc.span@,
        ),
        push_pre(L, loc.path@),
    ensures
        ledger_ok(L.push(loc)),
{
    reveal(paths_ok);
    reveal(spans_ok);
    let n = L.len() as int;
    let L2 = L.push(loc);
    let q = loc.path@;
    assert(forall|i: int| 0 <= i < n ==> (#[trigger] L2[i]).path@ == L[i].path@);
    assert(L2[n] == loc);
    assert forall|i: int| 0 <= i < L2.len() implies {
        &&& shape_ok((#[trigger] L2[i]).path@)
        &&& (0 < i ==> L2[i].path@.len() > 0)
        &&& (L2[i].path@.len() == 2 && top_tag(L2[i].path@[0]) ==> L2[i].path@[1] == count_top(
            L2,
            L2[i].path@[0],
            i,
        ))
        &&& (L2[i].path@.len() > 2 && top_tag(L2[i].path@[0]) ==> count_top(L2, L2[i].path@[0], i)
            >= 1 && L2[i].path@[1] == count_top(L2, L2[i].path@[0], i) - 1)
        &&& (L2[i].path@.len() == 4 ==> L2[i].path@[3] == count_item(
            L2,
            L2[i].path@[0],
            L2[i].path@[1],
            i,
        ))
        &&& (L2[i].path@.len() == 5 ==> count_item(L2, 6, L2[i].path@[1], i) >= 1 && L2[i].path@[3]
            == count_item(L2, 6, L2[i].path@[1], i) - 1)
    } by {
        lemma_count_agree(L2, L, L2[i].path@[0], L2[i].path@[1], i);
        lemma_count_agree(L2, L, 6, L2[i].path@[1], i);
        if i < n {
            assert(L2[i] == L[i]);
        } else {
            if q.len() == 0 {
                assert(n == 0);
            }
        }
    }
    // a new path never strictly extends backwards: nothing already in the
    // ledger strictly extends the new path
    assert forall|j: int| 0 <= j < n implies !strict_prefix(q, (#[trigger] L[j]).path@) by {
        let p = L[j].path@;
        if strict_prefix(q, p) {
            assert(forall|k: int| 0 <= k < q.len() ==> p[k] == q[k]);
            assert(shape_ok(p));
            if q.len() == 0 {
                assert(false);
            } else if q.len() == 1 {
                assert(p.len() >= 2 && p[0] == q[0]);
                assert(false);
            } else if q.len() == 2 {
                assert(p.len() > 2 && p[0] == q[0] && p[1] == q[1]);
                lemma_count_bounds(L, q[0], 0, j, n);
                assert(p[1] == count_top(L, q[0], j) - 1);
                assert(false);
            } else if q.len() == 3 {
                assert(p.len() >= 4 && p[2] == q[2]);
                assert(false);
            } else if q.len() == 4 {
                assert(p.len() == 5 && p[0] == q[0] && p[1] == q[1] && p[3] == q[3]);
                assert(q[0] == 6);
                lemma_count_bounds(L, 6, q[1], j, n);
                assert(p[3] == count_item(L, 6, p[1], j) - 1);
                assert(false);
            } else {
                assert(q.len() == 5 && p.len() > 5);
                assert(false);
            }
        }
    }
    assert forall|i: int, j: int|
        0 <= i < L2.len() && 0 <= j < L2.len() && strict_prefix(
            (#[trigger] L2[i]).path@,
            (#[trigger] L2[j]).path@,
        ) implies i < j by {
        if i < n && j < n {
            assert(L2[i] == L[i] && L2[j] == L[j]);
        } else if i == n && j < n {
            assert(!strict_prefix(q, L[j].path@));
        } else if i == n && j == n {
            assert(!strict_prefix(q, q));
        }
    }
    assert forall|i: int| 0 <= i < L2.len() implies {
        ||| ((#[trigger] L2[i]).span@.len() == 2 && L2[i].span@[0] >= 0 && L2[i].span@[1] >= 0)
        ||| completed_span_ok(L2[i].span@)
    } by {
        if i < n {
            assert(L2[i] == L[i]);
        }
    }
}

/// Replacing an entry's span while keeping its path keeps the ledger
/// well-formed.
pub proof fn lemma_ledger_update(L: Seq<Location>, idx: int, loc2: Location)
    requires
        ledger_ok(L),
        0 <= idx < L.len(),
        loc2.path@ == L[idx].path@,
        completed_span_ok(loc2.span@) || (loc2.span@.len() == 2 && loc2.span@[0] >= 0
            && loc2.span@[1] >= 0),
    ensures
        ledger_ok(L.update(idx, loc2)),
{
    reveal(paths_ok);
    reveal(spans_ok);
    let L2 = L.update(idx, loc2);
    assert(forall|i: int| 0 <= i < L.len() ==> (#[trigger] L2[i]).path@ == L[i].path@);
    assert forall|i: int| 0 <= i < L2.len() implies {
        &&& shape_ok((#[trigger] L2[i]).path@)
        &&& (0 < i ==> L2[i].path@.len() > 0)
        &&& (L2[i].path@.len() == 2 && top_tag(L2[i].path@[0]) ==> L2[i].path@[1] == count_top(
            L2,
            L2[i].path@[0],
            i,
        ))
        &&& (L2[i].path@.len() > 2 && top_tag(L2[i].path@[0]) ==> count_top(L2, L2[i].path@[0], i)
            >= 1 && L2[i].path@[1] == count_top(L2, L2[i].path@[0], i) - 1)
        &&& (L2[i].path@.len() == 4 ==> L2[i].path@[3] == count_item(
            L2,
            L2[i].path@[0],
            L2[i].path@[1],
            i,
        ))
        &&& (L2[i].path@.len() == 5 ==> count_item(L2, 6, L2[i].path@[1], i) >= 1 && L2[i].path@[3]
            == count_item(L2, 6, L2[i].path@[1], i) - 1)
    } by {
        lemma_count_agree(L2, L, L2[i].path@[0], L2[i].path@[1], i);
        lemma_count_agree(L2, L, 6, L2[i].path@[1], i);
    }
    assert forall|i: int, j: int|
        0 <= i < L2.len() && 0 <= j < L2.len() && strict_prefix(
            (#[trigger] L2[i]).path@,
            (#[trigger] L2[j]).path@,
        ) implies i < j by {
        assert(L2[i].path@ == L[i].path@ && L2[j].path@ == L[j].path@);
    }
    assert forall|i: int| 0 <= i < L2.len() implies {
        ||| ((#[trigger] L2[i]).span@.len() == 2 && L2[i].span@[0] >= 0 && L2[i].span@[1] >= 0)
        ||| completed_span_ok(L2[i].span@)
    } by {
        if i != idx {
            assert(L2[i] == L[i]);
        }
    }
}

/// Strategy objects computing a node's descriptor path from the ledger's
/// current state: one variant per node kind the grammar records.
#[derive(Clone, Copy, Debug, PartialEq, Eq, Structural)]
pub enum Tag {
    /// The file itself: the empty path.
    Root,
    /// The file's syntax statement.
    Syntax,
    /// The file's package statement.
    Package,
    /// An import, repeated under the file.
    Dependency,
    /// A message, repeated under the file.
    MessageType,
    /// An enum, repeated under the file.
    EnumType,
    /// A service, repeated under the file.
    Service,
    /// The name of the most recently started node.
    Name,
    /// A field, repeated under the innermost message.
    Field,
    /// A method, repeated under the innermost service.
    Method,
    /// A method's input type.
    MethodInput,
    /// A method's output type.
    MethodOutput,
}

/// The sibling index a new top-level node of tag `t` receives: scanning
/// the ledger from the most recent entry backward, one past the index
/// carried by the first entry whose path begins with `t`, or 0 when there
/// is none.
pub open spec fn next_index(L: Seq<Location>, t: i32) -> int
    decreases L.len(),
{
    if L.len() == 0 {
        0
    } else if L.last().path@.len() >= 1 && L.last().path@[0] == t {
        L.last().path@[1] + 1
    } else {
        next_index(L.drop_last(), t)
    }
}

/// A path a new field or method derives its own path from: the parent's
/// name marker `[t, i, 1]` or an earlier sibling `[t, i, 2, k]`.
pub open spec fn sib_match(p: Seq<i32>, t: i32) -> bool {
    ||| (p.len() == 3 && p[0] == t && p[2] == 1)
    ||| (p.len() == 4 && p[0] == t && p[2] == 2)
}

/// The path of a new field (`t == 4`) or method (`t == 6`): scanning
/// backward for the first entry matching `sib_match`, the first sibling
/// `[t, i, 2, 0]` after a name marker, or the next index after a sibling.
pub open spec fn sibling_path(L: Seq<Location>, t: i32) -> Seq<i32>
    decreases L.len(),
{
    if L.len() == 0 {
        Seq::empty()
    } else if sib_match(L.last().path@, t) {
        let p = L.last().path@;
        if p.len() == 3 {
            seq![t, p[1], 2, 0]
        } else {
            p.update(3, (p[3] + 1) as i32)
        }
    } else {
        sibling_path(L.drop_last(), t)
    }
}

/// The path each tag assigns given the ledger recorded so far.
pub open spec fn into_path_spec(tag: Tag, L: Seq<Location>) -> Seq<i32> {
    match tag {
        Tag::Root => Seq::empty(),
        Tag::Syntax => seq![12],
        Tag::Package => seq![2],
        Tag::Dependency => seq![3, next_index(L, 3) as i32],
        Tag::MessageType => seq![4, next_index(L, 4) as i32],
        Tag::EnumType => seq![5, next_index(L, 5) as i32],
        Tag::Service => seq![6, next_index(L, 6) as i32],
        Tag::Name => L.last().path@.push(1),
        Tag::Field => sibling_path(L, 4),
        Tag::Method => sibling_path(L, 6),
        Tag::MethodInput => L.last().path@.drop_last().push(2),
        Tag::MethodOutput => L.last().path@.drop_last().push(3),
    }
}

/// What each tag needs of the ledger for its path computation to be
/// meaningful.
pub open spec fn tag_pre(tag: Tag, L: Seq<Location>) -> bool {
    match tag {
        Tag::Root => true,
        Tag::Syntax => true,
        Tag::Package => true,
        Tag::Dependency => paths_ok(L),
        Tag::MessageType => paths_ok(L),
        Tag::EnumType => paths_ok(L),
        Tag::Service => paths_ok(L),
        Tag::Name => L.len() > 0,
        Tag::Field => paths_ok(L) && exists|j: int|
            0 <= j < L.len() && sib_match((#[trigger] L[j]).path@, 4),
        Tag::Method => paths_ok(L) && exists|j: int|
            0 <= j < L.len() && sib_match((#[trigger] L[j]).path@, 6),
        Tag::MethodInput => L.len() > 0 && L.last().path@.len() >= 1,
        Tag::MethodOutput => L.len() > 0 && L.last().path@.len() >= 1,
    }
}

/// Under the ledger invariant, the backward scan agrees with counting: a
/// new top-level node's index is the number of its earlier siblings.
pub proof fn lemma_next_index_count(L: Seq<Location>, t: i32)
    requires
        ledger_ok(L),
        top_tag(t),
    ensures
        next_index(L, t) == count_top(L, t, L.len() as int),
    decreases L.len(),
{
    reveal(paths_ok);
    if L.len() > 0 {
        let n = L.len() as int;
        let p = L.last().path@;
        assert(shape_ok(p));
        if p.len() >= 1 && p[0] == t {
            if p.len() == 2 {
                assert(p[1] == count_top(L, t, n - 1));
            } else {
                assert(p.len() > 2);
                assert(count_top(L, t, n - 1) >= 1 && p[1] == count_top(L, t, n - 1) - 1);
            }
        } else {
            assert(L.drop_last() =~= L.take(n - 1));
            lemma_ledger_ok_take(L, n - 1);
            lemma_next_index_count(L.take(n - 1), t);
            lemma_count_agree(L, L.take(n - 1), t, 0, n - 1);
            assert(!is_top(p, t));
        }
    }
}

/// Copy a path.
fn copy_path(p: &Vec<i32>) -> (r: Vec<i32>)
    ensures
        r@ == p@,
{
    let mut out: Vec<i32> = Vec::new();
    let mut i: usize = 0;
    while i < p.len()
        invariant
            0 <= i <= p@.len(),
            out@ =~= p@.take(i as int),
        decreases p@.len() - i,
    {
        out.push(p[i]);
        i += 1;
        proof {
            assert(out@ =~= p@.take(i as int));
        }
    }
    proof {
        assert(p@.take(p@.len() as int) =~= p@);
    }
    out
}

/// Backward scan for the next free top-level index of tag `t`.
fn next_index_exec(locations: &Vec<Location>, t: i32) -> (r: i32)
    requires
        paths_ok(locations@),
        locations@.len() <= INPUT_MAX + 2,
        top_tag(t),
    ensures
        r == next_index(locations@, t),
{
    let ghost L = locations@;
    proof {
        assert(L.take(L.len() as int) =~= L);
    }
    let mut i = locations.len();
    while i > 0
        invariant
            paths_ok(L),
            L == locations@,
            L.len() <= INPUT_MAX + 2,
            top_tag(t),
            0 <= i <= L.len(),
            next_index(L, t) == next_index(L.take(i as int), t),
        decreases i,
    {
        if locations[i - 1].path.len() >= 1 {
            if locations[i - 1].path[0] == t {
                proof {
                    reveal(paths_ok);
                    assert(L.take(i as int).last() == L[i - 1 as int]);
                    assert(shape_ok(L[i - 1 as int].path@));
                    lemma_count_bounds(L, t, 0, 0, i - 1 as int);
                }
                let v = locations[i - 1].path[1];
                return v + 1;
            }
        }
        proof {
            assert(L.take(i as int).last() == L[i - 1 as int]);
            assert(L.take(i as int).drop_last() =~= L.take(i - 1 as int));
        }
        i -= 1;
    }
    0
}

/// Backward scan for the path of a new field or method.
#[verifier::rlimit(60)]
fn sibling_path_exec(locations: &Vec<Location>, t: i32) -> (r: Vec<i32>)
    requires
        paths_ok(locations@),
        locations@.len() <= INPUT_MAX + 2,
        t == 4 || t == 6,
        exists|j: int| 0 <= j < locations@.len() && sib_match((#[trigger] locations@[j]).path@, t),
    ensures
        r@ == sibling_path(locations@, t),
{
    let ghost L = locations@;
    proof {
        assert(L.take(L.len() as int) =~= L);
    }
    let mut i = locations.len();
    while i > 0
        invariant
            paths_ok(L),
            L == locations@,
            L.len() <= INPUT_MAX + 2,
            t == 4 || t == 6,
            0 <= i <= L.len(),
            exists|j: int| 0 <= j < i && sib_match((#[trigger] L[j]).path@, t),
            sibling_path(L, t) == sibling_path(L.take(i as int), t),
        decreases i,
    {
        proof {
            assert(L.take(i as int).last() == L[i - 1 as int]);
        }
        let plen = locations[i - 1].path.len();
        if plen == 3 && locations[i - 1].path[0] == t && locations[i - 1].path[2] == 1 {
            let p1 = locations[i - 1].path[1];
            let mut out: Vec<i32> = Vec::new();
            out.push(t);
            out.push(p1);
            out.push(2);
            out.push(0);
            proof {
                assert(out@ =~= seq![t, p1, 2, 0]);
            }
            return out;
        } else if plen == 4 && locations[i - 1].path[0] == t && locations[i - 1].path[2] == 2 {
            proof {
                reveal(paths_ok);
                assert(L[i - 1 as int].path@[3] == count_item(
                    L,
                    L[i - 1 as int].path@[0],
                    L[i - 1 as int].path@[1],
                    i - 1 as int,
                ));
                lemma_count_bounds(L, t, L[i - 1 as int].path@[1], 0, i - 1 as int);
            }
            let mut out = copy_path(&locations[i - 1].path);
            let k = locations[i - 1].path[3];
            let _ = out.pop();
            out.push(k + 1);
            proof {
                assert(out@ =~= L[i - 1 as int].path@.update(3, (L[i - 1 as int].path@[3] + 1)
                    as i32));
            }
            return out;
        }
        proof {
            assert(!sib_match(L[i - 1 as int].path@, t));
            assert(L.take(i as int).drop_last() =~= L.take(i - 1 as int));
            assert forall|j: int| 0 <= j < i && sib_match((#[trigger] L[j]).path@, t) implies 0
                <= j < i - 1 by {}
        }
        i -= 1;
    }
    proof {
        assert(false);
    }
    Vec::new()
}

impl Tag {
    /// Generate a path for this tag from the locations recorded so far.
    pub fn into_path(&self, locations: &Vec<Location>) -> (p: Vec<i32>)
        requires
            tag_pre(*self, locations@),
            locations@.len() <= INPUT_MAX + 2,
        ensures
            p@ == into_path_spec(*self, locations@),
    {
        match self {
            Tag::Root => Vec::new(),
            Tag::Syntax => {
                let mut v: Vec<i32> = Vec::new();
                v.push(12);
                proof {
                    assert(v@ =~= seq![12i32]);
                }
                v
            },
            Tag::Package => {
                let mut v: Vec<i32> = Vec::new();
                v.push(2);
                proof {
                    assert(v@ =~= seq![2i32]);
                }
                v
            },
            Tag::Dependency => {
                let idx = next_index_exec(locations, 3);
                let mut v: Vec<i32> = Vec::new();
                v.push(3);
                v.push(idx);
                proof {
                    assert(v@ =~= seq![3i32, idx]);
                }
                v
            },
            Tag::MessageType => {
                let idx = next_index_exec(locations, 4);
                let mut v: Vec<i32> = Vec::new();
                v.push(4);
                v.push(idx);
                proof {
                    assert(v@ =~= seq![4i32, idx]);
                }
                v
            },
            Tag::EnumType => {
                let idx = next_index_exec(locations, 5);
                let mut v: Vec<i32> = Vec::new();
                v.push(5);
                v.push(idx);
                proof {
                    assert(v@ =~= seq![5i32, idx]);
                }
                v
            },
            Tag::Service => {
                let idx = next_index_exec(locations, 6);
                let mut v: Vec<i32> = Vec::new();
                v.push(6);
                v.push(idx);
                proof {
                    assert(v@ =~= seq![6i32, idx]);
                }
                v
            },
            Tag::Name => {
                let mut v = copy_path(&locations[locations.len() - 1].path);
                v.push(1);
                v
            },
            Tag::Field => sibling_path_exec(locations, 4),
            Tag::Method => sibling_path_exec(locations, 6),
            Tag::MethodInput => {
                let mut v = copy_path(&locations[locations.len() - 1].path);
                let _ = v.pop();
                v.push(2);
                v
            },
            Tag::MethodOutput => {
                let mut v = copy_path(&locations[locations.len() - 1].path);
                let _ = v.pop();
                v.push(3);
                v
            },
        }
    }
}

/// Location-recording handle given out when recording starts: the
/// placeholder's index plus slots for the comment fields attached when the
/// recording ends.
pub struct LocationHandle {
    pub index: usize,
    pub leading_detached_comments: Vec<Vec<u8>>,
    pub leading_comments: Option<Vec<u8>>,
    pub trailing_comments: Option<Vec<u8>>,
}

/// The locations recorded so far, in the order their recording began.
pub struct LocationRecorder {
    pub locations: Vec<Location>,
}

/// The entries of `L` whose recording was completed, in order: those whose
/// span grew past the two placeholder entries.
pub open spec fn completed_locations(L: Seq<Location>) -> Seq<Location>
    decreases L.len(),
{
    if L.len() == 0 {
        Seq::empty()
    } else if L.last().span@.len() > 2 {
        completed_locations(L.drop_last()).push(L.last())
    } else {
        completed_locations(L.drop_last())
    }
}

/// When every recording was completed, filtering is the identity.
pub proof fn lemma_completed_identity(L: Seq<Location>)
    requires
        forall|i: int| 0 <= i < L.len() ==> (#[trigger] L[i]).span@.len() > 2,
    ensures
        completed_locations(L) == L,
    decreases L.len(),
{
    if L.len() > 0 {
        lemma_completed_identity(L.drop_last());
        assert(completed_locations(L) =~= L);
    }
}

impl LocationRecorder {
    /// A new, empty recorder.
    pub fn new() -> (r: LocationRecorder)
        ensures
            r.locations@.len() == 0,
    {
        LocationRecorder { locations: Vec::new() }
    }

    /// Start recording a location: append a placeholder carrying the path
    /// computed by `tag` from the ledger so far and the zero-based start
    /// line and column of `start`, and hand out a handle to it.
    pub fn record_location_start(&mut self, start: Cursor, tag: Tag) -> (h: LocationHandle)
        requires
            old(self).locations@.len() <= INPUT_MAX + 2,
            tag_pre(tag, old(self).locations@),
            1 <= start.line <= INPUT_MAX + 1,
            1 <= start.col <= INPUT_MAX + 1,
        ensures
            h.index == old(self).locations@.len(),
            h.leading_comments is None,
            h.trailing_comments is None,
            h.leading_detached_comments@.len() == 0,
            final(self).locations@.len() == old(self).locations@.len() + 1,
            forall|i: int|
                0 <= i < old(self).locations@.len() ==> final(self).locations@[i] == old(
                    self,
                ).locations@[i],
            final(self).locations@.last().path@ == into_path_spec(tag, old(self).locations@),
            final(self).locations@.last().span@ =~= seq![
                (start.line - 1) as i32,
                (start.col - 1) as i32,
            ],
            final(self).locations@.last().leading_comments is None,
            final(self).locations@.last().trailing_comments is None,
            final(self).locations@.last().leading_detached_comments@.len() == 0,
            final(self).locations@ =~= old(self).locations@.push(final(self).locations@.last()),
    {
        let path = tag.into_path(&self.locations);
        let mut span: Vec<i32> = Vec::new();
        span.push((start.line - 1) as i32);
        span.push((start.col - 1) as i32);
        let index = self.locations.len();
        let location = Location {
            path,
            span,
            leading_comments: None,
            trailing_comments: None,
            leading_detached_comments: Vec::new(),
        };
        self.locations.push(location);
        LocationHandle {
            index,
            leading_detached_comments: Vec::new(),
            leading_comments: None,
            trailing_comments: None,
        }
    }

    /// Finish recording the location a handle points at, at the zero-based
    /// coordinates of `end`: push the handle's comment fields into the
    /// location, and extend its span with the end column alone when the
    /// node ends on its start line, else with the end line and column.
    /// A handle index out of bounds is tolerated and changes nothing.
    pub fn record_location_end(&mut self, handle: LocationHandle, end: Cursor)
        requires
            1 <= end.line <= INPUT_MAX + 1,
            1 <= end.col <= INPUT_MAX + 1,
            handle.index < old(self).locations@.len() ==> {
                &&& old(self).locations@[handle.index as int].span@.len() == 2
                &&& old(self).locations@[handle.index as int].span@[0] <= end.line - 1
            },
        ensures
            handle.index >= old(self).locations@.len() ==> final(self).locations@ == old(
                self,
            ).locations@,
            handle.index < old(self).locations@.len() ==> {
                &&& final(self).locations@.len() == old(self).locations@.len()
                &&& forall|i: int|
                    0 <= i < final(self).locations@.len() && i != handle.index
                        ==> final(self).locations@[i] == old(self).locations@[i]
                &&& final(self).locations@[handle.index as int].path@ == old(
                    self,
                ).locations@[handle.index as int].path@
                &&& final(self).locations@[handle.index as int].span@ == (if old(
                    self,
                ).locations@[handle.index as int].span@[0] == end.line - 1 {
                    old(self).locations@[handle.index as int].span@.push((end.col - 1) as i32)
                } else {
                    old(self).locations@[handle.index as int].span@ + seq![
                        (end.line - 1) as i32,
                        (end.col - 1) as i32,
                    ]
                })
                &&& final(self).locations@[handle.index as int].leading_comments
                    == handle.leading_comments
                &&& final(self).locations@[handle.index as int].trailing_comments
                    == handle.trailing_comments
                &&& final(self).locations@[handle.index as int].leading_detached_comments@
                    == handle.leading_detached_comments@
            },
    {
        let LocationHandle { index, leading_detached_comments, leading_comments, trailing_comments } = handle;
        if index < self.locations.len() {
            let ghost before = final(self).locations@;
            let old_location = self.locations.remove(index);
            let Location { path, mut span, .. } = old_location;
            let end_line = (end.line - 1) as i32;
            let end_col = (end.col - 1) as i32;
            if span[0] != end_line {
                span.push(end_line);
            }
            span.push(end_col);
            let updated = Location {
                path,
                span,
                leading_comments,
                trailing_comments,
                leading_detached_comments,
            };
            self.locations.insert(index, updated);
            proof {
                assert(self.locations@ =~= before.update(index as int, self.locations@[index as int]));
            }
        }
    }

    /// Drop the location a handle points at and everything recorded after
    /// it: the unwind performed when a speculative parse fails after its
    /// recording started.
    pub fn remove_location(&mut self, handle: LocationHandle)
        requires
            handle.index <= old(self).locations@.len(),
        ensures
            final(self).locations@ == old(self).locations@.take(handle.index as int),
    {
        self.locations.truncate(handle.index);
    }

    /// Consume the recorder, returning the completed locations in the
    /// order their recording began; placeholders whose recording never
    /// finished are dropped.
    pub fn into_inner(self) -> (r: Vec<Location>)
        ensures
            r@ == completed_locations(self.locations@),
    {
        let ghost L = self.locations@;
        let LocationRecorder { mut locations } = self;
        let mut out: Vec<Location> = Vec::new();
        let ghost mut k: int = 0;
        proof {
            assert(L.take(0) =~= Seq::<Location>::empty());
            assert(locations@ =~= L.subrange(0, L.len() as int));
        }
        while locations.len() > 0
            invariant
                0 <= k <= L.len(),
                locations@ == L.subrange(k, L.len() as int),
                out@ == completed_locations(L.take(k)),
            decreases locations@.len(),
        {
            let loc = locations.remove(0);
            proof {
                assert(loc == L[k]);
                assert(L.take(k + 1).last() == L[k]);
                assert(L.take(k + 1).drop_last() =~= L.take(k));
                assert(locations@ =~= L.subrange(k + 1, L.len() as int));
                k = k + 1;
            }
            if loc.span.len() > 2 {
                out.push(loc);
            }
        }
        proof {
            assert(L.take(L.len() as int) =~= L);
        }
        out
    }
}

/// The whole comment-and-whitespace prologue of `locate`: consume leading
/// comments and whitespace, start recording at the post-whitespace cursor,
/// and attach the comments to the handle.  When the whitespace between the
/// last comment and the node holds a completely blank line all comments
/// are leading-detached; otherwise the final comment is leading-attached
/// and the rest stay detached.
pub fn locate_begin(input: &Vec<u8>, c: Cursor, rec: &mut LocationRecorder, tag: Tag) -> (r: (
    Cursor,
    LocationHandle,
))
    requires
        input@.len() <= INPUT_MAX,
        c.wf(input@),
        old(rec).locations@.len() <= INPUT_MAX + 2,
        tag_pre(tag, old(rec).locations@),
    ensures
        r.0.wf(input@),
        c.pos <= r.0.pos,
        r.0.pos == lex::ws_end(input@, comment::comments_from(input@, c.pos as int).0),
        r.1.index == old(rec).locations@.len(),
        r.1.trailing_comments is None,
        final(rec).locations@.len() == old(rec).locations@.len() + 1,
        forall|i: int|
            0 <= i < old(rec).locations@.len() ==> final(rec).locations@[i] == old(
                rec,
            ).locations@[i],
        final(rec).locations@ =~= old(rec).locations@.push(final(rec).locations@.last()),
        final(rec).locations@.last().path@ == into_path_spec(tag, old(rec).locations@),
        final(rec).locations@.last().span@ =~= seq![
            (r.0.line - 1) as i32,
            (r.0.col - 1) as i32,
        ],
        final(rec).locations@.last().span@.len() == 2,
        ({
            let texts = comment::comments_from(input@, c.pos as int).1;
            let blank = lex::has_blank_line(
                input@,
                comment::comments_from(input@, c.pos as int).0,
                r.0.pos as int,
            );
            if texts.len() > 0 && !blank {
                &&& r.1.leading_comments matches Some(lc) && lc@ == texts.last()
                &&& r.1.leading_detached_comments@.len() == texts.len() - 1
                &&& forall|k: int|
                    0 <= k < texts.len() - 1 ==> (#[trigger] r.1.leading_detached_comments@[k])@
                        == texts[k]
            } else {
                &&& r.1.leading_comments is None
                &&& r.1.leading_detached_comments@.len() == texts.len()
                &&& forall|k: int|
                    0 <= k < texts.len() ==> (#[trigger] r.1.leading_detached_comments@[k])@
                        == texts[k]
            }
        }),
{
    let (after_comments, mut texts) = comment::parse_many(input, c);
    let start = lex::skip_ws(input, after_comments);
    let blank = lex::blank_line_in(input, after_comments.pos, start.pos);
    proof {
        lemma_cursor_bounds(start, input@);
    }
    let mut h = rec.record_location_start(start, tag);
    if !blank && texts.len() > 0 {
        let lc = texts.remove(texts.len() - 1);
        h.leading_comments = Some(lc);
        h.leading_detached_comments = texts;
    } else {
        h.leading_detached_comments = texts;
    }
    (start, h)
}

/// The success epilogue of `locate`: finish the recording at `end` and
/// consume trailing whitespace.
pub fn locate_commit(input: &Vec<u8>, end: Cursor, rec: &mut LocationRecorder, h: LocationHandle) -> (c2: Cursor)
    requires
        input@.len() <= INPUT_MAX,
        end.wf(input@),
        h.index < old(rec).locations@.len(),
        old(rec).locations@[h.index as int].span@.len() == 2,
        0 <= old(rec).locations@[h.index as int].span@[0] <= end.line - 1,
        old(rec).locations@[h.index as int].span@[1] >= 0,
    ensures
        c2.wf(input@),
        end.pos <= c2.pos,
        c2.pos == lex::ws_end(input@, end.pos as int),
        final(rec).locations@.len() == old(rec).locations@.len(),
        forall|i: int|
            0 <= i < final(rec).locations@.len() && i != h.index ==> final(rec).locations@[i]
                == old(rec).locations@[i],
        final(rec).locations@[h.index as int].path@ == old(rec).locations@[h.index as int].path@,
        completed_span_ok(final(rec).locations@[h.index as int].span@),
        final(rec).locations@[h.index as int].span@[0] == old(
            rec,
        ).locations@[h.index as int].span@[0],
        final(rec).locations@[h.index as int].span@[1] == old(
            rec,
        ).locations@[h.index as int].span@[1],
        final(rec).locations@[h.index as int].span@ == (if old(
            rec,
        ).locations@[h.index as int].span@[0] == end.line - 1 {
            old(rec).locations@[h.index as int].span@.push((end.col - 1) as i32)
        } else {
            old(rec).locations@[h.index as int].span@ + seq![
                (end.line - 1) as i32,
                (end.col - 1) as i32,
            ]
        }),
        final(rec).locations@[h.index as int].leading_comments == h.leading_comments,
        final(rec).locations@[h.index as int].trailing_comments == h.trailing_comments,
        final(rec).locations@[h.index as int].leading_detached_comments@
            == h.leading_detached_comments@,
{
    proof {
        lemma_cursor_bounds(end, input@);
    }
    rec.record_location_end(h, end);
    lex::skip_ws(input, end)
}

/// The failure epilogue of `locate`: discard the placeholder and every
/// location recorded after it.
pub fn locate_abort(rec: &mut LocationRecorder, h: LocationHandle)
    requires
        h.index <= old(rec).locations@.len(),
    ensures
        final(rec).locations@ == old(rec).locations@.take(h.index as int),
{
    rec.remove_location(h);
}

/// Where a located node starts: the position after its leading comments and
/// the whitespace that follows them.
pub open spec fn locate_start_pos(s: Seq<u8>, i: int) -> int {
    lex::ws_end(s, comment::comments_from(s, i).0)
}

/// Appending one entry changes each count by at most the one entry.
pub proof fn lemma_count_push(L: Seq<Location>, x: Location, t: i32, m: i32)
    ensures
        count_top(L.push(x), t, L.len() as int + 1) == count_top(L, t, L.len() as int) + (if is_top(
            x.path@,
            t,
        ) {
            1int
        } else {
            0int
        }),
        count_item(L.push(x), t, m, L.len() as int + 1) == count_item(L, t, m, L.len() as int) + (if (
        x.path@.len() == 4 && x.path@[0] == t && x.path@[1] == m) {
            1int
        } else {
            0int
        }),
{
    lemma_count_agree(L.push(x), L, t, m, L.len() as int);
}

/// Replacing an entry by one with the same path leaves all counts alike.
pub proof fn lemma_count_update(L: Seq<Location>, idx: int, x: Location, t: i32, m: i32)
    requires
        0 <= idx < L.len(),
        x.path@ == L[idx].path@,
    ensures
        count_top(L.update(idx, x), t, L.len() as int) == count_top(L, t, L.len() as int),
        count_item(L.update(idx, x), t, m, L.len() as int) == count_item(L, t, m, L.len() as int),
{
    lemma_count_agree(L.update(idx, x), L, t, m, L.len() as int);
}

/// The begin/commit lifecycle of one located node: a placeholder with a
/// well-placed path was appended at `idx` and later completed in place;
/// the ledger invariant carries over to the result.
pub proof fn lemma_located_entry(L0: Seq<Location>, L1: Seq<Location>, L2: Seq<Location>, idx: int)
    requires
        ledger_ok(L0),
        idx == L0.len(),
        L1.len() == L0.len() + 1,
        forall|i: int| 0 <= i < L0.len() ==> #[trigger] L1[i] == L0[i],
        shape_ok(L1[idx].path@),
        push_pre(L0, L1[idx].path@),
        L1[idx].span@.len() == 2 && L1[idx].span@[0] >= 0 && L1[idx].span@[1] >= 0,
        L2.len() == L1.len(),
        forall|i: int| 0 <= i < L2.len() && i != idx ==> #[trigger] L2[i] == L1[i],
        L2[idx].path@ == L1[idx].path@,
        completed_span_ok(L2[idx].span@),
    ensures
        ledger_ok(L2),
        forall|i: int| 0 <= i < L0.len() ==> #[trigger] L2[i] == L0[i],
        L2.len() == L0.len() + 1,
        L2[idx].path@ == L1[idx].path@,
{
    assert(L1 =~= L0.push(L1[idx]));
    lemma_ledger_push(L0, L1[idx]);
    assert(L2 =~= L1.update(idx, L2[idx]));
    lemma_ledger_update(L1, idx, L2[idx]);
}

/// The ledger seen by a field parser: the innermost message's name marker
/// or most recent field is the most recent entry.
pub open spec fn item_ctx(L: Seq<Location>, t: i32) -> bool {
    let n = L.len() as int;
    let mi = count_top(L, t, n) - 1;
    let ci = count_item(L, t, mi as i32, n);
    &&& n > 0
    &&& count_top(L, t, n) >= 1
    &&& (ci == 0 && L.last().path@ =~= seq![t, mi as i32, 1]) || (ci >= 1 && L.last().path@ =~=
        seq![t, mi as i32, 2, (ci - 1) as i32])
}

/// The ledger seen by a method parser: the innermost service's name marker
/// is most recent, or the four entries of its previous method are.
pub open spec fn method_ctx(L: Seq<Location>) -> bool {
    let n = L.len() as int;
    let si = count_top(L, 6, n) - 1;
    let ci = count_item(L, 6, si as i32, n);
    &&& n > 0
    &&& count_top(L, 6, n) >= 1
    &&& (ci == 0 && L.last().path@ =~= seq![6, si as i32, 1]) || (ci >= 1 && n >= 4 && L[n
        - 4].path@ =~= seq![6, si as i32, 2, (ci - 1) as i32] && L[n - 3].path@ =~= seq![
        6,
        si as i32,
        2,
        (ci - 1) as i32,
        1,
    ] && L[n - 2].path@ =~= seq![6, si as i32, 2, (ci - 1) as i32, 2] && L[n - 1].path@ =~= seq![
        6,
        si as i32,
        2,
        (ci - 1) as i32,
        3,
    ])
}

/// Under `item_ctx` the sibling scan yields the next dense index for the
/// innermost message or service.
pub proof fn lemma_sibling_path_item(L: Seq<Location>, t: i32)
    requires
        ledger_ok(L),
        L.len() <= INPUT_MAX + 4,
        t == 4 || t == 6,
        item_ctx(L, t),
    ensures
        sibling_path(L, t) =~= seq![
            t,
            (count_top(L, t, L.len() as int) - 1) as i32,
            2,
            count_item(L, t, (count_top(L, t, L.len() as int) - 1) as i32, L.len() as int) as i32,
        ],
        exists|j: int| 0 <= j < L.len() && sib_match((#[trigger] L[j]).path@, t),
{
    let n = L.len() as int;
    let mi = count_top(L, t, n) - 1;
    let ci = count_item(L, t, mi as i32, n);
    lemma_count_bounds(L, t, mi as i32, 0, n);
    assert(sib_match(L[n - 1].path@, t));
}

/// Under `method_ctx` the sibling scan yields the next dense method index
/// for the innermost service.
pub proof fn lemma_sibling_path_method(L: Seq<Location>)
    requires
        ledger_ok(L),
        L.len() <= INPUT_MAX + 4,
        method_ctx(L),
    ensures
        sibling_path(L, 6) =~= seq![
            6,
            (count_top(L, 6, L.len() as int) - 1) as i32,
            2,
            count_item(L, 6, (count_top(L, 6, L.len() as int) - 1) as i32, L.len() as int) as i32,
        ],
        exists|j: int| 0 <= j < L.len() && sib_match((#[trigger] L[j]).path@, 6),
{
    let n = L.len() as int;
    let si = count_top(L, 6, n) - 1;
    let ci = count_item(L, 6, si as i32, n);
    lemma_count_bounds(L, 6, si as i32, 0, n);
    if ci == 0 {
        assert(sib_match(L[n - 1].path@, 6));
    } else {
        assert(sib_match(L[n - 4].path@, 6));
        let L3 = L.take(n - 1);
        let L2 = L.take(n - 2);
        let L1 = L.take(n - 3);
        assert(L.drop_last() =~= L3);
        assert(L3.drop_last() =~= L2);
        assert(L2.drop_last() =~= L1);
        assert(L3.last() == L[n - 2]);
        assert(L2.last() == L[n - 3]);
        assert(L1.last() == L[n - 4]);
        assert(!sib_match(L[n - 1].path@, 6));
        assert(!sib_match(L[n - 2].path@, 6));
        assert(!sib_match(L[n - 3].path@, 6));
        assert(L.len() > 0 && L.last() == L[n - 1]);
        assert(sibling_path(L, 6) == sibling_path(L3, 6));
        assert(sibling_path(L3, 6) == sibling_path(L2, 6));
        assert(sibling_path(L2, 6) == sibling_path(L1, 6));
        assert(L1.last() == L[n - 4] && sib_match(L1.last().path@, 6));
        assert(sibling_path(L1, 6) == L[n - 4].path@.update(3, (L[n - 4].path@[3] + 1) as i32));
        assert(L[n - 4].path@[3] == (ci - 1) as i32);
        assert(sibling_path(L, 6) =~= seq![6, si as i32, 2, ci as i32]);
    }
}

/// A parent index at or past the current count has no items yet.
pub proof fn lemma_count_item_fresh(L: Seq<Location>, t: i32, m: i32, i: int)
    requires
        ledger_ok(L),
        top_tag(t),
        0 <= i <= L.len(),
        m >= count_top(L, t, L.len() as int),
    ensures
        count_item(L, t, m, i) == 0,
    decreases i,
{
    reveal(paths_ok);
    if i > 0 {
        lemma_count_item_fresh(L, t, m, i - 1);
        if L[i - 1].path@.len() == 4 && L[i - 1].path@[0] == t && L[i - 1].path@[1] == m {
            lemma_count_bounds(L, t, m, i - 1, L.len() as int);
            assert(L[i - 1].path@[1] == count_top(L, t, i - 1) - 1);
            assert(false);
        }
    }
}

/// The empty ledger is well-formed.
pub proof fn lemma_ledger_ok_empty()
    ensures
        ledger_ok(Seq::<Location>::empty()),
{
    reveal(paths_ok);
    reveal(spans_ok);
}

/// Every location of an emitted ledger has a completed span — three or
/// four entries, the end line strictly after the start line when there are
/// four — and every location after the first carries a non-empty path.
pub proof fn lemma_location_spans(L: Seq<Location>, i: int)
    requires
        source_info_wf(L),
        0 <= i < L.len(),
    ensures
        completed_span_ok(L[i].span@),
        i > 0 ==> L[i].path@.len() > 0,
{
    reveal(paths_ok);
}

/// Completed locations appear in pre-order: a location whose path strictly
/// extends another's was recorded after it, so it describes one of that
/// location's descendants.
pub proof fn lemma_locations_preorder(L: Seq<Location>, i: int, j: int)
    requires
        source_info_wf(L),
        0 <= i < L.len(),
        0 <= j < L.len(),
        strict_prefix(L[i].path@, L[j].path@),
    ensures
        i < j,
{
    reveal(paths_ok);
}

/// Sibling indices are dense and monotonic: a repeated top-level node's
/// index equals the number of earlier top-level nodes of its tag, and a
/// field's or method's index equals the number of earlier items under the
/// same parent, so the indices of each kind run 0, 1, 2, … in recording
/// order.
pub proof fn lemma_siblings_dense(L: Seq<Location>, i: int)
    requires
        source_info_wf(L),
        0 <= i < L.len(),
    ensures
        L[i].path@.len() == 2 && top_tag(L[i].path@[0]) ==> L[i].path@[1] == count_top(
            L,
            L[i].path@[0],
            i,
        ),
        L[i].path@.len() == 4 ==> L[i].path@[3] == count_item(
            L,
            L[i].path@[0],
            L[i].path@[1],
            i,
        ),
{
    reveal(paths_ok);
}

} // verus!
