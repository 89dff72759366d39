//! Byte-level scanning helpers: whitespace, identifier and digit runs,
//! keyword matching, blank-line detection and decimal integers.  Each
//! executable scanner is proved against a specification function that gives
//! the exact position where its run ends.

use vstd::prelude::*;
use crate::cursor::{Cursor, INPUT_MAX};

verus! {

/// Whitespace between tokens: space, tab, carriage return, newline and
/// form-feed.
pub open spec fn is_ws(b: u8) -> bool {
    b == 32 || b == 9 || b == 13 || b == 10 || b == 12
}

/// An identifier byte: an ASCII letter or a dot.
pub open spec fn is_ident(b: u8) -> bool {
    ('A' as u8 <= b && b <= 'Z' as u8) || ('a' as u8 <= b && b <= 'z' as u8) || b == '.' as u8
}

/// An ASCII letter.
pub open spec fn is_alpha(b: u8) -> bool {
    ('A' as u8 <= b && b <= 'Z' as u8) || ('a' as u8 <= b && b <= 'z' as u8)
}

/// An ASCII digit.
pub open spec fn is_digit(b: u8) -> bool {
    '0' as u8 <= b && b <= '9' as u8
}

/// An ASCII letter or digit.
pub open spec fn is_alnum(b: u8) -> bool {
    is_alpha(b) || is_digit(b)
}

/// The first position at or after `i` whose byte fails `pred`-style scans
/// below; each scanner has its own copy of this recursion so that its end
/// position is a plain function of the input.
pub open spec fn ws_end(s: Seq<u8>, i: int) -> int
    decreases s.len() - i,
{
    if i < 0 || i >= s.len() {
        s.len() as int
    } else if is_ws(s[i]) {
        ws_end(s, i + 1)
    } else {
        i
    }
}

/// End of a run of identifier bytes.
pub open spec fn ident_end(s: Seq<u8>, i: int) -> int
    decreases s.len() - i,
{
    if i < 0 || i >= s.len() {
        s.len() as int
    } else if is_ident(s[i]) {
        ident_end(s, i + 1)
    } else {
        i
    }
}

/// End of a run of ASCII letters.
pub open spec fn alpha_end(s: Seq<u8>, i: int) -> int
    decreases s.len() - i,
{
    if i < 0 || i >= s.len() {
        s.len() as int
    } else if is_alpha(s[i]) {
        alpha_end(s, i + 1)
    } else {
        i
    }
}

/// End of a run of letters and digits.
pub open spec fn alnum_end(s: Seq<u8>, i: int) -> int
    decreases s.len() - i,
{
    if i < 0 || i >= s.len() {
        s.len() as int
    } else if is_alnum(s[i]) {
        alnum_end(s, i + 1)
    } else {
        i
    }
}

/// End of a run of non-whitespace bytes.
pub open spec fn nonws_end(s: Seq<u8>, i: int) -> int
    decreases s.len() - i,
{
    if i < 0 || i >= s.len() {
        s.len() as int
    } else if !is_ws(s[i]) {
        nonws_end(s, i + 1)
    } else {
        i
    }
}

/// End of a run of digits.
pub open spec fn digits_end(s: Seq<u8>, i: int) -> int
    decreases s.len() - i,
{
    if i < 0 || i >= s.len() {
        s.len() as int
    } else if is_digit(s[i]) {
        digits_end(s, i + 1)
    } else {
        i
    }
}

/// End of a line comment's text: the next newline or carriage return.
pub open spec fn line_end(s: Seq<u8>, i: int) -> int
    decreases s.len() - i,
{
    if i < 0 || i >= s.len() {
        s.len() as int
    } else if s[i] != 10 && s[i] != 13 {
        line_end(s, i + 1)
    } else {
        i
    }
}

/// End of an import path: the next double quote or whitespace byte.
pub open spec fn import_end(s: Seq<u8>, i: int) -> int
    decreases s.len() - i,
{
    if i < 0 || i >= s.len() {
        s.len() as int
    } else if s[i] != '"' as u8 && !is_ws(s[i]) {
        import_end(s, i + 1)
    } else {
        i
    }
}

/// End of a package name: the next semicolon or whitespace byte.
pub open spec fn package_end(s: Seq<u8>, i: int) -> int
    decreases s.len() - i,
{
    if i < 0 || i >= s.len() {
        s.len() as int
    } else if s[i] != ';' as u8 && !is_ws(s[i]) {
        package_end(s, i + 1)
    } else {
        i
    }
}

/// Position of the `*` of the first `*/` at or after `i`, or the input
/// length when there is none.
pub open spec fn block_end(s: Seq<u8>, i: int) -> int
    decreases s.len() - i,
{
    if i < 0 || i + 2 > s.len() {
        s.len() as int
    } else if s[i] == '*' as u8 && s[i + 1] == '/' as u8 {
        i
    } else {
        block_end(s, i + 1)
    }
}

/// `kw` occurs at position `i` of `s`.
pub open spec fn matches_at(s: Seq<u8>, i: int, kw: Seq<u8>) -> bool {
    &&& 0 <= i
    &&& i + kw.len() <= s.len()
    &&& forall|j: int| 0 <= j < kw.len() ==> s[i + j] == kw[j]
}

/// The range `[lo, hi)` of `s`, which is all whitespace, contains a
/// completely blank line: a newline followed by the newline of an empty
/// line, possibly with a carriage return between them.
pub open spec fn has_blank_line(s: Seq<u8>, lo: int, hi: int) -> bool {
    exists|i: int|
        lo <= i && i + 1 < hi && #[trigger] s[i] == 10 && (s[i + 1] == 10 || (s[i + 1] == 13 && i
            + 2 < hi && s[i + 2] == 10))
}

/// The value of the digit run `s[i..j)` read as a decimal number.
pub open spec fn dec_val(s: Seq<u8>, i: int, j: int) -> int
    decreases j - i,
{
    if j <= i {
        0
    } else {
        dec_val(s, i, j - 1) * 10 + (s[j - 1] - 48)
    }
}

/// Position after an optional leading sign.
pub open spec fn int_sign_skip(s: Seq<u8>, i: int) -> int {
    if 0 <= i < s.len() && (s[i] == '-' as u8 || s[i] == '+' as u8) {
        i + 1
    } else {
        i
    }
}

/// Whether the integer token at `i` carries a minus sign.
pub open spec fn int_is_neg(s: Seq<u8>, i: int) -> bool {
    0 <= i < s.len() && s[i] == '-' as u8
}

/// End of the integer token at `i`: sign, then digits.
pub open spec fn int_token_end(s: Seq<u8>, i: int) -> int {
    digits_end(s, int_sign_skip(s, i))
}

/// Magnitude of the integer token at `i`.
pub open spec fn int_mag(s: Seq<u8>, i: int) -> int {
    dec_val(s, int_sign_skip(s, i), int_token_end(s, i))
}

/// Value of the integer token at `i`.
pub open spec fn int_val(s: Seq<u8>, i: int) -> int {
    if int_is_neg(s, i) {
        -int_mag(s, i)
    } else {
        int_mag(s, i)
    }
}

/// The integer token at `i` has at least one digit and fits in an `i32`.
pub open spec fn int_ok(s: Seq<u8>, i: int) -> bool {
    &&& int_token_end(s, i) > int_sign_skip(s, i)
    &&& -0x8000_0000 <= int_val(s, i) <= 0x7fff_ffff
}

/// The bytes of a whitespace run are whitespace and the run stops at the
/// first byte that is not.
pub proof fn lemma_ws_end_range(s: Seq<u8>, i: int)
    requires
        0 <= i <= s.len(),
    ensures
        i <= ws_end(s, i) <= s.len(),
        forall|m: int| i <= m < ws_end(s, i) ==> is_ws(s[m]),
        ws_end(s, i) < s.len() ==> !is_ws(s[ws_end(s, i)]),
    decreases s.len() - i,
{
    if i < s.len() && is_ws(s[i]) {
        lemma_ws_end_range(s, i + 1);
    }
}





/// The bytes of a digit run are digits and the run stops at the first byte
/// that is not.
pub proof fn lemma_digits_end_range(s: Seq<u8>, i: int)
    requires
        0 <= i <= s.len(),
    ensures
        i <= digits_end(s, i) <= s.len(),
        forall|m: int| i <= m < digits_end(s, i) ==> is_digit(s[m]),
        digits_end(s, i) < s.len() ==> !is_digit(s[digits_end(s, i)]),
    decreases s.len() - i,
{
    if i < s.len() && is_digit(s[i]) {
        lemma_digits_end_range(s, i + 1);
    }
}

/// Bounds for the remaining scanners.
pub proof fn lemma_scan_bounds(s: Seq<u8>, i: int)
    requires
        0 <= i <= s.len(),
    ensures
        i <= line_end(s, i) <= s.len(),
        i <= import_end(s, i) <= s.len(),
        i <= package_end(s, i) <= s.len(),
        i <= block_end(s, i) <= s.len(),
    decreases s.len() - i,
{
    if i < s.len() {
        lemma_scan_bounds(s, i + 1);
    }
}

/// A decimal run never has a negative value.
pub proof fn lemma_dec_val_nonneg(s: Seq<u8>, i: int, j: int)
    requires
        forall|m: int| i <= m < j ==> is_digit(s[m]),
    ensures
        0 <= dec_val(s, i, j),
    decreases j - i,
{
    if j > i {
        lemma_dec_val_nonneg(s, i, j - 1);
    }
}

/// A decimal run never has a negative value, and extending it never makes
/// it smaller.
pub proof fn lemma_dec_val_mono(s: Seq<u8>, i: int, j: int, k: int)
    requires
        i <= j <= k,
        forall|m: int| i <= m < k ==> is_digit(s[m]),
    ensures
        0 <= dec_val(s, i, j) <= dec_val(s, i, k),
    decreases k - j,
{
    lemma_dec_val_nonneg(s, i, j);
    if j < k {
        lemma_dec_val_mono(s, i, j, k - 1);
        assert(dec_val(s, i, k) == dec_val(s, i, k - 1) * 10 + (s[k - 1] - 48));
        assert(dec_val(s, i, k - 1) * 10 >= dec_val(s, i, k - 1)) by {
            assert(dec_val(s, i, k - 1) >= 0);
        }
    }
}

/// Exec test for `is_ws`.
pub fn ws_byte(b: u8) -> (r: bool)
    ensures
        r == is_ws(b),
{
    b == 32 || b == 9 || b == 13 || b == 10 || b == 12
}

/// Exec test for `is_ident`.
pub fn ident_byte(b: u8) -> (r: bool)
    ensures
        r == is_ident(b),
{
    ('A' as u8 <= b && b <= 'Z' as u8) || ('a' as u8 <= b && b <= 'z' as u8) || b == '.' as u8
}

/// Exec test for `is_alpha`.
pub fn alpha_byte(b: u8) -> (r: bool)
    ensures
        r == is_alpha(b),
{
    ('A' as u8 <= b && b <= 'Z' as u8) || ('a' as u8 <= b && b <= 'z' as u8)
}

/// Exec test for `is_alnum`.
pub fn alnum_byte(b: u8) -> (r: bool)
    ensures
        r == is_alnum(b),
{
    let a = alpha_byte(b);
    a || ('0' as u8 <= b && b <= '9' as u8)
}

/// Advance the cursor past all leading whitespace.
pub fn skip_ws(input: &Vec<u8>, c: Cursor) -> (c2: Cursor)
    requires
        input@.len() <= INPUT_MAX,
        c.wf(input@),
    ensures
        c2.wf(input@),
        c2.pos == ws_end(input@, c.pos as int),
        c.pos <= c2.pos,
{
    let mut cur = c;
    while cur.pos < input.len() && ws_byte(input[cur.pos])
        invariant
            input@.len() <= INPUT_MAX,
            cur.wf(input@),
            c.pos <= cur.pos,
            ws_end(input@, c.pos as int) == ws_end(input@, cur.pos as int),
        decreases input@.len() - cur.pos,
    {
        cur = cur.step(input);
    }
    cur
}

/// Whether `kw` occurs at `pos`.
pub fn match_at(input: &Vec<u8>, pos: usize, kw: &Vec<u8>) -> (r: bool)
    requires
        input@.len() <= INPUT_MAX,
        pos <= input@.len(),
    ensures
        r == matches_at(input@, pos as int, kw@),
{
    if input.len() - pos < kw.len() {
        return false;
    }
    let mut j: usize = 0;
    while j < kw.len()
        invariant
            input@.len() <= INPUT_MAX,
            pos + kw@.len() <= input@.len(),
            0 <= j <= kw@.len(),
            forall|m: int| 0 <= m < j ==> input@[pos + m] == kw@[m],
        decreases kw@.len() - j,
    {
        if input[pos + j] != kw[j] {
            return false;
        }
        j += 1;
    }
    true
}

/// Copy the bytes `[lo, hi)` of the input.
pub fn subvec(input: &Vec<u8>, lo: usize, hi: usize) -> (r: Vec<u8>)
    requires
        input@.len() <= INPUT_MAX,
        lo <= hi <= input@.len(),
    ensures
        r@ == input@.subrange(lo as int, hi as int),
{
    let mut out: Vec<u8> = Vec::new();
    let mut i: usize = lo;
    while i < hi
        invariant
            input@.len() <= INPUT_MAX,
            lo <= i <= hi <= input@.len(),
            out@ =~= input@.subrange(lo as int, i as int),
        decreases hi - i,
    {
        out.push(input[i]);
        i += 1;
        proof {
            assert(out@ =~= input@.subrange(lo as int, i as int));
        }
    }
    out
}

/// Whether the whitespace range `[lo, hi)` contains a completely blank
/// line.
pub fn blank_line_in(input: &Vec<u8>, lo: usize, hi: usize) -> (r: bool)
    requires
        input@.len() <= INPUT_MAX,
        lo <= hi <= input@.len(),
    ensures
        r == has_blank_line(input@, lo as int, hi as int),
{
    if hi - lo < 2 {
        proof {
            assert(!has_blank_line(input@, lo as int, hi as int));
        }
        return false;
    }
    let mut i: usize = lo;
    while i + 1 < hi
        invariant
            input@.len() <= INPUT_MAX,
            lo <= i,
            i <= hi <= input@.len(),
            hi - lo >= 2,
            forall|m: int|
                lo <= m < i ==> !(#[trigger] input@[m] == 10 && (input@[m + 1] == 10 || (input@[m
                    + 1] == 13 && m + 2 < hi && input@[m + 2] == 10))),
        decreases hi - i,
    {
        if input[i] == 10 {
            if input[i + 1] == 10 {
                return true;
            }
            if input[i + 1] == 13 && i + 2 < hi {
                if input[i + 2] == 10 {
                    return true;
                }
            }
        }
        i += 1;
    }
    proof {
        assert(!has_blank_line(input@, lo as int, hi as int));
    }
    false
}

} // verus!
use vstd::prelude::*;
use crate::cursor::Cursor as LexCursor;

verus! {

/// Advance the cursor to the end of the identifier run at its position.
pub fn scan_ident(input: &Vec<u8>, c: LexCursor) -> (c2: LexCursor)
    requires
        input@.len() <= crate::cursor::INPUT_MAX,
        c.wf(input@),
    ensures
        c2.wf(input@),
        c2.pos == ident_end(input@, c.pos as int),
        c.pos <= c2.pos,
{
    let mut cur = c;
    while cur.pos < input.len() && ident_byte(input[cur.pos])
        invariant
            input@.len() <= crate::cursor::INPUT_MAX,
            cur.wf(input@),
            c.pos <= cur.pos,
            ident_end(input@, c.pos as int) == ident_end(input@, cur.pos as int),
        decreases input@.len() - cur.pos,
    {
        cur = cur.step(input);
    }
    cur
}

/// Advance the cursor to the end of the letter run at its position.
pub fn scan_alpha(input: &Vec<u8>, c: LexCursor) -> (c2: LexCursor)
    requires
        input@.len() <= crate::cursor::INPUT_MAX,
        c.wf(input@),
    ensures
        c2.wf(input@),
        c2.pos == alpha_end(input@, c.pos as int),
        c.pos <= c2.pos,
{
    let mut cur = c;
    while cur.pos < input.len() && alpha_byte(input[cur.pos])
        invariant
            input@.len() <= crate::cursor::INPUT_MAX,
            cur.wf(input@),
            c.pos <= cur.pos,
            alpha_end(input@, c.pos as int) == alpha_end(input@, cur.pos as int),
        decreases input@.len() - cur.pos,
    {
        cur = cur.step(input);
    }
    cur
}

/// Advance the cursor to the end of the letter-or-digit run at its
/// position.
pub fn scan_alnum(input: &Vec<u8>, c: LexCursor) -> (c2: LexCursor)
    requires
        input@.len() <= crate::cursor::INPUT_MAX,
        c.wf(input@),
    ensures
        c2.wf(input@),
        c2.pos == alnum_end(input@, c.pos as int),
        c.pos <= c2.pos,
{
    let mut cur = c;
    while cur.pos < input.len() && alnum_byte(input[cur.pos])
        invariant
            input@.len() <= crate::cursor::INPUT_MAX,
            cur.wf(input@),
            c.pos <= cur.pos,
            alnum_end(input@, c.pos as int) == alnum_end(input@, cur.pos as int),
        decreases input@.len() - cur.pos,
    {
        cur = cur.step(input);
    }
    cur
}

/// Advance the cursor to the next whitespace byte.
pub fn scan_nonws(input: &Vec<u8>, c: LexCursor) -> (c2: LexCursor)
    requires
        input@.len() <= crate::cursor::INPUT_MAX,
        c.wf(input@),
    ensures
        c2.wf(input@),
        c2.pos == nonws_end(input@, c.pos as int),
        c.pos <= c2.pos,
{
    let mut cur = c;
    while cur.pos < input.len() && !ws_byte(input[cur.pos])
        invariant
            input@.len() <= crate::cursor::INPUT_MAX,
            cur.wf(input@),
            c.pos <= cur.pos,
            nonws_end(input@, c.pos as int) == nonws_end(input@, cur.pos as int),
        decreases input@.len() - cur.pos,
    {
        cur = cur.step(input);
    }
    cur
}

/// Advance the cursor to the end of a line comment's text.
pub fn scan_line(input: &Vec<u8>, c: LexCursor) -> (c2: LexCursor)
    requires
        input@.len() <= crate::cursor::INPUT_MAX,
        c.wf(input@),
    ensures
        c2.wf(input@),
        c2.pos == line_end(input@, c.pos as int),
        c.pos <= c2.pos,
{
    let mut cur = c;
    while cur.pos < input.len() && input[cur.pos] != 10 && input[cur.pos] != 13
        invariant
            input@.len() <= crate::cursor::INPUT_MAX,
            cur.wf(input@),
            c.pos <= cur.pos,
            line_end(input@, c.pos as int) == line_end(input@, cur.pos as int),
        decreases input@.len() - cur.pos,
    {
        cur = cur.step(input);
    }
    cur
}

/// Advance the cursor to the end of an import path.
pub fn scan_import(input: &Vec<u8>, c: LexCursor) -> (c2: LexCursor)
    requires
        input@.len() <= crate::cursor::INPUT_MAX,
        c.wf(input@),
    ensures
        c2.wf(input@),
        c2.pos == import_end(input@, c.pos as int),
        c.pos <= c2.pos,
{
    let mut cur = c;
    while cur.pos < input.len() && input[cur.pos] != '"' as u8 && !ws_byte(input[cur.pos])
        invariant
            input@.len() <= crate::cursor::INPUT_MAX,
            cur.wf(input@),
            c.pos <= cur.pos,
            import_end(input@, c.pos as int) == import_end(input@, cur.pos as int),
        decreases input@.len() - cur.pos,
    {
        cur = cur.step(input);
    }
    cur
}

/// Advance the cursor to the end of a package name.
pub fn scan_package(input: &Vec<u8>, c: LexCursor) -> (c2: LexCursor)
    requires
        input@.len() <= crate::cursor::INPUT_MAX,
        c.wf(input@),
    ensures
        c2.wf(input@),
        c2.pos == package_end(input@, c.pos as int),
        c.pos <= c2.pos,
{
    let mut cur = c;
    while cur.pos < input.len() && input[cur.pos] != ';' as u8 && !ws_byte(input[cur.pos])
        invariant
            input@.len() <= crate::cursor::INPUT_MAX,
            cur.wf(input@),
            c.pos <= cur.pos,
            package_end(input@, c.pos as int) == package_end(input@, cur.pos as int),
        decreases input@.len() - cur.pos,
    {
        cur = cur.step(input);
    }
    cur
}

/// Advance the cursor to the `*` of the next `*/`, or to the end of the
/// input when there is none.
pub fn scan_block_end(input: &Vec<u8>, c: LexCursor) -> (c2: LexCursor)
    requires
        input@.len() <= crate::cursor::INPUT_MAX,
        c.wf(input@),
    ensures
        c2.wf(input@),
        c2.pos == block_end(input@, c.pos as int),
        c.pos <= c2.pos,
{
    let mut cur = c;
    while cur.pos + 2 <= input.len() && !(input[cur.pos] == '*' as u8 && input[cur.pos + 1] == '/'
        as u8)
        invariant
            input@.len() <= crate::cursor::INPUT_MAX,
            cur.wf(input@),
            c.pos <= cur.pos,
            block_end(input@, c.pos as int) == block_end(input@, cur.pos as int),
        decreases input@.len() - cur.pos,
    {
        cur = cur.step(input);
    }
    // when no terminator fits in the remaining bytes, the scan runs to the
    // end of the input
    while cur.pos < input.len() && cur.pos + 2 > input.len()
        invariant
            input@.len() <= crate::cursor::INPUT_MAX,
            cur.wf(input@),
            c.pos <= cur.pos,
            cur.pos + 2 > input@.len() || (input@[cur.pos as int] == '*' as u8 && input@[cur.pos
                + 1] == '/' as u8),
            block_end(input@, c.pos as int) == block_end(input@, cur.pos as int),
        decreases input@.len() - cur.pos,
    {
        cur = cur.step(input);
    }
    cur
}

/// Parse a decimal `i32` with an optional sign, as the field-number and
/// enum-value positions require: one or more digits whose value fits in an
/// `i32`.  Returns the cursor after the digits and the value, or `None`
/// when there is no digit or the value is out of range.
pub fn parse_i32(input: &Vec<u8>, c: LexCursor) -> (r: Option<(LexCursor, i32)>)
    requires
        input@.len() <= crate::cursor::INPUT_MAX,
        c.wf(input@),
    ensures
        int_ok(input@, c.pos as int) <==> r is Some,
        r matches Some((c2, v)) ==> {
            &&& c2.wf(input@)
            &&& c2.pos == int_token_end(input@, c.pos as int)
            &&& c.pos < c2.pos
            &&& v == int_val(input@, c.pos as int)
        },
{
    let ghost s = input@;
    let ghost p0 = c.pos as int;
    let mut cur = c;
    let mut neg = false;
    if cur.pos < input.len() && (input[cur.pos] == '-' as u8 || input[cur.pos] == '+' as u8) {
        neg = input[cur.pos] == '-' as u8;
        cur = cur.step(input);
    }
    let ghost pd = cur.pos as int;
    if cur.pos == input.len() || !('0' as u8 <= input[cur.pos] && input[cur.pos] <= '9' as u8) {
        proof {
            assert(digits_end(s, pd) == pd);
            assert(!int_ok(s, p0));
        }
        return None;
    }
    let mut acc: i64 = 0;
    while cur.pos < input.len() && '0' as u8 <= input[cur.pos] && input[cur.pos] <= '9' as u8
        invariant
            input@.len() <= crate::cursor::INPUT_MAX,
            cur.wf(input@),
            s == input@,
            p0 == c.pos as int,
            0 <= p0 <= pd <= cur.pos,
            pd == int_sign_skip(s, p0),
            neg == int_is_neg(s, p0),
            forall|m: int| pd <= m < cur.pos ==> is_digit(s[m]),
            digits_end(s, pd) == digits_end(s, cur.pos as int),
            0 <= acc <= 0x8000_0000,
            acc == dec_val(s, pd, cur.pos as int),
        decreases input@.len() - cur.pos,
    {
        let d = input[cur.pos] - '0' as u8;
        acc = acc * 10 + (d as i64);
        cur = cur.step(input);
        if acc > 0x8000_0000 {
            proof {
                lemma_digits_end_range(s, pd);
                lemma_digits_end_range(s, cur.pos as int);
                lemma_dec_val_mono(s, pd, cur.pos as int, digits_end(s, pd));
                assert(int_mag(s, p0) >= acc);
                assert(!int_ok(s, p0));
            }
            return None;
        }
    }
    proof {
        assert(cur.pos == digits_end(s, pd));
        assert(cur.pos == int_token_end(s, p0));
        assert(pd < cur.pos as int) by {
            assert(is_digit(s[pd]));
        }
        assert(int_mag(s, p0) == acc);
    }
    if neg {
        let v: i64 = -acc;
        proof {
            assert(int_val(s, p0) == v);
            assert(-0x8000_0000 <= v <= 0);
            assert(int_ok(s, p0));
        }
        Some((cur, v as i32))
    } else {
        if acc > 0x7fff_ffff {
            proof {
                assert(int_val(s, p0) == acc);
                assert(!int_ok(s, p0));
            }
            return None;
        }
        proof {
            assert(int_ok(s, p0));
        }
        Some((cur, acc as i32))
    }
}


/// Advance the cursor over `k` bytes.
pub fn advance(input: &Vec<u8>, c: LexCursor, k: usize) -> (c2: LexCursor)
    requires
        input@.len() <= crate::cursor::INPUT_MAX,
        c.wf(input@),
        c.pos + k <= input@.len(),
    ensures
        c2.wf(input@),
        c2.pos == c.pos + k,
{
    let mut cur = c;
    let mut i: usize = 0;
    while i < k
        invariant
            input@.len() <= crate::cursor::INPUT_MAX,
            cur.wf(input@),
            0 <= i <= k,
            c.pos + k <= input@.len(),
            cur.pos == c.pos + i,
        decreases k - i,
    {
        cur = cur.step(input);
        i += 1;
    }
    cur
}


/// Copy a byte vector.
pub fn copy_bytes(v: &Vec<u8>) -> (r: Vec<u8>)
    ensures
        r@ == v@,
{
    let mut out: Vec<u8> = Vec::new();
    let mut i: usize = 0;
    while i < v.len()
        invariant
            0 <= i <= v@.len(),
            out@ =~= v@.take(i as int),
        decreases v@.len() - i,
    {
        out.push(v[i]);
        i += 1;
        proof {
            assert(out@ =~= v@.take(i as int));
        }
    }
    proof {
        assert(v@.take(v@.len() as int) =~= v@);
    }
    out
}

/// Append the bytes of `src` to `dst`.
pub fn append_bytes(dst: &mut Vec<u8>, src: &Vec<u8>)
    ensures
        final(dst)@ == old(dst)@ + src@,
{
    let ghost base = dst@;
    let mut i: usize = 0;
    while i < src.len()
        invariant
            0 <= i <= src@.len(),
            dst@ =~= base + src@.take(i as int),
        decreases src@.len() - i,
    {
        dst.push(src[i]);
        i += 1;
        proof {
            assert(dst@ =~= base + src@.take(i as int));
        }
    }
    proof {
        assert(src@.take(src@.len() as int) =~= src@);
        assert(dst@ == base + src@);
    }
}

/// Whether `m` ends with `t`.
pub fn ends_with(m: &Vec<u8>, t: &Vec<u8>) -> (r: bool)
    ensures
        r == (m@.len() >= t@.len() && m@.subrange(m@.len() - t@.len(), m@.len() as int) == t@),
{
    if m.len() < t.len() {
        return false;
    }
    let n = m.len();
    let base = m.len() - t.len();
    let mut j: usize = 0;
    while j < t.len()
        invariant
            n == m@.len(),
            base == m@.len() - t@.len(),
            base + t@.len() == n,
            0 <= j <= t@.len(),
            forall|k: int| 0 <= k < j ==> m@[base + k] == t@[k],
        decreases t@.len() - j,
    {
        if m[base + j] != t[j] {
            proof {
                assert(m@.subrange(m@.len() - t@.len(), m@.len() as int)[j as int] != t@[j as int]);
            }
            return false;
        }
        j += 1;
    }
    proof {
        assert(m@.subrange(m@.len() - t@.len(), m@.len() as int) =~= t@);
    }
    true
}


/// Every scanner's end position lies between its start and the input's
/// end.
pub proof fn lemma_run_bounds(s: Seq<u8>, i: int)
    requires
        0 <= i <= s.len(),
    ensures
        i <= ident_end(s, i) <= s.len(),
        i <= alpha_end(s, i) <= s.len(),
        i <= alnum_end(s, i) <= s.len(),
        i <= nonws_end(s, i) <= s.len(),
    decreases s.len() - i,
{
    if i < s.len() {
        lemma_run_bounds(s, i + 1);
    }
}

} // verus!
