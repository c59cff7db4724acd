//! Byte-level scanning of edge-list text: line ends, comments, whitespace and
//! tokens, together with the UTF-8 facts that let a scanned range be cut out
//! of a `&str`.
use vstd::prelude::*;
use vstd::string::StringSliceAdditionalSpecFns;
use vstd::utf8::*;

verus! {

/// ASCII whitespace as `split_ascii_whitespace` knows it: space, tab, line
/// feed, form feed and carriage return.
pub open spec fn is_ascii_ws(c: u8) -> bool {
    c == 0x20u8 || c == 0x09u8 || c == 0x0au8 || c == 0x0cu8 || c == 0x0du8
}

/// The classes of bytes that the reader scans for.
#[derive(Clone, Copy)]
pub enum ByteClass {
    /// `\n`
    Newline,
    /// `#`
    Hash,
    /// ASCII whitespace
    Space,
    /// anything but ASCII whitespace
    NonSpace,
}

impl ByteClass {
    /// The byte `c` belongs to this class.
    pub open spec fn holds(self, c: u8) -> bool {
        match self {
            ByteClass::Newline => c == 0x0au8,
            ByteClass::Hash => c == 0x23u8,
            ByteClass::Space => is_ascii_ws(c),
            ByteClass::NonSpace => !is_ascii_ws(c),
        }
    }

    /// Tests whether `c` belongs to this class.
    pub fn test(&self, c: u8) -> (r: bool)
        ensures
            r == self.holds(c),
    {
        match self {
            ByteClass::Newline => c == 0x0a,
            ByteClass::Hash => c == 0x23,
            ByteClass::Space => c == 0x20 || c == 0x09 || c == 0x0a || c == 0x0c || c == 0x0d,
            ByteClass::NonSpace => !(c == 0x20 || c == 0x09 || c == 0x0a || c == 0x0c || c == 0x0d),
        }
    }
}

/// The first position in `i..e` whose byte belongs to `k`, or `e` if there is none.
pub open spec fn find(b: Seq<u8>, i: int, e: int, k: ByteClass) -> int
    decreases e - i,
{
    if i >= e {
        e
    } else if k.holds(b[i]) {
        i
    } else {
        find(b, i + 1, e, k)
    }
}

/// What `find` returns.
pub proof fn lemma_find(b: Seq<u8>, i: int, e: int, k: ByteClass)
    requires
        i <= e,
    ensures
        i <= find(b, i, e, k) <= e,
        find(b, i, e, k) < e ==> k.holds(b[find(b, i, e, k)]),
        forall|j: int| i <= j < find(b, i, e, k) ==> !k.holds(#[trigger] b[j]),
    decreases e - i,
{
    if i < e && !k.holds(b[i]) {
        lemma_find(b, i + 1, e, k);
    }
}

/// Scans `b[i..e]` for the first byte of class `k`.
pub fn scan(b: &[u8], i: usize, e: usize, k: ByteClass) -> (j: usize)
    requires
        i <= e <= b@.len(),
    ensures
        j == find(b@, i as int, e as int, k),
{
    let mut j = i;
    while j < e
        invariant
            i <= j <= e,
            e <= b@.len(),
            find(b@, i as int, e as int, k) == find(b@, j as int, e as int, k),
        decreases e - j,
    {
        if k.test(b[j]) {
            return j;
        }
        j += 1;
    }
    j
}

/// A one-byte whitespace character (`char::is_whitespace`).
pub open spec fn is_ws1(c: u8) -> bool {
    c == 0x09u8 || c == 0x0au8 || c == 0x0bu8 || c == 0x0cu8 || c == 0x0du8 || c == 0x20u8
}

/// A two-byte whitespace character: U+0085 or U+00A0.
pub open spec fn is_ws2(c0: u8, c1: u8) -> bool {
    c0 == 0xc2u8 && (c1 == 0x85u8 || c1 == 0xa0u8)
}

/// A three-byte whitespace character: U+1680, U+2000 to U+200A, U+2028,
/// U+2029, U+202F, U+205F or U+3000.
pub open spec fn is_ws3(c0: u8, c1: u8, c2: u8) -> bool {
    ||| (c0 == 0xe1u8 && c1 == 0x9au8 && c2 == 0x80u8)
    ||| (c0 == 0xe2u8 && c1 == 0x80u8 && ((0x80u8 <= c2 && c2 <= 0x8au8) || c2 == 0xa8u8 || c2 == 0xa9u8
        || c2 == 0xafu8))
    ||| (c0 == 0xe2u8 && c1 == 0x81u8 && c2 == 0x9fu8)
    ||| (c0 == 0xe3u8 && c1 == 0x80u8 && c2 == 0x80u8)
}

/// The length of the UTF-8 encoding of a whitespace character that starts at
/// `i` and ends by `e`, or 0 if none does.
pub open spec fn ws_len_at(b: Seq<u8>, i: int, e: int) -> int {
    if 0 <= i < e && is_ws1(b[i]) {
        1
    } else if 0 <= i && i + 1 < e && is_ws2(b[i], b[i + 1]) {
        2
    } else if 0 <= i && i + 2 < e && is_ws3(b[i], b[i + 1], b[i + 2]) {
        3
    } else {
        0
    }
}

/// The length of the UTF-8 encoding of a whitespace character that ends at
/// `e` and starts at or after `i`, or 0 if none does.
pub open spec fn ws_len_before(b: Seq<u8>, i: int, e: int) -> int {
    if 0 <= i < e && is_ws1(b[e - 1]) {
        1
    } else if 0 <= i && i + 1 < e && is_ws2(b[e - 2], b[e - 1]) {
        2
    } else if 0 <= i && i + 2 < e && is_ws3(b[e - 3], b[e - 2], b[e - 1]) {
        3
    } else {
        0
    }
}

/// The start of `b[i..e]` with its leading whitespace characters removed.
pub open spec fn trim_start(b: Seq<u8>, i: int, e: int) -> int
    decreases e - i,
{
    if ws_len_at(b, i, e) > 0 {
        trim_start(b, i + ws_len_at(b, i, e), e)
    } else {
        i
    }
}

/// The end of `b[i..e]` with its trailing whitespace characters removed.
pub open spec fn trim_end(b: Seq<u8>, i: int, e: int) -> int
    decreases e - i,
{
    if ws_len_before(b, i, e) > 0 {
        trim_end(b, i, e - ws_len_before(b, i, e))
    } else {
        e
    }
}

/// The fields of the line `b[s..e]`, as `(end, a0, b0, a1, b1)`: the line is
/// cut at its first `#` and trimmed of whitespace at both ends, which leaves
/// `b[..end]`; its first two ASCII-whitespace-separated tokens are `b[a0..b0]`
/// and `b[a1..b1]`. There is no token when `a0 == end`, and only one when
/// `a1 == end`.
pub open spec fn line_fields(b: Seq<u8>, s: int, e: int) -> (int, int, int, int, int) {
    let c = find(b, s, e, ByteClass::Hash);
    let ls = trim_start(b, s, c);
    let te = trim_end(b, ls, c);
    let a0 = find(b, ls, te, ByteClass::NonSpace);
    let b0 = find(b, a0, te, ByteClass::Space);
    let a1 = find(b, b0, te, ByteClass::NonSpace);
    let b1 = find(b, a1, te, ByteClass::Space);
    (te, a0, b0, a1, b1)
}

/// The trimmed end stays in range and, short of `e`, sits on the first byte of
/// a whitespace character.
pub proof fn lemma_trim_end(b: Seq<u8>, i: int, e: int)
    requires
        0 <= i <= e <= b.len(),
    ensures
        i <= trim_end(b, i, e) <= e,
        trim_end(b, i, e) < e ==> !is_continuation_byte(b[trim_end(b, i, e)]),
    decreases e - i,
{
    let k = ws_len_before(b, i, e);
    if k > 0 {
        lemma_trim_end(b, i, e - k);
    }
}

/// A position is a character boundary when it ends the text or its byte is not
/// a continuation byte.
pub proof fn lemma_boundary_at(b: Seq<u8>, j: int)
    requires
        valid_utf8(b),
        0 <= j <= b.len(),
        j == b.len() || !is_continuation_byte(b[j]),
    ensures
        is_char_boundary(b, j),
{
    if j == b.len() {
        is_char_boundary_start_end_of_seq(b);
    } else {
        is_char_boundary_iff_not_is_continuation_byte(b, j);
    }
}

/// The character that starts at a boundary ends at a boundary, as far as its
/// leading byte says.
pub proof fn lemma_boundary_next(b: Seq<u8>, i: int)
    requires
        valid_utf8(b),
        0 <= i < b.len(),
        is_char_boundary(b, i),
    ensures
        is_leading_byte_width_1(b[i]) ==> i + 1 <= b.len() && is_char_boundary(b, i + 1),
        is_leading_byte_width_2(b[i]) ==> i + 2 <= b.len() && is_char_boundary(b, i + 2),
        is_leading_byte_width_3(b[i]) ==> i + 3 <= b.len() && is_char_boundary(b, i + 3),
{
    let s = b.subrange(i, b.len() as int);
    valid_utf8_split(b, i);
    assert(valid_utf8(s));
    assert(s.len() > 0);
    assert(valid_first_scalar(s));
    let w = length_of_first_scalar(s);
    assert(s[0] == b[i]);
    assert(w <= s.len());
    assert(is_char_boundary(s, w)) by {
        reveal_with_fuel(is_char_boundary, 2);
        is_char_boundary_start_end_of_seq(pop_first_scalar(s));
    }
    if i + w < b.len() {
        is_char_boundary_iff_not_is_continuation_byte(s, w);
        assert(s[w] == b[i + w]);
        lemma_boundary_at(b, i + w);
    } else {
        lemma_boundary_at(b, i + w);
    }
}

/// Removes the leading whitespace characters of `b[i..e]`.
pub fn skip_leading_ws(b: &[u8], i: usize, e: usize) -> (j: usize)
    requires
        i <= e <= b@.len(),
        valid_utf8(b@),
        is_char_boundary(b@, i as int),
    ensures
        j == trim_start(b@, i as int, e as int),
        i <= j <= e,
        is_char_boundary(b@, j as int),
{
    let mut j = i;
    while j < e
        invariant
            i <= j <= e,
            e <= b@.len(),
            valid_utf8(b@),
            is_char_boundary(b@, j as int),
            trim_start(b@, i as int, e as int) == trim_start(b@, j as int, e as int),
        decreases e - j,
    {
        let c = b[j];
        let k: usize = if c == 0x09 || c == 0x0a || c == 0x0b || c == 0x0c || c == 0x0d || c == 0x20 {
            1
        } else if j + 1 < e && c == 0xc2 && (b[j + 1] == 0x85 || b[j + 1] == 0xa0) {
            2
        } else if e - j > 2 && is_ws3_exec(c, b[j + 1], b[j + 2]) {
            3
        } else {
            0
        };
        assert(k == ws_len_at(b@, j as int, e as int));
        if k == 0 {
            return j;
        }
        proof {
            lemma_boundary_next(b@, j as int);
        }
        j = j + k;
    }
    j
}

/// Tests for a three-byte whitespace character.
fn is_ws3_exec(c0: u8, c1: u8, c2: u8) -> (r: bool)
    ensures
        r == is_ws3(c0, c1, c2),
{
    (c0 == 0xe1 && c1 == 0x9a && c2 == 0x80) || (c0 == 0xe2 && c1 == 0x80 && ((0x80 <= c2 && c2
        <= 0x8a) || c2 == 0xa8 || c2 == 0xa9 || c2 == 0xaf)) || (c0 == 0xe2 && c1 == 0x81 && c2
        == 0x9f) || (c0 == 0xe3 && c1 == 0x80 && c2 == 0x80)
}

/// Removes the trailing whitespace characters of `b[i..e]`.
pub fn skip_trailing_ws(b: &[u8], i: usize, e: usize) -> (j: usize)
    requires
        i <= e <= b@.len(),
    ensures
        j == trim_end(b@, i as int, e as int),
        i <= j <= e,
{
    let mut j = e;
    while j > i
        invariant
            i <= j <= e,
            e <= b@.len(),
            trim_end(b@, i as int, e as int) == trim_end(b@, i as int, j as int),
        decreases j - i,
    {
        let c = b[j - 1];
        let k: usize = if c == 0x09 || c == 0x0a || c == 0x0b || c == 0x0c || c == 0x0d || c == 0x20 {
            1
        } else if i + 1 < j && b[j - 2] == 0xc2 && (c == 0x85 || c == 0xa0) {
            2
        } else if j - i > 2 && is_ws3_exec(b[j - 3], b[j - 2], c) {
            3
        } else {
            0
        };
        assert(k == ws_len_before(b@, i as int, j as int));
        if k == 0 {
            return j;
        }
        j = j - k;
    }
    j
}

/// An ASCII byte is never a UTF-8 continuation byte.
proof fn lemma_ascii_not_continuation(c: u8)
    requires
        is_ascii_ws(c) || c == 0x23u8,
    ensures
        !is_continuation_byte(c),
        is_leading_byte_width_1(c),
{
}

/// Splits the line `b[s..e]` into its fields (see [`line_fields`]); each token
/// found starts and ends on a character boundary.
pub fn fields_of_line(b: &[u8], s: usize, e: usize) -> (r: (usize, usize, usize, usize, usize))
    requires
        s <= e <= b@.len(),
        valid_utf8(b@),
        is_char_boundary(b@, s as int),
        e == b@.len() || b@[e as int] == 0x0au8,
    ensures
        (r.0 as int, r.1 as int, r.2 as int, r.3 as int, r.4 as int) == line_fields(
            b@,
            s as int,
            e as int,
        ),
        s <= r.1 <= r.2 <= r.3 <= r.4 <= r.0 <= e,
        r.1 < r.0 ==> r.1 < r.2 && is_char_boundary(b@, r.1 as int) && is_char_boundary(
            b@,
            r.2 as int,
        ),
        r.3 < r.0 ==> r.2 < r.3 < r.4 && is_char_boundary(b@, r.3 as int) && is_char_boundary(
            b@,
            r.4 as int,
        ),
{
    let c = scan(b, s, e, ByteClass::Hash);
    proof {
        lemma_find(b@, s as int, e as int, ByteClass::Hash);
        if c < e {
            lemma_ascii_not_continuation(b@[c as int]);
        }
        lemma_boundary_at(b@, c as int);
    }
    let ls = skip_leading_ws(b, s, c);
    let te = skip_trailing_ws(b, ls, c);
    proof {
        lemma_trim_end(b@, ls as int, c as int);
        lemma_boundary_at(b@, te as int);
    }
    let a0 = scan(b, ls, te, ByteClass::NonSpace);
    proof {
        lemma_find(b@, ls as int, te as int, ByteClass::NonSpace);
    }
    let b0 = scan(b, a0, te, ByteClass::Space);
    proof {
        lemma_find(b@, a0 as int, te as int, ByteClass::Space);
    }
    let a1 = scan(b, b0, te, ByteClass::NonSpace);
    proof {
        lemma_find(b@, b0 as int, te as int, ByteClass::NonSpace);
    }
    let b1 = scan(b, a1, te, ByteClass::Space);
    proof {
        lemma_find(b@, a1 as int, te as int, ByteClass::Space);
        if a0 < te {
            if a0 > ls {
                let p = a0 - 1;
                assert(is_ascii_ws(b@[p as int]));
                lemma_ascii_not_continuation(b@[p as int]);
                lemma_boundary_at(b@, p as int);
                lemma_boundary_next(b@, p as int);
            }
            if b0 < te {
                lemma_ascii_not_continuation(b@[b0 as int]);
            }
            lemma_boundary_at(b@, b0 as int);
        }
        if a1 < te {
            assert(is_ascii_ws(b@[b0 as int]));
            let p = a1 - 1;
            assert(is_ascii_ws(b@[p as int]));
            lemma_ascii_not_continuation(b@[p as int]);
            lemma_boundary_at(b@, p as int);
            lemma_boundary_next(b@, p as int);
            if b1 < te {
                lemma_ascii_not_continuation(b@[b1 as int]);
            }
            lemma_boundary_at(b@, b1 as int);
        }
    }
    (te, a0, b0, a1, b1)
}

/// The text of bytes `i..j` of `text`, for character boundaries `i <= j`.
pub fn slice_text<'a>(text: &'a str, i: usize, j: usize) -> (t: &'a str)
    requires
        i <= j <= text.spec_bytes().len(),
        is_char_boundary(text.spec_bytes(), i as int),
        is_char_boundary(text.spec_bytes(), j as int),
    ensures
        t.spec_bytes() == text.spec_bytes().subrange(i as int, j as int),
{
    broadcast use encode_utf8_valid_utf8;

    let (head, _) = text.split_at(j);
    proof {
        let b = text.spec_bytes();
        let h = head.spec_bytes();
        assert(valid_utf8(h));
        if i < j {
            is_char_boundary_iff_not_is_continuation_byte(b, i as int);
            assert(h[i as int] == b[i as int]);
            is_char_boundary_iff_not_is_continuation_byte(h, i as int);
        } else {
            is_char_boundary_start_end_of_seq(h);
        }
    }
    let (_, t) = head.split_at(i);
    proof {
        assert(t.spec_bytes() =~= text.spec_bytes().subrange(i as int, j as int));
    }
    t
}

/// Whether `b[i0..j0]` and `b[i1..j1]` hold the same bytes.
pub fn same_bytes(b: &[u8], i0: usize, j0: usize, i1: usize, j1: usize) -> (r: bool)
    requires
        i0 <= j0 <= b@.len(),
        i1 <= j1 <= b@.len(),
    ensures
        r == (b@.subrange(i0 as int, j0 as int) == b@.subrange(i1 as int, j1 as int)),
{
    if j0 - i0 != j1 - i1 {
        assert(b@.subrange(i0 as int, j0 as int).len() != b@.subrange(i1 as int, j1 as int).len());
        return false;
    }
    let len = j0 - i0;
    let mut k: usize = 0;
    while k < len
        invariant
            len == j0 - i0,
            len == j1 - i1,
            i0 <= j0 <= b@.len(),
            i1 <= j1 <= b@.len(),
            k <= len,
            forall|m: int|
                0 <= m < k ==> #[trigger] b@.subrange(i0 as int, j0 as int)[m] == b@.subrange(
                    i1 as int,
                    j1 as int,
                )[m],
        decreases len - k,
    {
        if b[i0 + k] != b[i1 + k] {
            proof {
                assert(b@.subrange(i0 as int, j0 as int)[k as int] != b@.subrange(i1 as int, j1 as int)[k as int]);
            }
            return false;
        }
        k += 1;
    }
    assert(b@.subrange(i0 as int, j0 as int) =~= b@.subrange(i1 as int, j1 as int));
    true
}

/// `b1` holds the bytes of `b2[i..e]` at an offset of `d`.
pub open spec fn agree(b1: Seq<u8>, b2: Seq<u8>, d: int, i: int, e: int) -> bool {
    &&& 0 <= i <= e <= b2.len()
    &&& 0 <= i + d
    &&& e + d <= b1.len()
    &&& forall|j: int| i <= j < e ==> #[trigger] b1[j + d] == b2[j]
}

/// Scanning depends only on the bytes scanned.
pub proof fn lemma_find_shift(b1: Seq<u8>, b2: Seq<u8>, d: int, i: int, e: int, k: ByteClass)
    requires
        agree(b1, b2, d, i, e),
    ensures
        find(b1, i + d, e + d, k) == find(b2, i, e, k) + d,
    decreases e - i,
{
    if i < e {
        assert(b1[i + d] == b2[i]);
        if !k.holds(b2[i]) {
            lemma_find_shift(b1, b2, d, i + 1, e, k);
            assert(i + 1 + d == i + d + 1);
        }
    }
}

/// A scan that meets a byte of its class at `q` ends at or before `q`.
pub proof fn lemma_find_stops(b: Seq<u8>, i: int, q: int, e: int, k: ByteClass)
    requires
        i <= q < e,
        k.holds(b[q]),
    ensures
        find(b, i, e, k) == find(b, i, q, k),
        find(b, i, e, k) == find(b, i, q + 1, k),
        find(b, i, e, k) <= q,
    decreases q - i,
{
    if i < q && !k.holds(b[i]) {
        lemma_find_stops(b, i + 1, q, e, k);
    }
}

proof fn lemma_trim_shift(b1: Seq<u8>, b2: Seq<u8>, d: int, i: int, e: int)
    requires
        agree(b1, b2, d, i, e),
    ensures
        trim_start(b1, i + d, e + d) == trim_start(b2, i, e) + d,
    decreases e - i,
{
    if i < e {
        assert(b1[i + d] == b2[i]);
        if i + 1 < e {
            assert(b1[i + 1 + d] == b2[i + 1]);
        }
        if i + 2 < e {
            assert(b1[i + 2 + d] == b2[i + 2]);
        }
        assert(ws_len_at(b1, i + d, e + d) == ws_len_at(b2, i, e));
        let w = ws_len_at(b2, i, e);
        if w > 0 {
            lemma_trim_shift(b1, b2, d, i + w, e);
            assert(i + w + d == i + d + w);
        }
    }
}

proof fn lemma_trim_end_shift(b1: Seq<u8>, b2: Seq<u8>, d: int, i: int, e: int)
    requires
        agree(b1, b2, d, i, e),
    ensures
        trim_end(b1, i + d, e + d) == trim_end(b2, i, e) + d,
    decreases e - i,
{
    if i < e {
        assert(b1[e - 1 + d] == b2[e - 1]);
        if i + 1 < e {
            assert(b1[e - 2 + d] == b2[e - 2]);
        }
        if i + 2 < e {
            assert(b1[e - 3 + d] == b2[e - 3]);
        }
        assert(ws_len_before(b1, i + d, e + d) == ws_len_before(b2, i, e));
        let w = ws_len_before(b2, i, e);
        if w > 0 {
            lemma_trim_end_shift(b1, b2, d, i, e - w);
            assert(e - w + d == e + d - w);
        }
    }
}

/// The fields of a line depend only on the bytes of the line.
pub proof fn lemma_fields_shift(b1: Seq<u8>, b2: Seq<u8>, d: int, s: int, e: int)
    requires
        agree(b1, b2, d, s, e),
    ensures
        ({
            let f1 = line_fields(b1, s + d, e + d);
            let f2 = line_fields(b2, s, e);
            &&& f1.0 == f2.0 + d
            &&& f1.1 == f2.1 + d
            &&& f1.2 == f2.2 + d
            &&& f1.3 == f2.3 + d
            &&& f1.4 == f2.4 + d
            &&& s <= f2.1 <= f2.2 <= f2.3 <= f2.4 <= f2.0 <= e
        }),
{
    lemma_find_shift(b1, b2, d, s, e, ByteClass::Hash);
    lemma_find(b2, s, e, ByteClass::Hash);
    let c = find(b2, s, e, ByteClass::Hash);
    lemma_trim_shift(b1, b2, d, s, c);
    lemma_trim_start_bounds(b2, s, c);
    let ls = trim_start(b2, s, c);
    lemma_trim_end_shift(b1, b2, d, ls, c);
    lemma_trim_end(b2, ls, c);
    let te = trim_end(b2, ls, c);
    lemma_find_shift(b1, b2, d, ls, te, ByteClass::NonSpace);
    lemma_find(b2, ls, te, ByteClass::NonSpace);
    let a0 = find(b2, ls, te, ByteClass::NonSpace);
    lemma_find_shift(b1, b2, d, a0, te, ByteClass::Space);
    lemma_find(b2, a0, te, ByteClass::Space);
    let b0 = find(b2, a0, te, ByteClass::Space);
    lemma_find_shift(b1, b2, d, b0, te, ByteClass::NonSpace);
    lemma_find(b2, b0, te, ByteClass::NonSpace);
    let a1 = find(b2, b0, te, ByteClass::NonSpace);
    lemma_find_shift(b1, b2, d, a1, te, ByteClass::Space);
    lemma_find(b2, a1, te, ByteClass::Space);
}

proof fn lemma_trim_start_bounds(b: Seq<u8>, i: int, e: int)
    requires
        0 <= i <= e,
    ensures
        i <= trim_start(b, i, e) <= e,
    decreases e - i,
{
    if ws_len_at(b, i, e) > 0 {
        lemma_trim_start_bounds(b, i + ws_len_at(b, i, e), e);
    }
}

/// A scan that meets no byte of its class runs to the end.
pub proof fn lemma_find_none(b: Seq<u8>, i: int, e: int, k: ByteClass)
    requires
        i <= e,
        forall|j: int| i <= j < e ==> !k.holds(#[trigger] b[j]),
    ensures
        find(b, i, e, k) == e,
    decreases e - i,
{
    if i < e {
        lemma_find_none(b, i + 1, e, k);
    }
}

/// Scanning again up to what a scan found finds the same position.
pub proof fn lemma_find_idempotent(b: Seq<u8>, s: int, e: int, k: ByteClass)
    requires
        s <= e,
    ensures
        find(b, s, find(b, s, e, k), k) == find(b, s, e, k),
    decreases e - s,
{
    lemma_find(b, s, e, k);
    if s < e && !k.holds(b[s]) {
        lemma_find_idempotent(b, s + 1, e, k);
        lemma_find(b, s + 1, e, k);
    }
}

} // verus!
