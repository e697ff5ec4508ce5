//! Caret positions: conversions between the UTF-16 code-unit offsets a
//! browser reports for a textarea selection, byte offsets, and columns.
use vstd::prelude::*;
use crate::text::{
    byte_offset, char_utf16_width, char_utf8_width, is_boundary, lemma_byte_offset_mono,
    lemma_utf16_len_append, to_chars, utf16_len, utf16_width, utf8_len,
};
use crate::autocomplete::{char_index, char_index_at_byte};

verus! {

/// Number of leading characters of `s` that lie before UTF-16 offset `u`:
/// the first character index whose UTF-16 offset reaches `u`, or the end.
pub open spec fn utf16_char_index(s: Seq<char>, u: int) -> nat
    decreases s.len(),
{
    if s.len() == 0 || u <= 0 {
        0
    } else {
        1 + utf16_char_index(s.drop_first(), u - utf16_width(s[0]))
    }
}

pub proof fn lemma_utf16_char_index_bound(s: Seq<char>, u: int)
    ensures
        utf16_char_index(s, u) <= s.len(),
    decreases s.len(),
{
    if s.len() > 0 && u > 0 {
        lemma_utf16_char_index_bound(s.drop_first(), u - utf16_width(s[0]));
    }
}

/// A larger UTF-16 offset never lands on an earlier character.
pub proof fn lemma_utf16_char_index_mono(s: Seq<char>, u1: int, u2: int)
    requires
        u1 <= u2,
    ensures
        utf16_char_index(s, u1) <= utf16_char_index(s, u2),
    decreases s.len(),
{
    if s.len() > 0 && u1 > 0 {
        lemma_utf16_char_index_mono(s.drop_first(), u1 - utf16_width(s[0]), u2 - utf16_width(s[0]));
    }
}

proof fn lemma_utf16_le_utf8(s: Seq<char>)
    ensures
        utf16_len(s) <= utf8_len(s),
    decreases s.len(),
{
    if s.len() > 0 {
        lemma_utf16_le_utf8(s.drop_last());
    }
}

/// Convert a UTF-16 code-unit index (what the browser reports for a
/// textarea selection) into a byte index, so slicing the value is correct
/// for multi-byte text. Clamps to the string length.
pub fn utf16_to_byte(s: &str, utf16_idx: usize) -> (r: usize)
    requires
        utf8_len(s@) <= usize::MAX,
    ensures
        r == byte_offset(s@, utf16_char_index(s@, utf16_idx as int) as int),
{
    let v = to_chars(s);
    let mut i: usize = 0;
    let mut units: usize = 0;
    let mut bytes: usize = 0;
    proof {
        assert(v@.skip(0) =~= v@);
        assert(v@.take(v@.len() as int) =~= v@);
    }
    while i < v.len()
        invariant
            i <= v.len(),
            v@ == s@,
            utf8_len(v@) <= usize::MAX,
            v@.take(v@.len() as int) == v@,
            units == utf16_len(v@.take(i as int)),
            bytes == byte_offset(v@, i as int),
            utf16_char_index(v@, utf16_idx as int) == i + utf16_char_index(
                v@.skip(i as int),
                utf16_idx - units,
            ),
        decreases v.len() - i,
    {
        if units >= utf16_idx {
            return bytes;
        }
        let c = v[i];
        proof {
            let t = v@.skip(i as int);
            assert(t[0] == c);
            assert(t.drop_first() =~= v@.skip(i + 1));
            assert(v@.take(i + 1).drop_last() =~= v@.take(i as int));
            lemma_byte_offset_mono(v@, i + 1, v@.len() as int);
            lemma_utf16_le_utf8(v@.take(i + 1));
        }
        units = units + char_utf16_width(c);
        bytes = bytes + char_utf8_width(c);
        i = i + 1;
    }
    bytes
}

/// Count UTF-16 code units in `s[..byte_idx]` (the inverse of
/// [`utf16_to_byte`]), for setting a textarea selection.
pub fn byte_to_utf16(s: &str, byte_idx: usize) -> (r: u32)
    requires
        utf8_len(s@) <= usize::MAX,
        is_boundary(s@, byte_idx as int),
        utf16_len(s@.take(char_index(s@, byte_idx as int))) <= u32::MAX,
    ensures
        r == utf16_len(s@.take(char_index(s@, byte_idx as int))),
{
    let v = to_chars(s);
    proof {
        let k = choose|k: int| 0 <= k <= v@.len() && byte_offset(v@, k) == byte_idx;
        lemma_byte_offset_mono(v@, k, v@.len() as int);
        assert(v@.take(v@.len() as int) =~= v@);
    }
    let k = char_index_at_byte(&v, byte_idx);
    prefix_utf16_len(&v, k)
}

/// UTF-16 length of the first `k` characters of `v`.
pub fn prefix_utf16_len(v: &Vec<char>, k: usize) -> (r: u32)
    requires
        k <= v.len(),
        utf16_len(v@.take(k as int)) <= u32::MAX,
    ensures
        r == utf16_len(v@.take(k as int)),
{
    let mut r: u32 = 0;
    let mut i: usize = 0;
    while i < k
        invariant
            i <= k <= v.len(),
            r == utf16_len(v@.take(i as int)),
            utf16_len(v@.take(k as int)) <= u32::MAX,
        decreases k - i,
    {
        proof {
            assert(v@.take(i + 1).drop_last() =~= v@.take(i as int));
            lemma_utf16_len_append(v@.take(i + 1), v@.subrange(i + 1, k as int));
            assert(v@.take(i + 1) + v@.subrange(i + 1, k as int) =~= v@.take(k as int));
        }
        let w: u32 = if (v[i] as u32) < 0x10000 {
            1
        } else {
            2
        };
        r = r + w;
        i = i + 1;
    }
    r
}

/// Byte offset of the `col`-th char within `line`, clamped to its end. Used
/// to keep the caret's column when arrow-navigating between blocks.
pub fn col_to_byte(line: &str, col: usize) -> (r: usize)
    requires
        utf8_len(line@) <= usize::MAX,
    ensures
        r == byte_offset(line@, if col < line@.len() { col as int } else { line@.len() as int }),
{
    let v = to_chars(line);
    let k = if col < v.len() {
        col
    } else {
        v.len()
    };
    crate::blocks::prefix_byte_len(&v, k)
}

proof fn lemma_utf16_len_front(s: Seq<char>, k: int)
    requires
        1 <= k <= s.len(),
    ensures
        utf16_len(s.take(k)) == utf16_width(s[0]) + utf16_len(s.drop_first().take(k - 1)),
{
    let one = seq![s[0]];
    assert(one.drop_last() =~= Seq::<char>::empty());
    assert(utf16_len(Seq::<char>::empty()) == 0);
    assert(utf16_len(one) == utf16_width(s[0]));
    lemma_utf16_len_append(one, s.drop_first().take(k - 1));
    assert(one + s.drop_first().take(k - 1) =~= s.take(k));
}

/// Converting the UTF-16 offset of character `k` back gives character `k`:
/// [`utf16_to_byte`] undoes [`byte_to_utf16`] on every character boundary.
pub proof fn lemma_utf16_roundtrip(s: Seq<char>, k: int)
    requires
        0 <= k <= s.len(),
    ensures
        utf16_char_index(s, utf16_len(s.take(k)) as int) == k,
        char_index(s, byte_offset(s, k) as int) == k,
    decreases k,
{
    if k > 0 {
        lemma_utf16_len_front(s, k);
        lemma_utf16_roundtrip(s.drop_first(), k - 1);
    } else {
        assert(s.take(0) =~= Seq::<char>::empty());
    }
    assert(s.take(s.len() as int) =~= s);
    if byte_offset(s, k) >= utf8_len(s) {
        if k < s.len() {
            lemma_byte_offset_mono(s, k, s.len() as int);
        }
    } else {
        let j = char_index(s, byte_offset(s, k) as int);
        crate::text::lemma_byte_offset_injective(s, j, k);
    }
}

/// [`utf16_to_byte`] undoes [`byte_to_utf16`]: converting a byte offset on a
/// character boundary to its UTF-16 offset and back gives the same byte
/// offset.
pub proof fn lemma_byte_utf16_byte(s: Seq<char>, b: int)
    requires
        is_boundary(s, b),
    ensures
        byte_offset(s, utf16_char_index(s, utf16_len(s.take(char_index(s, b))) as int) as int)
            == b,
{
    let k = choose|k: int| 0 <= k <= s.len() && byte_offset(s, k) == b;
    lemma_utf16_roundtrip(s, k);
}

/// Every UTF-16 offset, however large, converts to a byte offset on a
/// character boundary within the string.
pub proof fn lemma_utf16_to_byte_in_bounds(s: Seq<char>, u: int)
    ensures
        is_boundary(s, byte_offset(s, utf16_char_index(s, u) as int) as int),
        byte_offset(s, utf16_char_index(s, u) as int) <= utf8_len(s),
{
    let k = utf16_char_index(s, u) as int;
    lemma_utf16_char_index_bound(s, u);
    lemma_byte_offset_mono(s, k, s.len() as int);
    assert(s.take(s.len() as int) =~= s);
}

} // verus!
