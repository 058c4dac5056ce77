//! Byte-level building blocks: little-endian integers, searching for a byte,
//! and the lexicographic order of byte strings.

use bstr::ByteSlice;
use vstd::prelude::*;
use vstd::slice::slice_subrange;

verus! {

/// The four bytes of `x`, least significant first.
pub open spec fn le32(x: u32) -> Seq<u8> {
    seq![
        (x % 256) as u8,
        (x / 256 % 256) as u8,
        (x / 65536 % 256) as u8,
        (x / 16777216) as u8,
    ]
}

/// The integer whose little-endian bytes are the first four of `b`.
pub open spec fn from_le32(b: Seq<u8>) -> u32
    recommends
        b.len() >= 4,
{
    (b[0] + 256 * b[1] + 65536 * b[2] + 16777216 * b[3]) as u32
}

/// Decoding undoes encoding.
pub proof fn lemma_le32_round_trip(x: u32)
    ensures
        le32(x).len() == 4,
        from_le32(le32(x)) == x,
{
}

/// Appends the little-endian bytes of `x` to `out`.
pub fn push_u32(out: &mut Vec<u8>, x: u32)
    ensures
        final(out)@ == old(out)@ + le32(x),
{
    out.push((x % 256) as u8);
    out.push((x / 256 % 256) as u8);
    out.push((x / 65536 % 256) as u8);
    out.push((x / 16777216) as u8);
    assert(out@ =~= old(out)@ + le32(x));
}

/// Reads the little-endian integer that starts at `pos`.
pub fn read_u32(bytes: &[u8], pos: usize) -> (x: u32)
    requires
        pos + 4 <= bytes@.len(),
    ensures
        x == from_le32(bytes@.subrange(pos as int, pos + 4)),
{
    let b0: u32 = bytes[pos] as u32;
    let b1: u32 = bytes[pos + 1] as u32;
    let b2: u32 = bytes[pos + 2] as u32;
    let b3: u32 = bytes[pos + 3] as u32;
    b0 + 256 * b1 + 65536 * b2 + 16777216 * b3
}

/// The eight bytes of `x`, least significant first.
pub open spec fn le64(x: u64) -> Seq<u8> {
    le32((x % 0x1_0000_0000) as u32) + le32((x / 0x1_0000_0000) as u32)
}

/// The integer whose little-endian bytes are the first eight of `b`.
pub open spec fn from_le64(b: Seq<u8>) -> u64
    recommends
        b.len() >= 8,
{
    (from_le32(b.subrange(0, 4)) + 0x1_0000_0000 * from_le32(b.subrange(4, 8))) as u64
}

/// Decoding undoes encoding.
pub proof fn lemma_le64_round_trip(x: u64)
    ensures
        le64(x).len() == 8,
        from_le64(le64(x)) == x,
{
    let low = (x % 0x1_0000_0000) as u32;
    let high = (x / 0x1_0000_0000) as u32;
    lemma_le32_round_trip(low);
    lemma_le32_round_trip(high);
    assert(le64(x).subrange(0, 4) =~= le32(low));
    assert(le64(x).subrange(4, 8) =~= le32(high));
}

/// Appends the little-endian bytes of `x` to `out`.
pub fn push_u64(out: &mut Vec<u8>, x: u64)
    ensures
        final(out)@ == old(out)@ + le64(x),
{
    push_u32(out, (x % 0x1_0000_0000) as u32);
    push_u32(out, (x / 0x1_0000_0000) as u32);
    assert(out@ =~= old(out)@ + le64(x));
}

/// Reads the little-endian integer that starts at `pos`.
pub fn read_u64(bytes: &[u8], pos: usize) -> (x: u64)
    requires
        pos + 8 <= bytes@.len(),
    ensures
        x == from_le64(bytes@.subrange(pos as int, pos + 8)),
{
    let len = bytes.len();
    assert(pos + 8 <= len);
    let low = read_u32(bytes, pos);
    let high = read_u32(bytes, pos + 4);
    proof {
        let b = bytes@.subrange(pos as int, pos + 8);
        assert(b.subrange(0, 4) =~= bytes@.subrange(pos as int, pos + 4));
        assert(b.subrange(4, 8) =~= bytes@.subrange(pos + 4, pos + 8));
    }
    low as u64 + 0x1_0000_0000 * (high as u64)
}

/// The index of the first `byte` in `s`, or the length of `s` if there is
/// none.
pub open spec fn first_index(s: Seq<u8>, byte: u8) -> int
    decreases s.len(),
{
    if s.len() == 0 || s[0] == byte {
        0
    } else {
        1 + first_index(s.drop_first(), byte)
    }
}

/// The index of the last `byte` in `s`, or -1 if there is none.
pub open spec fn last_index(s: Seq<u8>, byte: u8) -> int
    decreases s.len(),
{
    if s.len() == 0 {
        -1
    } else if s.last() == byte {
        s.len() - 1
    } else {
        last_index(s.drop_last(), byte)
    }
}

/// `first_index` is the one position with `byte` on it and none before it.
pub proof fn lemma_first_index(s: Seq<u8>, byte: u8)
    ensures
        0 <= first_index(s, byte) <= s.len(),
        first_index(s, byte) < s.len() ==> s[first_index(s, byte)] == byte,
        forall|j: int| 0 <= j < first_index(s, byte) ==> s[j] != byte,
    decreases s.len(),
{
    if s.len() != 0 && s[0] != byte {
        lemma_first_index(s.drop_first(), byte);
        assert forall|j: int| 0 <= j < first_index(s, byte) implies s[j] != byte by {
            if j > 0 {
                assert(s[j] == s.drop_first()[j - 1]);
            }
        }
    }
}

/// Any position that has no `byte` before it, and `byte` on it or the end
/// of `s`, is `first_index`.
pub proof fn lemma_first_index_unique(s: Seq<u8>, byte: u8, i: int)
    requires
        0 <= i <= s.len(),
        i < s.len() ==> s[i] == byte,
        forall|j: int| 0 <= j < i ==> s[j] != byte,
    ensures
        first_index(s, byte) == i,
{
    lemma_first_index(s, byte);
    let f = first_index(s, byte);
    if f < i {
        assert(s[f] != byte);
    }
}

/// `last_index` is the one position with `byte` on it and none after it.
pub proof fn lemma_last_index(s: Seq<u8>, byte: u8)
    ensures
        -1 <= last_index(s, byte) < s.len(),
        last_index(s, byte) >= 0 ==> s[last_index(s, byte)] == byte,
        forall|j: int| last_index(s, byte) < j < s.len() ==> s[j] != byte,
    decreases s.len(),
{
    if s.len() != 0 && s.last() != byte {
        lemma_last_index(s.drop_last(), byte);
        assert forall|j: int| last_index(s, byte) < j < s.len() implies s[j] != byte by {
            if j < s.len() - 1 {
                assert(s[j] == s.drop_last()[j]);
            }
        }
    }
}

/// Any position that has no `byte` after it, and `byte` on it or lies
/// before the start of `s`, is `last_index`.
pub proof fn lemma_last_index_unique(s: Seq<u8>, byte: u8, i: int)
    requires
        -1 <= i < s.len(),
        i >= 0 ==> s[i] == byte,
        forall|j: int| i < j < s.len() ==> s[j] != byte,
    ensures
        last_index(s, byte) == i,
{
    lemma_last_index(s, byte);
    let l = last_index(s, byte);
    if l > i {
        assert(s[l] != byte);
    }
}

/// Calls `bstr::ByteSlice::find_byte`, which returns the index of the first
/// occurrence of `byte` in `haystack`, and `None` if it does not occur.
#[verifier::external_body]
fn bstr_find_byte(haystack: &[u8], byte: u8) -> (r: Option<usize>)
    ensures
        match r {
            Some(i) => i < haystack@.len() && haystack@[i as int] == byte && forall|j: int|
                0 <= j < i ==> haystack@[j] != byte,
            None => forall|j: int| 0 <= j < haystack@.len() ==> haystack@[j] != byte,
        },
{
    haystack.find_byte(byte)
}

/// Calls `bstr::ByteSlice::rfind_byte`, which returns the index of the last
/// occurrence of `byte` in `haystack`, and `None` if it does not occur.
#[verifier::external_body]
fn bstr_rfind_byte(haystack: &[u8], byte: u8) -> (r: Option<usize>)
    ensures
        match r {
            Some(i) => i < haystack@.len() && haystack@[i as int] == byte && forall|j: int|
                i < j < haystack@.len() ==> haystack@[j] != byte,
            None => forall|j: int| 0 <= j < haystack@.len() ==> haystack@[j] != byte,
        },
{
    haystack.rfind_byte(byte)
}

/// The index of the first `byte` in `haystack`, if there is one.
pub fn find_byte(haystack: &[u8], byte: u8) -> (r: Option<usize>)
    ensures
        match r {
            Some(i) => i == first_index(haystack@, byte) && i < haystack@.len(),
            None => first_index(haystack@, byte) == haystack@.len(),
        },
{
    let r = bstr_find_byte(haystack, byte);
    proof {
        match r {
            Some(i) => lemma_first_index_unique(haystack@, byte, i as int),
            None => lemma_first_index_unique(haystack@, byte, haystack@.len() as int),
        }
    }
    r
}

/// The index of the last `byte` in `haystack`, if there is one.
pub fn rfind_byte(haystack: &[u8], byte: u8) -> (r: Option<usize>)
    ensures
        match r {
            Some(i) => i == last_index(haystack@, byte) && i < haystack@.len(),
            None => last_index(haystack@, byte) == -1,
        },
{
    let r = bstr_rfind_byte(haystack, byte);
    proof {
        match r {
            Some(i) => lemma_last_index_unique(haystack@, byte, i as int),
            None => lemma_last_index_unique(haystack@, byte, -1),
        }
    }
    r
}

/// Whether two byte strings are equal.
pub fn same_bytes(a: &[u8], b: &[u8]) -> (r: bool)
    ensures
        r == (a@ == b@),
{
    if a.len() != b.len() {
        return false;
    }
    let mut i: usize = 0;
    while i < a.len()
        invariant
            i <= a@.len(),
            a@.len() == b@.len(),
            forall|j: int| 0 <= j < i ==> a@[j] == b@[j],
        decreases a@.len() - i,
    {
        if a[i] != b[i] {
            return false;
        }
        i += 1;
    }
    assert(a@ =~= b@);
    true
}

/// Whether `s` ends with `suffix`.
pub open spec fn spec_ends_with(s: Seq<u8>, suffix: Seq<u8>) -> bool {
    s.len() >= suffix.len() && s.subrange(s.len() - suffix.len(), s.len() as int) == suffix
}

/// Whether `s` ends with `suffix`.
pub fn ends_with(s: &[u8], suffix: &[u8]) -> (r: bool)
    ensures
        r == spec_ends_with(s@, suffix@),
{
    if s.len() < suffix.len() {
        return false;
    }
    same_bytes(slice_subrange(s, s.len() - suffix.len(), s.len()), suffix)
}

/// The newline byte, which ends every string of an arena.
pub const NEWLINE: u8 = 10;

/// The bytes of `arena` from `offset` up to the next newline, or up to the
/// end where no newline follows; nothing where `offset` lies past the end.
pub open spec fn text_at(arena: Seq<u8>, offset: int) -> Seq<u8> {
    if 0 <= offset <= arena.len() {
        arena.subrange(offset, offset + first_index(arena.skip(offset), NEWLINE))
    } else {
        Seq::empty()
    }
}

/// A string of an arena is no longer than the arena.
pub proof fn lemma_text_len(arena: Seq<u8>, offset: int)
    ensures
        text_at(arena, offset).len() <= arena.len(),
{
    if 0 <= offset <= arena.len() {
        lemma_first_index(arena.skip(offset), NEWLINE);
    }
}

/// Whether a newline follows `offset` in `arena`.
pub open spec fn is_terminated(arena: Seq<u8>, offset: int) -> bool {
    0 <= offset <= arena.len() && first_index(arena.skip(offset), NEWLINE) < arena.len() - offset
}

/// The string that starts at `offset` in `arena`, if a newline ends it.
pub open spec fn string_at(arena: Seq<u8>, offset: int) -> Option<Seq<u8>> {
    if is_terminated(arena, offset) {
        Some(text_at(arena, offset))
    } else {
        None
    }
}

/// Returns the string that starts at `offset` in `arena`, without its
/// newline, or `None` if no newline follows.
pub fn get_string<'a>(arena: &'a [u8], offset: usize) -> (r: Option<&'a [u8]>)
    ensures
        match string_at(arena@, offset as int) {
            Some(s) => r matches Some(found) && found@ == s,
            None => r is None,
        },
{
    if offset > arena.len() {
        return None;
    }
    let rest = slice_subrange(arena, offset, arena.len());
    assert(rest@ =~= arena@.skip(offset as int));
    match find_byte(rest, NEWLINE) {
        Some(end) => {
            let found = slice_subrange(rest, 0, end);
            assert(found@ =~= text_at(arena@, offset as int));
            Some(found)
        },
        None => None,
    }
}

/// Returns the bytes of `arena` from `offset` up to the next newline, or
/// up to the end where no newline follows.
pub fn get_text<'a>(arena: &'a [u8], offset: usize) -> (r: &'a [u8])
    ensures
        r@ == text_at(arena@, offset as int),
{
    let len = arena.len();
    if offset > len {
        let r = slice_subrange(arena, 0, 0);
        assert(r@ =~= text_at(arena@, offset as int));
        return r;
    }
    let rest = slice_subrange(arena, offset, len);
    assert(rest@ =~= arena@.skip(offset as int));
    let end = match find_byte(rest, NEWLINE) {
        Some(end) => end,
        None => rest.len(),
    };
    let r = slice_subrange(rest, 0, end);
    assert(r@ =~= text_at(arena@, offset as int));
    r
}

/// Appends `bytes` to `out`.
pub fn append(out: &mut Vec<u8>, bytes: &[u8])
    ensures
        final(out)@ == old(out)@ + bytes@,
{
    let mut i: usize = 0;
    while i < bytes.len()
        invariant
            i <= bytes@.len(),
            out@ == old(out)@ + bytes@.take(i as int),
        decreases bytes@.len() - i,
    {
        out.push(bytes[i]);
        i += 1;
        assert(out@ =~= old(out)@ + bytes@.take(i as int));
    }
    assert(bytes@.take(i as int) =~= bytes@);
}

} // verus!
