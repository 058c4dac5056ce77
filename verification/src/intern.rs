//! An append-only arena of byte strings, each ended by a newline, that
//! hands out the offset of a string and stores no string twice.

use crate::bytes::{get_string, lemma_first_index_unique, same_bytes, string_at, NEWLINE};
use crate::phf::{sip13, sip13_128};
use crate::{Error, Span};
use std::collections::HashMap;
use vstd::prelude::*;
use vstd::slice::slice_subrange;

verus! {

/// The largest arena, in bytes: every offset into it fits 32 bits.
pub const ARENA_LIMIT: u64 = 0x1_0000_0000;

/// The arena that holds `strings` in this order, a newline after each.
pub open spec fn arena_of(strings: Seq<Seq<u8>>) -> Seq<u8>
    decreases strings.len(),
{
    if strings.len() == 0 {
        Seq::empty()
    } else {
        arena_of(strings.drop_last()) + strings.last() + seq![NEWLINE]
    }
}

/// The offset of the `i`-th string in the arena of `strings`.
pub open spec fn offset_of(strings: Seq<Seq<u8>>, i: int) -> int {
    arena_of(strings.take(i)).len() as int
}

/// The strings after `s` has been added: as before if `s` is among them,
/// else with `s` at the end.
pub open spec fn added(strings: Seq<Seq<u8>>, s: Seq<u8>) -> Seq<Seq<u8>> {
    if strings.contains(s) {
        strings
    } else {
        strings.push(s)
    }
}

/// The offset of `s` in the arena of `strings`, which hold it.
pub open spec fn offset_in(strings: Seq<Seq<u8>>, s: Seq<u8>) -> int {
    offset_of(strings, strings.index_of(s))
}

/// Whether `s` can be added: it is there already, or the arena with `s`
/// and its newline stays within `ARENA_LIMIT`.
pub open spec fn has_room(strings: Seq<Seq<u8>>, s: Seq<u8>) -> bool {
    strings.contains(s) || arena_of(strings).len() + s.len() + 1 <= ARENA_LIMIT
}

/// Adding one string at the end appends it and a newline to the arena.
pub proof fn lemma_arena_push(strings: Seq<Seq<u8>>, s: Seq<u8>)
    ensures
        arena_of(strings.push(s)) == arena_of(strings) + s + seq![NEWLINE],
        offset_of(strings.push(s), strings.len() as int) == arena_of(strings).len(),
{
    assert(strings.push(s).drop_last() =~= strings);
    assert(strings.push(s).take(strings.len() as int) =~= strings);
}

/// The `i`-th string lies at its offset in the arena, with a newline
/// behind it, and the next string starts behind that newline.
pub proof fn lemma_arena_holds(strings: Seq<Seq<u8>>, i: int)
    requires
        0 <= i < strings.len(),
    ensures
        0 <= offset_of(strings, i),
        offset_of(strings, i + 1) == offset_of(strings, i) + strings[i].len() + 1,
        offset_of(strings, i + 1) <= arena_of(strings).len(),
        arena_of(strings).subrange(offset_of(strings, i), offset_of(strings, i) + strings[i].len())
            == strings[i],
        arena_of(strings)[offset_of(strings, i) + strings[i].len()] == NEWLINE,
    decreases strings.len(),
{
    let front = strings.drop_last();
    if i == strings.len() - 1 {
        assert(strings.take(i) =~= front);
        assert(strings.take(i + 1) =~= strings);
        assert(arena_of(strings).subrange(
            offset_of(strings, i),
            offset_of(strings, i) + strings[i].len(),
        ) =~= strings[i]);
    } else {
        lemma_arena_holds(front, i);
        assert(strings.take(i) =~= front.take(i));
        assert(strings.take(i + 1) =~= front.take(i + 1));
        assert(arena_of(strings).subrange(
            offset_of(strings, i),
            offset_of(strings, i) + strings[i].len(),
        ) =~= arena_of(front).subrange(offset_of(front, i), offset_of(front, i) + front[i].len()));
    }
}

/// An arena that holds a string ends with a newline.
pub proof fn lemma_arena_ends_with_newline(strings: Seq<Seq<u8>>)
    requires
        strings.len() > 0,
    ensures
        arena_of(strings).len() > 0,
        arena_of(strings).last() == NEWLINE,
{
}

/// A later string starts behind an earlier one.
pub proof fn lemma_offsets_increase(strings: Seq<Seq<u8>>, i: int, j: int)
    requires
        0 <= i < j <= strings.len(),
    ensures
        offset_of(strings, i) + strings[i].len() + 1 <= offset_of(strings, j),
    decreases j - i,
{
    lemma_arena_holds(strings, i);
    if i + 1 < j {
        lemma_offsets_increase(strings, i + 1, j);
    }
}

/// A string without a newline is read back from its offset in the arena.
pub proof fn lemma_string_in_arena(strings: Seq<Seq<u8>>, i: int)
    requires
        0 <= i < strings.len(),
        !strings[i].contains(NEWLINE),
    ensures
        string_at(arena_of(strings), offset_of(strings, i)) == Some(strings[i]),
{
    let arena = arena_of(strings);
    let offset = offset_of(strings, i);
    let s = strings[i];
    lemma_arena_holds(strings, i);
    let rest = arena.skip(offset);
    assert forall|j: int| 0 <= j < s.len() implies rest[j] != NEWLINE by {
        assert(arena.subrange(offset, offset + s.len())[j] == rest[j]);
        assert(s.contains(s[j]));
    }
    lemma_first_index_unique(rest, NEWLINE, s.len() as int);
}

/// Adding a string a second time gives the same offset and leaves the
/// arena as the first time left it.
pub proof fn lemma_add_twice(strings: Seq<Seq<u8>>, s: Seq<u8>)
    ensures
        has_room(added(strings, s), s),
        added(added(strings, s), s) == added(strings, s),
        offset_in(added(added(strings, s), s), s) == offset_in(added(strings, s), s),
{
    assert(added(strings, s).contains(s)) by {
        if !strings.contains(s) {
            assert(strings.push(s)[strings.len() as int] == s);
        }
    }
}

/// What `get` reads at the offset that `add` gave for a string without a
/// newline is that string.
pub proof fn lemma_get_after_add(strings: Seq<Seq<u8>>, s: Seq<u8>)
    requires
        !s.contains(NEWLINE),
    ensures
        string_at(arena_of(added(strings, s)), offset_in(added(strings, s), s)) == Some(s),
{
    let after = added(strings, s);
    assert(after.contains(s)) by {
        if !strings.contains(s) {
            assert(strings.push(s)[strings.len() as int] == s);
        }
    }
    let i = after.index_of(s);
    lemma_string_in_arena(after, i);
}

/// The 64-bit digest under which the arena files a string.
pub open spec fn digest(s: Seq<u8>) -> u64 {
    sip13_128(0, 0, s).0
}

/// Where the `i`-th string lies in the arena.
pub open spec fn span_of(strings: Seq<Seq<u8>>, i: int) -> Span {
    Span {
        start: offset_of(strings, i) as u32,
        end: (offset_of(strings, i) + strings[i].len()) as u32,
    }
}

/// Whether `span` is filed under the digest `h`.
pub open spec fn listed(offsets: Map<u64, Vec<Span>>, h: u64, span: Span) -> bool {
    offsets.contains_key(h) && offsets[h]@.contains(span)
}

/// Whether `span` is where the `i`-th string lies, and `h` its digest.
pub open spec fn is_entry(strings: Seq<Seq<u8>>, i: int, h: u64, span: Span) -> bool {
    0 <= i < strings.len() && digest(strings[i]) == h && span_of(strings, i) == span
}

/// Strings that were there before one was added keep their place.
pub proof fn lemma_span_kept(strings: Seq<Seq<u8>>, s: Seq<u8>, i: int)
    requires
        0 <= i < strings.len(),
    ensures
        span_of(strings.push(s), i) == span_of(strings, i),
        offset_of(strings.push(s), i) == offset_of(strings, i),
{
    assert(strings.push(s).take(i) =~= strings.take(i));
}

/// Looks for a span of `bucket` over which `buf` holds exactly `s`.
fn find_in(bucket: &Vec<Span>, buf: &[u8], s: &[u8]) -> (r: Option<u32>)
    requires
        forall|j: int|
            0 <= j < bucket@.len() ==> (#[trigger] bucket@[j]).start <= bucket@[j].end <= buf@.len(),
    ensures
        match r {
            Some(start) => exists|j: int|
                0 <= j < bucket@.len() && (#[trigger] bucket@[j]).start == start && buf@.subrange(
                    bucket@[j].start as int,
                    bucket@[j].end as int,
                ) == s@,
            None => forall|j: int|
                0 <= j < bucket@.len() ==> buf@.subrange(
                    (#[trigger] bucket@[j]).start as int,
                    bucket@[j].end as int,
                ) != s@,
        },
{
    let mut j: usize = 0;
    while j < bucket.len()
        invariant
            j <= bucket@.len(),
            forall|c: int|
                0 <= c < bucket@.len() ==> (#[trigger] bucket@[c]).start <= bucket@[c].end
                    <= buf@.len(),
            forall|c: int|
                0 <= c < j ==> buf@.subrange(
                    (#[trigger] bucket@[c]).start as int,
                    bucket@[c].end as int,
                ) != s@,
        decreases bucket@.len() - j,
    {
        let span = bucket[j];
        if same_bytes(slice_subrange(buf, span.start as usize, span.end as usize), s) {
            return Some(span.start);
        }
        j += 1;
    }
    None
}

/// An arena of distinct byte strings.
pub struct Interner {
    offsets: HashMap<u64, Vec<Span>>,
    buf: Vec<u8>,
    strings: Ghost<Seq<Seq<u8>>>,
}

impl View for Interner {
    type V = Seq<Seq<u8>>;

    /// The strings of the arena, in the order in which they were added.
    closed spec fn view(&self) -> Seq<Seq<u8>> {
        self.strings@
    }
}

impl Default for Interner {
    /// The empty arena.
    fn default() -> (r: Self)
        ensures
            r.wf(),
            r@ == Seq::<Seq<u8>>::empty(),
    {
        Interner::new()
    }
}

impl Interner {
    /// Whether the arena holds its strings one after the other, none of
    /// them twice, and finds each under its digest.
    pub closed spec fn wf(&self) -> bool {
        &&& self.buf@ == arena_of(self.strings@)
        &&& self.buf@.len() <= ARENA_LIMIT
        &&& self.strings@.no_duplicates()
        &&& forall|h: u64, span: Span| #[trigger]
            listed(self.offsets@, h, span) ==> exists|i: int| #[trigger]
                is_entry(self.strings@, i, h, span)
        &&& forall|i: int|
            0 <= i < self.strings@.len() ==> listed(
                self.offsets@,
                digest(self.strings@[i]),
                #[trigger] span_of(self.strings@, i),
            )
    }

    /// The empty arena.
    pub fn new() -> (r: Self)
        ensures
            r.wf(),
            r@ == Seq::<Seq<u8>>::empty(),
    {
        broadcast use vstd::std_specs::hash::group_hash_axioms;

        let r = Interner { offsets: HashMap::new(), buf: Vec::new(), strings: Ghost(Seq::empty()) };
        assert(r.offsets@ =~= Map::empty());
        r
    }

    /// Returns the offset of `s` in the arena. A string that the arena
    /// does not hold yet is appended, with a newline behind it; one that it
    /// holds keeps its offset. Where the arena would outgrow `ARENA_LIMIT`,
    /// the result is `OffsetOverflow` and the arena stays as it is.
    pub fn add(&mut self, s: &[u8]) -> (r: Result<u32, Error>)
        requires
            old(self).wf(),
        ensures
            final(self).wf(),
            has_room(old(self)@, s@) ==> final(self)@ == added(old(self)@, s@) && r == Ok::<
                u32,
                Error,
            >(offset_in(added(old(self)@, s@), s@) as u32),
            !has_room(old(self)@, s@) ==> final(self)@ == old(self)@ && r == Err::<u32, Error>(
                Error::OffsetOverflow,
            ),
    {
        broadcast use vstd::std_specs::hash::group_hash_axioms;

        let ghost strings = self.strings@;
        let h = sip13(0, 0, s).0;
        let known = match self.offsets.get(&h) {
            Some(bucket) => {
                assert forall|j: int| 0 <= j < bucket@.len() implies (#[trigger] bucket@[j]).start
                    <= bucket@[j].end <= self.buf@.len() by {
                    assert(bucket@.contains(bucket@[j]));
                    assert(listed(self.offsets@, h, bucket@[j]));
                    let i = choose|i: int| is_entry(strings, i, h, bucket@[j]);
                    lemma_arena_holds(strings, i);
                }
                let found = find_in(bucket, self.buf.as_slice(), s);
                proof {
                    if let Some(start) = found {
                        let j = choose|j: int|
                            0 <= j < bucket@.len() && (#[trigger] bucket@[j]).start == start
                                && self.buf@.subrange(
                                bucket@[j].start as int,
                                bucket@[j].end as int,
                            ) == s@;
                        assert(bucket@.contains(bucket@[j]));
                        assert(listed(self.offsets@, h, bucket@[j]));
                        let i = choose|i: int| is_entry(strings, i, h, bucket@[j]);
                        lemma_arena_holds(strings, i);
                        assert(strings[i] == s@);
                        assert(strings.contains(s@));
                        assert(strings.index_of(s@) == i);
                    } else {
                        assert forall|i: int| 0 <= i < strings.len() implies strings[i] != s@ by {
                            if strings[i] == s@ {
                                lemma_arena_holds(strings, i);
                                assert(listed(self.offsets@, h, span_of(strings, i)));
                                let j = choose|j: int|
                                    0 <= j < bucket@.len() && bucket@[j] == span_of(strings, i);
                                assert(self.buf@.subrange(
                                    bucket@[j].start as int,
                                    bucket@[j].end as int,
                                ) == s@);
                            }
                        }
                    }
                }
                found
            },
            None => {
                proof {
                    assert forall|i: int| 0 <= i < strings.len() implies strings[i] != s@ by {
                        if strings[i] == s@ {
                            assert(listed(self.offsets@, h, span_of(strings, i)));
                        }
                    }
                }
                None
            },
        };
        if let Some(start) = known {
            return Ok(start);
        }
        assert(!strings.contains(s@));
        let len = self.buf.len();
        if s.len() as u64 >= ARENA_LIMIT || len as u64 + s.len() as u64 + 1 > ARENA_LIMIT {
            return Err(Error::OffsetOverflow);
        }
        let span = Span { start: len as u32, end: (len + s.len()) as u32 };
        let mut i: usize = 0;
        while i < s.len()
            invariant
                i <= s@.len(),
                self.buf@ == old(self).buf@ + s@.take(i as int),
                self.offsets == old(self).offsets,
                self.strings == old(self).strings,
            decreases s@.len() - i,
        {
            self.buf.push(s[i]);
            i += 1;
            assert(self.buf@ =~= old(self).buf@ + s@.take(i as int));
        }
        self.buf.push(NEWLINE);
        let mut bucket = match self.offsets.remove(&h) {
            Some(bucket) => bucket,
            None => Vec::new(),
        };
        let ghost before = bucket@;
        bucket.push(span);
        self.offsets.insert(h, bucket);
        self.strings = Ghost(strings.push(s@));
        proof {
            let after = strings.push(s@);
            let rank = strings.len() as int;
            assert(s@.take(s@.len() as int) =~= s@);
            lemma_arena_push(strings, s@);
            assert(self.buf@ =~= arena_of(strings) + s@ + seq![NEWLINE]);
            assert(span_of(after, rank) == span);
            assert(after.index_of(s@) == rank) by {
                assert(after[rank] == s@);
                let found = after.index_of(s@);
                assert(after[found] == s@);
            }
            assert forall|i: int| 0 <= i < strings.len() implies span_of(after, i) == span_of(
                strings,
                i,
            ) by {
                lemma_span_kept(strings, s@, i);
            }
            assert forall|g: u64, sp: Span| #[trigger]
                listed(self.offsets@, g, sp) implies exists|i: int| #[trigger]
                is_entry(after, i, g, sp) by {
                if g == h && sp == span {
                    assert(is_entry(after, rank, g, sp));
                } else {
                    if g == h {
                        let j = choose|j: int| 0 <= j < bucket@.len() && bucket@[j] == sp;
                        assert(before[j] == sp);
                        assert(before.contains(sp));
                    }
                    assert(listed(old(self).offsets@, g, sp));
                    let i = choose|i: int| is_entry(strings, i, g, sp);
                    assert(is_entry(after, i, g, sp));
                }
            }
            assert forall|i: int| 0 <= i < after.len() implies listed(
                self.offsets@,
                digest(after[i]),
                #[trigger] span_of(after, i),
            ) by {
                if i == rank {
                    assert(bucket@[before.len() as int] == span);
                } else {
                    assert(listed(old(self).offsets@, digest(strings[i]), span_of(strings, i)));
                    if digest(strings[i]) == h {
                        let j = choose|j: int|
                            0 <= j < before.len() && before[j] == span_of(strings, i);
                        assert(bucket@[j] == span_of(strings, i));
                    }
                }
            }
        }
        Ok(span.start)
    }

    /// The bytes of the arena.
    pub fn buf(&self) -> (r: &[u8])
        requires
            self.wf(),
        ensures
            r@ == arena_of(self@),
    {
        self.buf.as_slice()
    }

    /// Returns the string that starts at `offset`, without its newline;
    /// `UnterminatedString` if no newline follows `offset`.
    pub fn get(&self, offset: u32) -> (r: Result<&[u8], Error>)
        requires
            self.wf(),
        ensures
            match string_at(arena_of(self@), offset as int) {
                Some(s) => r matches Ok(found) && found@ == s,
                None => r == Err::<&[u8], Error>(Error::UnterminatedString),
            },
    {
        match get_string(self.buf.as_slice(), offset as usize) {
            Some(found) => Ok(found),
            None => Err(Error::UnterminatedString),
        }
    }
}

} // verus!
