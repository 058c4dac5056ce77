//! The layout of an index file: a header, the record array, the
//! displacement table and the slot table of the perfect hash, and the
//! string arena, all integers little-endian.

use crate::bytes::{
    from_le32, from_le64, le32, le64, lemma_le32_round_trip, lemma_le64_round_trip, push_u32,
    read_u32,
};
use crate::phf::{Disp, HashKey};
use crate::{Error, Header, Provider, Span, HEADER_VERSION};
use vstd::prelude::*;

verus! {

/// The number of bytes of the header.
pub const HEADER_LEN: usize = 40;

/// The number of bytes of one record.
pub const PROVIDER_LEN: usize = 16;

/// The number of bytes of one displacement, and of one span.
pub const PAIR_LEN: usize = 8;

/// The bytes of the 32-bit words `ws`, one word after the other.
pub open spec fn words_bytes(ws: Seq<u32>) -> Seq<u8>
    decreases ws.len(),
{
    if ws.len() == 0 {
        Seq::empty()
    } else {
        words_bytes(ws.drop_last()) + le32(ws.last())
    }
}

/// The `i`-th 32-bit word of `b`.
pub open spec fn word_at(b: Seq<u8>, i: int) -> u32 {
    from_le32(b.subrange(4 * i, 4 * i + 4))
}

/// Reading a word gives back what was written.
pub proof fn lemma_words_bytes(ws: Seq<u32>)
    ensures
        words_bytes(ws).len() == 4 * ws.len(),
        forall|i: int| 0 <= i < ws.len() ==> #[trigger] word_at(words_bytes(ws), i) == ws[i],
    decreases ws.len(),
{
    if ws.len() > 0 {
        let front = ws.drop_last();
        lemma_words_bytes(front);
        lemma_le32_round_trip(ws.last());
        assert forall|i: int| 0 <= i < ws.len() implies #[trigger] word_at(words_bytes(ws), i)
            == ws[i] by {
            if i < ws.len() - 1 {
                assert(words_bytes(ws).subrange(4 * i, 4 * i + 4) =~= words_bytes(front).subrange(
                    4 * i,
                    4 * i + 4,
                ));
                assert(word_at(words_bytes(front), i) == front[i]);
            } else {
                assert(words_bytes(ws).subrange(4 * i, 4 * i + 4) =~= le32(ws.last()));
            }
        }
    }
}

/// Writing one more word appends its bytes.
pub proof fn lemma_words_push(ws: Seq<u32>, w: u32)
    ensures
        words_bytes(ws.push(w)) == words_bytes(ws) + le32(w),
{
    assert(ws.push(w).drop_last() =~= ws);
}

/// The words of the records `ps`: for each its four offsets, in the order
/// `repo`, `package_name`, `dir`, `bin`.
pub open spec fn provider_words(ps: Seq<Provider>) -> Seq<u32> {
    Seq::new(
        4 * ps.len(),
        |k: int|
            {
                let p = ps[k / 4];
                if k % 4 == 0 {
                    p.repo
                } else if k % 4 == 1 {
                    p.package_name
                } else if k % 4 == 2 {
                    p.dir
                } else {
                    p.bin
                }
            },
    )
}

/// The record array that holds `ps`.
pub open spec fn providers_bytes(ps: Seq<Provider>) -> Seq<u8> {
    words_bytes(provider_words(ps))
}

/// The `i`-th record of the record array `b`.
pub open spec fn provider_at(b: Seq<u8>, i: int) -> Provider {
    Provider {
        repo: word_at(b, 4 * i),
        package_name: word_at(b, 4 * i + 1),
        dir: word_at(b, 4 * i + 2),
        bin: word_at(b, 4 * i + 3),
    }
}

/// The records that the record array `b` holds.
pub open spec fn read_providers(b: Seq<u8>) -> Seq<Provider> {
    Seq::new((b.len() / 16) as nat, |i: int| provider_at(b, i))
}

/// Reading a record array gives back the records that were written.
pub proof fn lemma_providers_round_trip(ps: Seq<Provider>)
    ensures
        providers_bytes(ps).len() == 16 * ps.len(),
        read_providers(providers_bytes(ps)) == ps,
{
    let ws = provider_words(ps);
    lemma_words_bytes(ws);
    assert forall|i: int| 0 <= i < ps.len() implies provider_at(providers_bytes(ps), i)
        == ps[i] by {
        assert(word_at(words_bytes(ws), 4 * i) == ws[4 * i]);
        assert(word_at(words_bytes(ws), 4 * i + 1) == ws[4 * i + 1]);
        assert(word_at(words_bytes(ws), 4 * i + 2) == ws[4 * i + 2]);
        assert(word_at(words_bytes(ws), 4 * i + 3) == ws[4 * i + 3]);
    }
    assert(read_providers(providers_bytes(ps)) =~= ps);
}

/// The words of the displacements `ds`: for each its two components.
pub open spec fn disp_words(ds: Seq<Disp>) -> Seq<u32> {
    Seq::new(
        2 * ds.len(),
        |k: int|
            if k % 2 == 0 {
                ds[k / 2].0
            } else {
                ds[k / 2].1
            },
    )
}

/// The displacement table that holds `ds`.
pub open spec fn disps_bytes(ds: Seq<Disp>) -> Seq<u8> {
    words_bytes(disp_words(ds))
}

/// The `i`-th displacement of the table `b`.
pub open spec fn disp_at(b: Seq<u8>, i: int) -> Disp {
    Disp(word_at(b, 2 * i), word_at(b, 2 * i + 1))
}

/// The displacements that the table `b` holds.
pub open spec fn read_disps(b: Seq<u8>) -> Seq<Disp> {
    Seq::new((b.len() / 8) as nat, |i: int| disp_at(b, i))
}

/// Reading a displacement table gives back what was written.
pub proof fn lemma_disps_round_trip(ds: Seq<Disp>)
    ensures
        disps_bytes(ds).len() == 8 * ds.len(),
        read_disps(disps_bytes(ds)) == ds,
{
    let ws = disp_words(ds);
    lemma_words_bytes(ws);
    assert forall|i: int| 0 <= i < ds.len() implies disp_at(disps_bytes(ds), i) == ds[i] by {
        assert(word_at(words_bytes(ws), 2 * i) == ws[2 * i]);
        assert(word_at(words_bytes(ws), 2 * i + 1) == ws[2 * i + 1]);
    }
    assert(read_disps(disps_bytes(ds)) =~= ds);
}

/// The words of the spans `ss`: for each its start and its end.
pub open spec fn span_words(ss: Seq<Span>) -> Seq<u32> {
    Seq::new(
        2 * ss.len(),
        |k: int|
            if k % 2 == 0 {
                ss[k / 2].start
            } else {
                ss[k / 2].end
            },
    )
}

/// The slot table that holds `ss`.
pub open spec fn spans_bytes(ss: Seq<Span>) -> Seq<u8> {
    words_bytes(span_words(ss))
}

/// The `i`-th span of the slot table `b`.
pub open spec fn span_at(b: Seq<u8>, i: int) -> Span {
    Span { start: word_at(b, 2 * i), end: word_at(b, 2 * i + 1) }
}

/// The spans that the slot table `b` holds.
pub open spec fn read_spans(b: Seq<u8>) -> Seq<Span> {
    Seq::new((b.len() / 8) as nat, |i: int| span_at(b, i))
}

/// Reading a slot table gives back what was written.
pub proof fn lemma_spans_round_trip(ss: Seq<Span>)
    ensures
        spans_bytes(ss).len() == 8 * ss.len(),
        read_spans(spans_bytes(ss)) == ss,
{
    let ws = span_words(ss);
    lemma_words_bytes(ws);
    assert forall|i: int| 0 <= i < ss.len() implies span_at(spans_bytes(ss), i) == ss[i] by {
        assert(word_at(words_bytes(ws), 2 * i) == ws[2 * i]);
        assert(word_at(words_bytes(ws), 2 * i + 1) == ws[2 * i + 1]);
    }
    assert(read_spans(spans_bytes(ss)) =~= ss);
}

/// Appends the record array of `ps` to `out`.
pub fn write_providers(out: &mut Vec<u8>, ps: &[Provider])
    ensures
        final(out)@ == old(out)@ + providers_bytes(ps@),
{
    let ghost ws = provider_words(ps@);
    let mut i: usize = 0;
    while i < ps.len()
        invariant
            i <= ps@.len(),
            ws == provider_words(ps@),
            out@ == old(out)@ + words_bytes(ws.take(4 * i)),
        decreases ps@.len() - i,
    {
        let p = ps[i];
        proof {
            let base = ws.take(4 * i);
            lemma_words_push(base, p.repo);
            lemma_words_push(base.push(p.repo), p.package_name);
            lemma_words_push(base.push(p.repo).push(p.package_name), p.dir);
            lemma_words_push(base.push(p.repo).push(p.package_name).push(p.dir), p.bin);
            assert(ws.take(4 * (i + 1)) =~= base.push(p.repo).push(p.package_name).push(p.dir).push(
                p.bin,
            ));
        }
        push_u32(out, p.repo);
        push_u32(out, p.package_name);
        push_u32(out, p.dir);
        push_u32(out, p.bin);
        i += 1;
        assert(out@ =~= old(out)@ + words_bytes(ws.take(4 * i)));
    }
    assert(ws.take(4 * i) =~= ws);
}

/// Appends the displacement table of `ds` to `out`.
pub fn write_disps(out: &mut Vec<u8>, ds: &[Disp])
    ensures
        final(out)@ == old(out)@ + disps_bytes(ds@),
{
    let ghost ws = disp_words(ds@);
    let mut i: usize = 0;
    while i < ds.len()
        invariant
            i <= ds@.len(),
            ws == disp_words(ds@),
            out@ == old(out)@ + words_bytes(ws.take(2 * i)),
        decreases ds@.len() - i,
    {
        let d = ds[i];
        proof {
            let base = ws.take(2 * i);
            lemma_words_push(base, d.0);
            lemma_words_push(base.push(d.0), d.1);
            assert(ws.take(2 * (i + 1)) =~= base.push(d.0).push(d.1));
        }
        push_u32(out, d.0);
        push_u32(out, d.1);
        i += 1;
        assert(out@ =~= old(out)@ + words_bytes(ws.take(2 * i)));
    }
    assert(ws.take(2 * i) =~= ws);
}

/// Appends the slot table of `ss` to `out`.
pub fn write_spans(out: &mut Vec<u8>, ss: &[Span])
    ensures
        final(out)@ == old(out)@ + spans_bytes(ss@),
{
    let ghost ws = span_words(ss@);
    let mut i: usize = 0;
    while i < ss.len()
        invariant
            i <= ss@.len(),
            ws == span_words(ss@),
            out@ == old(out)@ + words_bytes(ws.take(2 * i)),
        decreases ss@.len() - i,
    {
        let span = ss[i];
        proof {
            let base = ws.take(2 * i);
            lemma_words_push(base, span.start);
            lemma_words_push(base.push(span.start), span.end);
            assert(ws.take(2 * (i + 1)) =~= base.push(span.start).push(span.end));
        }
        push_u32(out, span.start);
        push_u32(out, span.end);
        i += 1;
        assert(out@ =~= old(out)@ + words_bytes(ws.take(2 * i)));
    }
    assert(ws.take(2 * i) =~= ws);
}

/// Reads the `i`-th record of the record array `b`.
pub fn read_provider(b: &[u8], i: usize) -> (p: Provider)
    requires
        16 * (i + 1) <= b@.len(),
    ensures
        p == provider_at(b@, i as int),
{
    let len = b.len();
    let at = 16 * i;
    Provider {
        repo: read_u32(b, at),
        package_name: read_u32(b, at + 4),
        dir: read_u32(b, at + 8),
        bin: read_u32(b, at + 12),
    }
}

/// Reads the `i`-th displacement of the table `b`.
pub fn read_disp(b: &[u8], i: usize) -> (d: Disp)
    requires
        8 * (i + 1) <= b@.len(),
    ensures
        d == disp_at(b@, i as int),
{
    let len = b.len();
    let at = 8 * i;
    Disp(read_u32(b, at), read_u32(b, at + 4))
}

/// Reads the `i`-th span of the slot table `b`.
pub fn read_span(b: &[u8], i: usize) -> (s: Span)
    requires
        8 * (i + 1) <= b@.len(),
    ensures
        s == span_at(b@, i as int),
{
    let len = b.len();
    let at = 8 * i;
    Span { start: read_u32(b, at), end: read_u32(b, at + 4) }
}

/// What an index file holds: the key of the perfect hash, the records, the
/// displacement of every bucket, the span of every slot, and the string
/// arena.
pub struct Contents {
    pub key: HashKey,
    pub providers: Seq<Provider>,
    pub disps: Seq<Disp>,
    pub table: Seq<Span>,
    pub strings: Seq<u8>,
}

/// The bytes of the header `h`: the version tag, `providers_len`,
/// `strings_len`, `hash_key`, `disps_len`, `table_len`.
pub open spec fn header_bytes(h: Header) -> Seq<u8> {
    h.version@ + le32(h.providers_len) + le32(h.strings_len) + le64(h.hash_key) + le32(h.disps_len)
        + le32(h.table_len)
}

/// The header that the first `HEADER_LEN` bytes of `b` hold behind the
/// version tag.
pub open spec fn header_of(b: Seq<u8>) -> Header {
    Header {
        version: HEADER_VERSION,
        providers_len: from_le32(b.subrange(16, 20)),
        strings_len: from_le32(b.subrange(20, 24)),
        hash_key: from_le64(b.subrange(24, 32)),
        disps_len: from_le32(b.subrange(32, 36)),
        table_len: from_le32(b.subrange(36, 40)),
    }
}

/// Whether the sections that `h` declares are whole numbers of entries and
/// lie within a file of `len` bytes.
pub open spec fn sections_fit(h: Header, len: nat) -> bool {
    &&& h.providers_len % 16 == 0
    &&& h.disps_len % 8 == 0
    &&& h.table_len % 8 == 0
    &&& HEADER_LEN + h.providers_len + h.disps_len + h.table_len + h.strings_len <= len
}

/// The sections of the file `b`, cut as `h` declares them.
pub open spec fn contents_of(h: Header, b: Seq<u8>) -> Contents {
    let records = HEADER_LEN as int;
    let disps = records + h.providers_len;
    let table = disps + h.disps_len;
    let strings = table + h.table_len;
    Contents {
        key: h.hash_key,
        providers: read_providers(b.subrange(records, disps)),
        disps: read_disps(b.subrange(disps, table)),
        table: read_spans(b.subrange(table, strings)),
        strings: b.subrange(strings, strings + h.strings_len),
    }
}

/// What a reader makes of the bytes `b`: `CorruptIndex` where they are
/// shorter than a header, `UnknownVersion` where the tag is not
/// `HEADER_VERSION`, `CorruptIndex` where the declared sections do not fit,
/// and else the contents of the sections.
pub open spec fn parse_file(b: Seq<u8>) -> Result<Contents, Error> {
    if b.len() < HEADER_LEN {
        Err(Error::CorruptIndex)
    } else if b.subrange(0, 16) != HEADER_VERSION@ {
        Err(Error::UnknownVersion)
    } else if !sections_fit(header_of(b), b.len()) {
        Err(Error::CorruptIndex)
    } else {
        Ok(contents_of(header_of(b), b))
    }
}

/// Whether every section of `c` is short enough for the 32-bit length
/// that the header gives it.
pub open spec fn fits_format(c: Contents) -> bool {
    &&& 16 * c.providers.len() <= u32::MAX
    &&& 8 * c.disps.len() <= u32::MAX
    &&& 8 * c.table.len() <= u32::MAX
    &&& c.strings.len() <= u32::MAX
}

/// The header of the file that holds `c`.
pub open spec fn header_for(c: Contents) -> Header {
    Header {
        version: HEADER_VERSION,
        providers_len: (16 * c.providers.len()) as u32,
        strings_len: c.strings.len() as u32,
        hash_key: c.key,
        disps_len: (8 * c.disps.len()) as u32,
        table_len: (8 * c.table.len()) as u32,
    }
}

/// The file that holds `c`: header, records, displacements, slot table,
/// arena.
pub open spec fn file_bytes(c: Contents) -> Seq<u8> {
    header_bytes(header_for(c)) + providers_bytes(c.providers) + disps_bytes(c.disps) + spans_bytes(
        c.table,
    ) + c.strings
}

/// Cutting a sequence of five parts at the places where they meet gives
/// back the parts.
proof fn lemma_five_parts(a: Seq<u8>, b: Seq<u8>, c: Seq<u8>, d: Seq<u8>, e: Seq<u8>)
    ensures
        ({
            let all = a + b + c + d + e;
            let end_a = a.len() as int;
            let end_b = end_a + b.len();
            let end_c = end_b + c.len();
            let end_d = end_c + d.len();
            &&& all.len() == end_d + e.len()
            &&& all.subrange(0, end_a) == a
            &&& all.subrange(end_a, end_b) == b
            &&& all.subrange(end_b, end_c) == c
            &&& all.subrange(end_c, end_d) == d
            &&& all.subrange(end_d, end_d + e.len()) == e
        }),
{
    let all = a + b + c + d + e;
    let end_a = a.len() as int;
    let end_b = end_a + b.len();
    let end_c = end_b + c.len();
    let end_d = end_c + d.len();
    assert(all.subrange(0, end_a) =~= a);
    assert(all.subrange(end_a, end_b) =~= b);
    assert(all.subrange(end_b, end_c) =~= c);
    assert(all.subrange(end_c, end_d) =~= d);
    assert(all.subrange(end_d, end_d + e.len()) =~= e);
}

/// A header with the expected version tag is read back from its bytes,
/// whatever follows them.
proof fn lemma_header_round_trip(h: Header, b: Seq<u8>)
    requires
        h.version == HEADER_VERSION,
        b.len() >= HEADER_LEN,
        b.subrange(0, HEADER_LEN as int) == header_bytes(h),
    ensures
        b.subrange(0, 16) == HEADER_VERSION@,
        header_of(b) == h,
{
    let hb = header_bytes(h);
    lemma_le32_round_trip(h.providers_len);
    lemma_le32_round_trip(h.strings_len);
    lemma_le32_round_trip(h.disps_len);
    lemma_le32_round_trip(h.table_len);
    lemma_le64_round_trip(h.hash_key);
    assert(HEADER_VERSION@.len() == 16);
    assert(hb.len() == 40);
    assert forall|i: int| 0 <= i < 40 implies b[i] == hb[i] by {
        assert(b.subrange(0, HEADER_LEN as int)[i] == b[i]);
    }
    assert(b.subrange(0, 16) =~= HEADER_VERSION@);
    assert(b.subrange(16, 20) =~= le32(h.providers_len));
    assert(b.subrange(20, 24) =~= le32(h.strings_len));
    assert(b.subrange(24, 32) =~= le64(h.hash_key));
    assert(b.subrange(32, 36) =~= le32(h.disps_len));
    assert(b.subrange(36, 40) =~= le32(h.table_len));
}

/// A reader gets back the contents that were written, and the file is as
/// long as its header and sections together.
pub proof fn lemma_parse_file_bytes(c: Contents)
    requires
        fits_format(c),
    ensures
        parse_file(file_bytes(c)) == Ok::<Contents, Error>(c),
        file_bytes(c).len() == HEADER_LEN + 16 * c.providers.len() + 8 * c.disps.len() + 8
            * c.table.len() + c.strings.len(),
{
    let h = header_for(c);
    let b = file_bytes(c);
    lemma_providers_round_trip(c.providers);
    lemma_disps_round_trip(c.disps);
    lemma_spans_round_trip(c.table);
    assert(header_bytes(h).len() == 40) by {
        lemma_le32_round_trip(h.providers_len);
        lemma_le32_round_trip(h.strings_len);
        lemma_le32_round_trip(h.disps_len);
        lemma_le32_round_trip(h.table_len);
        lemma_le64_round_trip(h.hash_key);
        assert(HEADER_VERSION@.len() == 16);
    }
    lemma_five_parts(
        header_bytes(h),
        providers_bytes(c.providers),
        disps_bytes(c.disps),
        spans_bytes(c.table),
        c.strings,
    );
    lemma_header_round_trip(h, b);
    assert(sections_fit(h, b.len()));
    assert(contents_of(h, b) == c);
}

/// A file that is long enough for a header and starts with the version tag
/// is of an unknown version as soon as one byte of the tag is changed.
pub proof fn lemma_header_gate(b: Seq<u8>, i: int, byte: u8)
    requires
        b.len() >= HEADER_LEN,
        b.subrange(0, 16) == HEADER_VERSION@,
        0 <= i < 16,
        byte != b[i],
    ensures
        parse_file(b.update(i, byte)) == Err::<Contents, Error>(Error::UnknownVersion),
{
    let changed = b.update(i, byte);
    assert(changed.subrange(0, 16)[i] == byte);
    assert(b.subrange(0, 16)[i] == b[i]);
}

/// Whether `b` is a file that a reader accepts and that ends where its
/// last section ends.
pub open spec fn is_whole(b: Seq<u8>) -> bool {
    let h = header_of(b);
    &&& parse_file(b) is Ok
    &&& b.len() == HEADER_LEN + h.providers_len + h.disps_len + h.table_len + h.strings_len
}

/// The file that holds contents that fit the format is whole.
pub proof fn lemma_file_bytes_whole(c: Contents)
    requires
        fits_format(c),
    ensures
        is_whole(file_bytes(c)),
{
    let h = header_for(c);
    let b = file_bytes(c);
    lemma_parse_file_bytes(c);
    lemma_providers_round_trip(c.providers);
    lemma_disps_round_trip(c.disps);
    lemma_spans_round_trip(c.table);
    assert(header_bytes(h).len() == 40) by {
        lemma_le32_round_trip(h.providers_len);
        lemma_le32_round_trip(h.strings_len);
        lemma_le32_round_trip(h.disps_len);
        lemma_le32_round_trip(h.table_len);
        lemma_le64_round_trip(h.hash_key);
        assert(HEADER_VERSION@.len() == 16);
    }
    lemma_five_parts(
        header_bytes(h),
        providers_bytes(c.providers),
        disps_bytes(c.disps),
        spans_bytes(c.table),
        c.strings,
    );
    lemma_header_round_trip(h, b);
}

/// A whole file from which any number of bytes is cut off at the end is
/// corrupt.
pub proof fn lemma_truncation_is_corrupt(b: Seq<u8>, len: int)
    requires
        is_whole(b),
        0 <= len < b.len(),
    ensures
        parse_file(b.take(len)) == Err::<Contents, Error>(Error::CorruptIndex),
{
    let cut = b.take(len);
    if len >= HEADER_LEN {
        assert(cut.subrange(0, 16) =~= b.subrange(0, 16));
        assert(cut.subrange(16, 20) =~= b.subrange(16, 20));
        assert(cut.subrange(20, 24) =~= b.subrange(20, 24));
        assert(cut.subrange(24, 32) =~= b.subrange(24, 32));
        assert(cut.subrange(32, 36) =~= b.subrange(32, 36));
        assert(cut.subrange(36, 40) =~= b.subrange(36, 40));
        assert(header_of(cut) == header_of(b));
    }
}

} // verus!
