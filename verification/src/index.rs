//! Building an index file from the file listing of a package manager.
//!
//! The listing holds one file per line, as four fields with a zero byte
//! between them: repository, package, version, path. A line counts where
//! its path names a file in a directory that ends in `/bin/`.

use crate::bytes::{
    append, ends_with, find_byte, first_index, get_text, last_index, lemma_first_index,
    lemma_last_index, push_u32, push_u64, rfind_byte, same_bytes, spec_ends_with, text_at, NEWLINE,
};
use crate::intern::{added, arena_of, has_room, offset_in, Interner};
use crate::layout::{
    file_bytes, header_bytes, header_for, write_disps, write_providers, write_spans, Contents,
};
use crate::phf::{
    generate_hash, lemma_solution_is_perfect, solve, spec_hash, spec_hashes, try_generate_hash,
    Disp, HashKey, HashState, Hashes,
};
use crate::sort::{lemma_sorted_order, sorted_order, stable_order, texts};
use crate::{Error, Fields, Names, Provider, Span, HEADER_VERSION};
use vstd::prelude::*;
use vstd::slice::slice_subrange;

verus! {

/// The zero byte, which stands between the fields of a line.
pub const FIELD_END: u8 = 0;

/// The slash, which stands between the parts of a path.
pub const SLASH: u8 = 0x2f;

/// What the directory of an executable ends in: `/bin/`.
pub const BIN_DIR: [u8; 5] = [0x2f, 0x62, 0x69, 0x6e, 0x2f];

/// The lines of `list`, each without its newline. What follows the last
/// newline is a line too, unless it is empty.
pub open spec fn lines_of(list: Seq<u8>) -> Seq<Seq<u8>>
    decreases list.len(),
{
    if list.len() == 0 {
        Seq::empty()
    } else {
        let end = first_index(list, NEWLINE);
        if 0 <= end < list.len() {
            seq![list.subrange(0, end)] + lines_of(list.skip(end + 1))
        } else {
            seq![list]
        }
    }
}

/// The part of `s` behind its last `sep`, or all of `s` if it has none.
pub open spec fn last_field(s: Seq<u8>, sep: u8) -> Seq<u8> {
    s.skip(last_index(s, sep) + 1)
}

/// The part of `s` before its last `sep`, if it has one.
pub open spec fn before_last(s: Seq<u8>, sep: u8) -> Option<Seq<u8>> {
    if last_index(s, sep) < 0 {
        None
    } else {
        Some(s.take(last_index(s, sep)))
    }
}

/// The directory, with its closing slash, and the file name of `path`, if
/// `path` names a file in a directory that ends in `/bin/`.
pub open spec fn split_path(path: Seq<u8>) -> Option<(Seq<u8>, Seq<u8>)> {
    let slash = last_index(path, SLASH);
    if slash < 0 || slash == path.len() - 1 {
        None
    } else if spec_ends_with(path.take(slash + 1), BIN_DIR@) {
        Some((path.take(slash + 1), path.skip(slash + 1)))
    } else {
        None
    }
}

/// What one line says. The path is its last field. Where the path names no
/// executable, the line says nothing: `Ok(None)`. Else the three fields
/// before the path are the version, the package and the repository, read
/// from the right, and the line is malformed where one of them is missing.
pub open spec fn spec_parse_line(line: Seq<u8>) -> Result<Option<Names>, Error> {
    match split_path(last_field(line, FIELD_END)) {
        None => Ok(None),
        Some((dir, bin)) => match before_last(line, FIELD_END) {
            None => Err(Error::MalformedInput),
            Some(upto_version) => match before_last(upto_version, FIELD_END) {
                None => Err(Error::MalformedInput),
                Some(upto_package) => match before_last(upto_package, FIELD_END) {
                    None => Err(Error::MalformedInput),
                    Some(upto_repo) => Ok(
                        Some(
                            Names {
                                repo: last_field(upto_repo, FIELD_END),
                                package: last_field(upto_package, FIELD_END),
                                dir,
                                bin,
                            },
                        ),
                    ),
                },
            },
        },
    }
}

/// Cuts `s` at its last `sep`: what stands before it, if there is one, and
/// what stands behind it.
fn cut_last<'a>(s: &'a [u8], sep: u8) -> (r: (Option<&'a [u8]>, &'a [u8]))
    ensures
        r.1@ == last_field(s@, sep),
        match before_last(s@, sep) {
            Some(before) => r.0 matches Some(found) && found@ == before,
            None => r.0 is None,
        },
{
    proof {
        lemma_last_index(s@, sep);
    }
    let len = s.len();
    match rfind_byte(s, sep) {
        Some(at) => {
            let before = slice_subrange(s, 0, at);
            let after = slice_subrange(s, at + 1, len);
            assert(before@ =~= s@.take(at as int));
            assert(after@ =~= s@.skip(at + 1));
            (Some(before), after)
        },
        None => {
            assert(s@.skip(0) =~= s@);
            (None, s)
        },
    }
}

/// Reads one line of the listing, given without its newline.
pub fn parse_line<'a>(line: &'a [u8]) -> (r: Result<Option<Fields<'a>>, Error>)
    ensures
        match spec_parse_line(line@) {
            Ok(Some(names)) => r matches Ok(Some(fields)) && fields@ == names,
            Ok(None) => r matches Ok(None),
            Err(e) => r matches Err(f) && f == e,
        },
{
    let (upto_version, path) = cut_last(line, FIELD_END);
    proof {
        lemma_last_index(path@, SLASH);
    }
    let path_len = path.len();
    let slash = match rfind_byte(path, SLASH) {
        Some(at) => at,
        None => {
            return Ok(None);
        },
    };
    if slash == path.len() - 1 {
        return Ok(None);
    }
    let dir = slice_subrange(path, 0, slash + 1);
    let bin = slice_subrange(path, slash + 1, path.len());
    assert(dir@ =~= path@.take(slash + 1));
    assert(bin@ =~= path@.skip(slash + 1));
    let suffix = BIN_DIR;
    if !ends_with(dir, suffix.as_slice()) {
        return Ok(None);
    }
    let upto_version = match upto_version {
        Some(s) => s,
        None => {
            return Err(Error::MalformedInput);
        },
    };
    let (upto_package, version) = cut_last(upto_version, FIELD_END);
    let upto_package = match upto_package {
        Some(s) => s,
        None => {
            return Err(Error::MalformedInput);
        },
    };
    let (upto_repo, package) = cut_last(upto_package, FIELD_END);
    let upto_repo = match upto_repo {
        Some(s) => s,
        None => {
            return Err(Error::MalformedInput);
        },
    };
    let (rest, repo) = cut_last(upto_repo, FIELD_END);
    Ok(Some(Fields { repo, package, dir, bin }))
}

/// The strings and the records that the lines read so far have given.
pub struct Gathered {
    pub strings: Seq<Seq<u8>>,
    pub providers: Seq<Provider>,
}

/// The strings after `s` has been added, and the offset of `s`; `None`
/// where the arena has no room for `s`.
pub open spec fn intern(strings: Seq<Seq<u8>>, s: Seq<u8>) -> Option<(Seq<Seq<u8>>, u32)> {
    if has_room(strings, s) {
        Some((added(strings, s), offset_in(added(strings, s), s) as u32))
    } else {
        None
    }
}

/// What has been gathered after one more record: its repository, package,
/// directory and file name are added to the arena, in this order, and the
/// record of their offsets is put behind the others.
pub open spec fn record(g: Gathered, n: Names) -> Result<Gathered, Error> {
    match intern(g.strings, n.repo) {
        None => Err(Error::OffsetOverflow),
        Some((s1, repo)) => match intern(s1, n.package) {
            None => Err(Error::OffsetOverflow),
            Some((s2, package_name)) => match intern(s2, n.dir) {
                None => Err(Error::OffsetOverflow),
                Some((s3, dir)) => match intern(s3, n.bin) {
                    None => Err(Error::OffsetOverflow),
                    Some((s4, bin)) => Ok(
                        Gathered {
                            strings: s4,
                            providers: g.providers.push(Provider { repo, package_name, dir, bin }),
                        },
                    ),
                },
            },
        },
    }
}

/// What has been gathered after one more line.
pub open spec fn take_line(g: Gathered, line: Seq<u8>) -> Result<Gathered, Error> {
    match spec_parse_line(line) {
        Ok(None) => Ok(g),
        Ok(Some(names)) => record(g, names),
        Err(e) => Err(e),
    }
}

/// What the lines give, taken in their order; the error of the first line
/// that has one.
pub open spec fn gather(lines: Seq<Seq<u8>>) -> Result<Gathered, Error>
    decreases lines.len(),
{
    if lines.len() == 0 {
        Ok(Gathered { strings: Seq::empty(), providers: Seq::empty() })
    } else {
        match gather(lines.drop_last()) {
            Err(e) => Err(e),
            Ok(g) => take_line(g, lines.last()),
        }
    }
}

/// Adds the strings of one record to the arena and the record to
/// `providers`.
fn put_record(strings: &mut Interner, providers: &mut Vec<Provider>, fields: &Fields) -> (r: Result<
    (),
    Error,
>)
    requires
        old(strings).wf(),
    ensures
        final(strings).wf(),
        match record(Gathered { strings: old(strings)@, providers: old(providers)@ }, fields@) {
            Ok(g) => r is Ok && final(strings)@ == g.strings && final(providers)@ == g.providers,
            Err(e) => r matches Err(f) && f == e,
        },
{
    let repo = match strings.add(fields.repo) {
        Ok(offset) => offset,
        Err(e) => {
            return Err(e);
        },
    };
    let package_name = match strings.add(fields.package) {
        Ok(offset) => offset,
        Err(e) => {
            return Err(e);
        },
    };
    let dir = match strings.add(fields.dir) {
        Ok(offset) => offset,
        Err(e) => {
            return Err(e);
        },
    };
    let bin = match strings.add(fields.bin) {
        Ok(offset) => offset,
        Err(e) => {
            return Err(e);
        },
    };
    providers.push(Provider { repo, package_name, dir, bin });
    Ok(())
}

/// Cuts the line that starts at `pos` out of the listing, and says where
/// the next one starts.
fn next_line<'a>(list: &'a [u8], pos: usize) -> (r: (&'a [u8], usize))
    requires
        pos < list@.len(),
    ensures
        pos < r.1 <= list@.len(),
        lines_of(list@.skip(pos as int)) == seq![r.0@] + lines_of(list@.skip(r.1 as int)),
{
    let len = list.len();
    let rest = slice_subrange(list, pos, len);
    assert(rest@ =~= list@.skip(pos as int));
    proof {
        lemma_first_index(rest@, NEWLINE);
    }
    match find_byte(rest, NEWLINE) {
        Some(end) => {
            let line = slice_subrange(rest, 0, end);
            assert(rest@.skip(end + 1) =~= list@.skip(pos + end + 1));
            (line, pos + end + 1)
        },
        None => {
            assert(list@.skip(len as int).len() == 0);
            assert(seq![rest@] + lines_of(list@.skip(len as int)) =~= seq![rest@]);
            (rest, len)
        },
    }
}

/// What the lines give when one more line follows them.
proof fn lemma_gather_push(lines: Seq<Seq<u8>>, line: Seq<u8>)
    ensures
        gather(lines.push(line)) == match gather(lines) {
            Err(e) => Err(e),
            Ok(g) => take_line(g, line),
        },
{
    assert(lines.push(line).drop_last() =~= lines);
}

/// Reads the whole listing: the arena and the records that its lines give.
fn gather_all(list: &[u8]) -> (r: Result<(Interner, Vec<Provider>), Error>)
    ensures
        match gather(lines_of(list@)) {
            Ok(g) => r matches Ok(found) && found.0.wf() && found.0@ == g.strings && found.1@
                == g.providers,
            Err(e) => r matches Err(f) && f == e,
        },
{
    let mut strings = Interner::new();
    let mut providers: Vec<Provider> = Vec::new();
    let len = list.len();
    let mut pos: usize = 0;
    let ghost mut done: Seq<Seq<u8>> = Seq::empty();
    assert(list@.skip(0) =~= list@);
    assert(done + lines_of(list@) =~= lines_of(list@));
    while pos < len
        invariant
            pos <= len,
            len == list@.len(),
            strings.wf(),
            lines_of(list@) == done + lines_of(list@.skip(pos as int)),
            gather(done) == Ok::<Gathered, Error>(
                Gathered { strings: strings@, providers: providers@ },
            ),
        decreases len - pos,
    {
        let (line, next) = next_line(list, pos);
        let ghost rest = lines_of(list@.skip(next as int));
        proof {
            lemma_gather_push(done, line@);
            assert(done + (seq![line@] + rest) =~= done.push(line@) + rest);
        }
        let parsed = parse_line(line);
        let taken = match parsed {
            Err(e) => Err(e),
            Ok(None) => Ok(()),
            Ok(Some(fields)) => put_record(&mut strings, &mut providers, &fields),
        };
        match taken {
            Err(e) => {
                proof {
                    lemma_gather_fails(done.push(line@), rest);
                }
                return Err(e);
            },
            Ok(()) => {},
        }
        proof {
            done = done.push(line@);
        }
        pos = next;
    }
    assert(lines_of(list@.skip(pos as int)) =~= Seq::<Seq<u8>>::empty());
    assert(done + Seq::<Seq<u8>>::empty() =~= done);
    Ok((strings, providers))
}

/// The error of a line stays the error of the listing, whatever lines
/// follow.
proof fn lemma_gather_fails(lines: Seq<Seq<u8>>, more: Seq<Seq<u8>>)
    requires
        gather(lines) is Err,
    ensures
        gather(lines + more) == gather(lines),
    decreases more.len(),
{
    if more.len() == 0 {
        assert(lines + more =~= lines);
    } else {
        lemma_gather_fails(lines, more.drop_last());
        assert((lines + more).drop_last() =~= lines + more.drop_last());
    }
}

/// The name of the executable of every record of `ps`, read from `arena`.
pub open spec fn bin_texts(arena: Seq<u8>, ps: Seq<Provider>) -> Seq<Seq<u8>> {
    Seq::new(ps.len(), |i: int| text_at(arena, ps[i].bin as int))
}

/// The records `ps`, sorted by the name of their executable; records of
/// one name stay in their order.
pub open spec fn sorted_by_bin(arena: Seq<u8>, ps: Seq<Provider>) -> Seq<Provider> {
    let order = sorted_order(bin_texts(arena, ps));
    Seq::new(ps.len(), |k: int| ps[order[k] as int])
}

/// The runs of equal names among the first `upto` of `bins`: for each run
/// the span of its positions, in the order of the runs.
pub open spec fn group_spans(bins: Seq<Seq<u8>>, upto: nat) -> Seq<Span>
    decreases upto,
{
    if upto == 0 {
        Seq::empty()
    } else {
        let before = group_spans(bins, (upto - 1) as nat);
        if upto >= 2 && bins[upto - 2] == bins[upto - 1] {
            before.drop_last().push(Span { start: before.last().start, end: upto as u32 })
        } else {
            before.push(Span { start: (upto - 1) as u32, end: upto as u32 })
        }
    }
}

/// The name that each run of `spans` shares.
pub open spec fn group_keys(bins: Seq<Seq<u8>>, spans: Seq<Span>) -> Seq<Seq<u8>> {
    Seq::new(spans.len(), |g: int| bins[spans[g].start as int])
}

/// The runs are not empty, lie one behind the other and end where the
/// names that were read end.
pub proof fn lemma_group_spans(bins: Seq<Seq<u8>>, upto: nat)
    requires
        upto <= bins.len(),
        upto <= u32::MAX,
    ensures
        group_spans(bins, upto).len() <= upto,
        upto > 0 ==> group_spans(bins, upto).len() > 0 && group_spans(bins, upto).last().end
            == upto,
        forall|g: int|
            0 <= g < group_spans(bins, upto).len() ==> (#[trigger] group_spans(bins, upto)[g]).start
                < group_spans(bins, upto)[g].end <= upto,
    decreases upto,
{
    if upto > 0 {
        lemma_group_spans(bins, (upto - 1) as nat);
    }
}

/// The sorted records, the runs of equal names among them, and the arena.
pub struct Prepared {
    pub arena: Seq<u8>,
    pub providers: Seq<Provider>,
    pub spans: Seq<Span>,
}

/// What is known of an index before its perfect hash: the arena and the
/// records that the lines give, the records sorted by the name of their
/// executable, and the runs of equal names. The error is that of the first
/// line that has one, else `OffsetOverflow` where the record array or the
/// arena is too long for its 32-bit length.
pub open spec fn prepare(list: Seq<u8>) -> Result<Prepared, Error> {
    match gather(lines_of(list)) {
        Err(e) => Err(e),
        Ok(g) => {
            let arena = arena_of(g.strings);
            if 16 * g.providers.len() > u32::MAX || arena.len() > u32::MAX {
                Err(Error::OffsetOverflow)
            } else {
                let sorted = sorted_by_bin(arena, g.providers);
                Ok(
                    Prepared {
                        arena,
                        providers: sorted,
                        spans: group_spans(bin_texts(arena, sorted), sorted.len()),
                    },
                )
            }
        },
    }
}

/// The distinct names of executables, in ascending order.
pub open spec fn keys_of(p: Prepared) -> Seq<Seq<u8>> {
    group_keys(bin_texts(p.arena, p.providers), p.spans)
}

/// The words of every key under the hash key `key`.
pub open spec fn key_hashes(keys: Seq<Seq<u8>>, key: HashKey) -> Seq<Hashes> {
    Seq::new(keys.len(), |i: int| spec_hash(keys[i], key))
}

/// What the index holds, given the perfect hash of its keys: on each slot
/// stands the run of the key that the hash puts there.
pub open spec fn contents(p: Prepared, key: HashKey, disps: Seq<Disp>, map: Seq<usize>) -> Contents {
    Contents {
        key,
        providers: p.providers,
        disps,
        table: Seq::new(map.len(), |s: int| p.spans[map[s] as int]),
        strings: p.arena,
    }
}

/// The index file for the listing `list`, with the perfect hash that the
/// hash key `key` gives; `PhfFailure` where `key` gives none.
pub open spec fn spec_index(list: Seq<u8>, key: HashKey) -> Result<Seq<u8>, Error> {
    match prepare(list) {
        Err(e) => Err(e),
        Ok(p) => match solve(key_hashes(keys_of(p), key)) {
            None => Err(Error::PhfFailure),
            Some((disps, map)) => Ok(file_bytes(contents(p, key, disps, map))),
        },
    }
}

/// Reads the name of the executable of every record.
fn read_bins<'a>(arena: &'a [u8], providers: &Vec<Provider>) -> (bins: Vec<&'a [u8]>)
    ensures
        texts(bins@) == bin_texts(arena@, providers@),
{
    let mut bins: Vec<&'a [u8]> = Vec::new();
    let mut i: usize = 0;
    while i < providers.len()
        invariant
            i <= providers@.len(),
            bins@.len() == i,
            forall|k: int| 0 <= k < i ==> (#[trigger] bins@[k])@ == text_at(arena@, providers@[k].bin as int),
        decreases providers@.len() - i,
    {
        bins.push(get_text(arena, providers[i].bin as usize));
        i += 1;
    }
    assert(texts(bins@) =~= bin_texts(arena@, providers@));
    bins
}

/// Sorts the records by the name of their executable.
fn sort_by_bin(arena: &[u8], providers: &Vec<Provider>) -> (sorted: Vec<Provider>)
    ensures
        sorted@ == sorted_by_bin(arena@, providers@),
{
    let bins = read_bins(arena, providers);
    let order = stable_order(&bins);
    let count = bins.len();
    proof {
        lemma_sorted_order(texts(bins@));
    }
    let mut sorted: Vec<Provider> = Vec::new();
    let mut k: usize = 0;
    while k < order.len()
        invariant
            k <= order@.len(),
            order@.len() == providers@.len(),
            forall|j: int| 0 <= j < order@.len() ==> #[trigger] order@[j] < providers@.len(),
            sorted@.len() == k,
            forall|j: int| 0 <= j < k ==> #[trigger] sorted@[j] == providers@[order@[j] as int],
        decreases order@.len() - k,
    {
        sorted.push(providers[order[k]]);
        k += 1;
    }
    assert(sorted@ =~= sorted_by_bin(arena@, providers@));
    sorted
}

/// Finds the runs of equal names among the sorted records.
fn find_spans(arena: &[u8], sorted: &Vec<Provider>) -> (spans: Vec<Span>)
    requires
        sorted@.len() <= u32::MAX,
    ensures
        spans@ == group_spans(bin_texts(arena@, sorted@), sorted@.len()),
{
    let ghost bins = bin_texts(arena@, sorted@);
    let mut spans: Vec<Span> = Vec::new();
    let mut i: usize = 0;
    while i < sorted.len()
        invariant
            i <= sorted@.len(),
            sorted@.len() <= u32::MAX,
            bins == bin_texts(arena@, sorted@),
            spans@ == group_spans(bins, i as nat),
        decreases sorted@.len() - i,
    {
        proof {
            lemma_group_spans(bins, i as nat);
        }
        let same = i >= 1 && same_bytes(
            get_text(arena, sorted[i - 1].bin as usize),
            get_text(arena, sorted[i].bin as usize),
        );
        if same {
            let last = spans.len() - 1;
            let start = spans[last].start;
            spans[last] = Span { start, end: (i + 1) as u32 };
            assert(spans@ =~= group_spans(bins, (i + 1) as nat));
        } else {
            spans.push(Span { start: i as u32, end: (i + 1) as u32 });
        }
        i += 1;
    }
    spans
}

/// Reads the listing and makes ready what an index holds besides its
/// perfect hash: the arena, the sorted records, and the runs of equal
/// names.
fn prepare_all(list: &[u8]) -> (r: Result<(Interner, Vec<Provider>, Vec<Span>), Error>)
    ensures
        match prepare(list@) {
            Ok(p) => r matches Ok(found) && found.0.wf() && arena_of(found.0@) == p.arena
                && found.1@ == p.providers && found.2@ == p.spans,
            Err(e) => r matches Err(f) && f == e,
        },
{
    let (strings, providers) = match gather_all(list) {
        Ok(found) => found,
        Err(e) => {
            return Err(e);
        },
    };
    if providers.len() > 0x0fff_ffff || strings.buf().len() > 0xffff_ffff {
        return Err(Error::OffsetOverflow);
    }
    let sorted = sort_by_bin(strings.buf(), &providers);
    let spans = find_spans(strings.buf(), &sorted);
    Ok((strings, sorted, spans))
}

/// Reads the name that each run shares.
fn read_keys<'a>(arena: &'a [u8], sorted: &Vec<Provider>, spans: &Vec<Span>) -> (keys: Vec<&'a [u8]>)
    requires
        sorted@.len() <= u32::MAX,
        spans@ == group_spans(bin_texts(arena@, sorted@), sorted@.len()),
    ensures
        texts(keys@) == group_keys(bin_texts(arena@, sorted@), spans@),
{
    proof {
        lemma_group_spans(bin_texts(arena@, sorted@), sorted@.len());
    }
    let mut keys: Vec<&'a [u8]> = Vec::new();
    let mut g: usize = 0;
    while g < spans.len()
        invariant
            g <= spans@.len(),
            keys@.len() == g,
            forall|h: int|
                0 <= h < spans@.len() ==> (#[trigger] spans@[h]).start < spans@[h].end
                    <= sorted@.len(),
            forall|h: int|
                0 <= h < g ==> (#[trigger] keys@[h])@ == text_at(
                    arena@,
                    sorted@[spans@[h].start as int].bin as int,
                ),
        decreases spans@.len() - g,
    {
        keys.push(get_text(arena, sorted[spans[g].start as usize].bin as usize));
        g += 1;
    }
    assert(texts(keys@) =~= group_keys(bin_texts(arena@, sorted@), spans@));
    keys
}

/// Writes the index file: header, records, displacements, slot table, and
/// arena.
fn write_file(
    arena: &[u8],
    sorted: &Vec<Provider>,
    spans: &Vec<Span>,
    key: HashKey,
    disps: &Vec<Disp>,
    map: &Vec<usize>,
) -> (out: Vec<u8>)
    requires
        16 * sorted@.len() <= u32::MAX,
        arena@.len() <= u32::MAX,
        8 * disps@.len() <= u32::MAX,
        8 * map@.len() <= u32::MAX,
        forall|s: int| 0 <= s < map@.len() ==> #[trigger] map@[s] < spans@.len(),
    ensures
        out@ == file_bytes(
            contents(
                Prepared { arena: arena@, providers: sorted@, spans: spans@ },
                key,
                disps@,
                map@,
            ),
        ),
{
    let ghost p = Prepared { arena: arena@, providers: sorted@, spans: spans@ };
    let ghost c = contents(p, key, disps@, map@);
    let mut table: Vec<Span> = Vec::new();
    let mut s: usize = 0;
    while s < map.len()
        invariant
            s <= map@.len(),
            table@.len() == s,
            forall|t: int| 0 <= t < map@.len() ==> #[trigger] map@[t] < spans@.len(),
            forall|t: int| 0 <= t < s ==> #[trigger] table@[t] == spans@[map@[t] as int],
        decreases map@.len() - s,
    {
        table.push(spans[map[s]]);
        s += 1;
    }
    assert(table@ =~= c.table);
    let mut out: Vec<u8> = Vec::new();
    let version = HEADER_VERSION;
    let mut i: usize = 0;
    while i < 16
        invariant
            i <= 16,
            version == HEADER_VERSION,
            out@ == HEADER_VERSION@.take(i as int),
        decreases 16 - i,
    {
        out.push(version[i]);
        i += 1;
        assert(out@ =~= HEADER_VERSION@.take(i as int));
    }
    assert(HEADER_VERSION@.take(16) =~= HEADER_VERSION@);
    push_u32(&mut out, (16 * sorted.len()) as u32);
    push_u32(&mut out, arena.len() as u32);
    push_u64(&mut out, key);
    push_u32(&mut out, (8 * disps.len()) as u32);
    push_u32(&mut out, (8 * table.len()) as u32);
    assert(out@ == header_bytes(header_for(c)));
    write_providers(&mut out, sorted.as_slice());
    write_disps(&mut out, disps.as_slice());
    write_spans(&mut out, table.as_slice());
    append(&mut out, arena);
    out
}

/// Writes the index file for what was made ready and the perfect hash
/// `state` of its keys.
fn finish(
    strings: &Interner,
    sorted: &Vec<Provider>,
    spans: &Vec<Span>,
    keys: Ghost<Seq<Seq<u8>>>,
    state: &HashState,
) -> (out: Vec<u8>)
    requires
        strings.wf(),
        16 * sorted@.len() <= u32::MAX,
        arena_of(strings@).len() <= u32::MAX,
        spans@ == group_spans(bin_texts(arena_of(strings@), sorted@), sorted@.len()),
        keys@ == group_keys(bin_texts(arena_of(strings@), sorted@), spans@),
        solve(key_hashes(keys@, state.key)) == Some((state.disps@, state.map@)),
    ensures
        out@ == file_bytes(
            contents(
                Prepared { arena: arena_of(strings@), providers: sorted@, spans: spans@ },
                state.key,
                state.disps@,
                state.map@,
            ),
        ),
{
    proof {
        lemma_group_spans(bin_texts(arena_of(strings@), sorted@), sorted@.len());
        lemma_solution_is_perfect(key_hashes(keys@, state.key));
    }
    write_file(strings.buf(), sorted, spans, state.key, &state.disps, &state.map)
}

/// Builds the index file for the listing `list` with the hash key `key`.
/// The result is `MalformedInput` or `OffsetOverflow` where the listing
/// gives it, and `PhfFailure` where `key` gives no perfect hash for the
/// names of the executables.
pub fn index_with_key(list: &[u8], key: HashKey) -> (r: Result<Vec<u8>, Error>)
    ensures
        match spec_index(list@, key) {
            Ok(bytes) => r matches Ok(out) && out@ == bytes,
            Err(e) => r matches Err(f) && f == e,
        },
{
    let (strings, sorted, spans) = match prepare_all(list) {
        Ok(found) => found,
        Err(e) => {
            return Err(e);
        },
    };
    let keys = read_keys(strings.buf(), &sorted, &spans);
    assert(spec_hashes(keys@, key) =~= key_hashes(texts(keys@), key));
    match try_generate_hash(keys.as_slice(), key) {
        None => Err(Error::PhfFailure),
        Some(state) => Ok(finish(&strings, &sorted, &spans, Ghost(texts(keys@)), &state)),
    }
}

/// Builds the index file for the listing `list`.
///
/// The result is `MalformedInput` or `OffsetOverflow` where the listing
/// gives it. Else the hash key is drawn as `generate_hash` draws it: a file
/// that is returned is the one that `index_with_key` builds with some hash
/// key, and the result is `PhfFailure` where every key that was tried gave
/// no perfect hash.
pub fn index(list: &[u8]) -> (r: Result<Vec<u8>, Error>)
    ensures
        match prepare(list@) {
            Err(e) => r matches Err(f) && f == e,
            Ok(p) => {
                &&& r matches Ok(out) ==> exists|key: HashKey|
                    spec_index(list@, key) == Ok::<Seq<u8>, Error>(out@)
                &&& r matches Err(e) ==> e == Error::PhfFailure
                &&& (forall|key: HashKey| (#[trigger] solve(key_hashes(keys_of(p), key))) is Some)
                    ==> r is Ok
                &&& (forall|key: HashKey| (#[trigger] solve(key_hashes(keys_of(p), key))) is None)
                    ==> r is Err
            },
        },
{
    let (strings, sorted, spans) = match prepare_all(list) {
        Ok(found) => found,
        Err(e) => {
            return Err(e);
        },
    };
    let keys = read_keys(strings.buf(), &sorted, &spans);
    assert forall|key: HashKey|
        #[trigger] spec_hashes(keys@, key) == key_hashes(texts(keys@), key) by {
        assert(spec_hashes(keys@, key) =~= key_hashes(texts(keys@), key));
    }
    match generate_hash(keys.as_slice()) {
        Err(e) => Err(e),
        Ok(state) => {
            let out = finish(&strings, &sorted, &spans, Ghost(texts(keys@)), &state);
            assert(spec_index(list@, state.key) == Ok::<Seq<u8>, Error>(out@));
            Ok(out)
        },
    }
}

} // verus!
