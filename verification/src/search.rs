//! Looking up a command in the bytes of an index file.

use crate::bytes::{
    append, get_string, is_terminated, lemma_text_len, same_bytes, string_at, text_at,
};
use crate::bytes::{read_u32, read_u64};
use crate::layout::{
    header_of, parse_file, read_disp, read_disps, read_provider, read_providers, read_span,
    read_spans, Contents, HEADER_LEN, PAIR_LEN, PROVIDER_LEN,
};
use crate::phf::{displace, hash, spec_get_index, spec_hash};
use crate::{Error, Fields, Header, Names, Provider, Span, HEADER_VERSION};
use vstd::prelude::*;
use vstd::slice::slice_subrange;
use vstd::utf8::{decode_utf8, is_continuation_byte, valid_utf8};

verus! {

/// What a search gives: the report on the packages that provide the
/// command, or that no package does.
#[derive(Debug, PartialEq, Eq)]
pub enum Entry {
    Found(String),
    NotFound,
}

/// What follows the command in the first line of a report:
/// ` may be found in the following packages:` and a newline.
pub const FOUND_TEXT: [u8; 41] = [
    0x20, 0x6d, 0x61, 0x79, 0x20, 0x62, 0x65, 0x20, 0x66, 0x6f, 0x75, 0x6e, 0x64, 0x20, 0x69, 0x6e,
    0x20, 0x74, 0x68, 0x65, 0x20, 0x66, 0x6f, 0x6c, 0x6c, 0x6f, 0x77, 0x69, 0x6e, 0x67, 0x20, 0x70,
    0x61, 0x63, 0x6b, 0x61, 0x67, 0x65, 0x73, 0x3a, 0x0a,
];

/// The strings that the record `p` points to in the arena `strings`, if a
/// newline ends each of them.
pub open spec fn names_of(strings: Seq<u8>, p: Provider) -> Option<Names> {
    if is_terminated(strings, p.repo as int) && is_terminated(strings, p.package_name as int)
        && is_terminated(strings, p.dir as int) && is_terminated(strings, p.bin as int) {
        Some(
            Names {
                repo: text_at(strings, p.repo as int),
                package: text_at(strings, p.package_name as int),
                dir: text_at(strings, p.dir as int),
                bin: text_at(strings, p.bin as int),
            },
        )
    } else {
        None
    }
}

/// The strings of all the records `ps`, if each record has its four.
pub open spec fn all_names(strings: Seq<u8>, ps: Seq<Provider>) -> Option<Seq<Names>> {
    if forall|i: int| 0 <= i < ps.len() ==> names_of(strings, #[trigger] ps[i]) is Some {
        Some(Seq::new(ps.len(), |i: int| names_of(strings, ps[i]).unwrap()))
    } else {
        None
    }
}

/// The number of characters that `s` shows: its bytes, without those that
/// continue a character of several bytes.
pub open spec fn width(s: Seq<u8>) -> nat
    decreases s.len(),
{
    if s.len() == 0 {
        0
    } else if is_continuation_byte(s.last()) {
        width(s.drop_last())
    } else {
        width(s.drop_last()) + 1
    }
}

/// The greatest length of repository and package name together, in bytes,
/// among `names`.
pub open spec fn longest(names: Seq<Names>) -> nat
    decreases names.len(),
{
    if names.len() == 0 {
        0
    } else {
        let rest = longest(names.drop_last());
        let last = names.last().repo.len() + names.last().package.len();
        if last > rest {
            last
        } else {
            rest
        }
    }
}

/// `n` spaces.
pub open spec fn spaces(n: int) -> Seq<u8> {
    Seq::new(
        if n > 0 {
            n as nat
        } else {
            0
        },
        |i: int| 0x20u8,
    )
}

/// The line of a report for one record: two spaces, the repository, a
/// slash, the package name, spaces up to the column that the longest
/// repository and package name reach, a tab, a slash, the directory, the
/// name of the executable, and a newline.
pub open spec fn line(n: Names, longest: nat) -> Seq<u8> {
    seq![0x20u8, 0x20u8] + n.repo + seq![0x2fu8] + n.package + spaces(
        longest - n.repo.len() - width(n.package),
    ) + seq![0x09u8, 0x2fu8] + n.dir + n.bin + seq![0x0au8]
}

/// The lines of a report for `names`, in their order.
pub open spec fn lines(names: Seq<Names>, longest: nat) -> Seq<u8>
    decreases names.len(),
{
    if names.len() == 0 {
        Seq::empty()
    } else {
        lines(names.drop_last(), longest) + line(names.last(), longest)
    }
}

/// The report on `command`: a first line that names it, and one line for
/// each record.
pub open spec fn report(command: Seq<u8>, names: Seq<Names>) -> Seq<u8> {
    command + FOUND_TEXT@ + lines(names, longest(names))
}

/// The records that hold `command`, as a range of the record array.
/// There are none where the slot table is empty, where the span on the slot
/// of `command` is empty, or where the first record of that span names
/// another command. The index is corrupt where it has slots but no
/// displacements, where the span does not lie within the record array, or
/// where the name of that first record has no end.
pub open spec fn find_range(c: Contents, command: Seq<u8>) -> Result<Option<Span>, Error> {
    if c.table.len() == 0 {
        Ok(None)
    } else if c.disps.len() == 0 {
        Err(Error::CorruptIndex)
    } else {
        let slot = spec_get_index(spec_hash(command, c.key), c.disps, c.table.len());
        let span = c.table[slot as int];
        if span.start > span.end || span.end > c.providers.len() {
            Err(Error::CorruptIndex)
        } else if span.start == span.end {
            Ok(None)
        } else {
            match string_at(c.strings, c.providers[span.start as int].bin as int) {
                None => Err(Error::CorruptIndex),
                Some(bin) => if bin == command {
                    Ok(Some(span))
                } else {
                    Ok(None)
                },
            }
        }
    }
}

/// The bytes of the report on `command`, or `None` where no record holds
/// it. The index is corrupt where `find_range` says so, or where a string
/// of one of the records has no end.
pub open spec fn spec_search(c: Contents, command: Seq<u8>) -> Result<Option<Seq<u8>>, Error> {
    match find_range(c, command) {
        Err(e) => Err(e),
        Ok(None) => Ok(None),
        Ok(Some(span)) => match all_names(
            c.strings,
            c.providers.subrange(span.start as int, span.end as int),
        ) {
            None => Err(Error::CorruptIndex),
            Some(names) => Ok(Some(report(command, names))),
        },
    }
}

/// The line of a listing for one record: the repository, a slash, the
/// package name, a tab, the directory, the name of the executable, and a
/// newline.
pub open spec fn listing_line(n: Names) -> Seq<u8> {
    n.repo + seq![0x2fu8] + n.package + seq![0x09u8] + n.dir + n.bin + seq![0x0au8]
}

/// The lines of a listing for `names`, in their order.
pub open spec fn listing_lines(names: Seq<Names>) -> Seq<u8>
    decreases names.len(),
{
    if names.len() == 0 {
        Seq::empty()
    } else {
        listing_lines(names.drop_last()) + listing_line(names.last())
    }
}

/// The listing of all records of `c`, or `CorruptIndex` where a string of
/// one of them has no end.
pub open spec fn spec_listing(c: Contents) -> Result<Seq<u8>, Error> {
    match all_names(c.strings, c.providers) {
        None => Err(Error::CorruptIndex),
        Some(names) => Ok(listing_lines(names)),
    }
}

/// The text that `String::from_utf8_lossy` makes of `bytes`.
pub uninterp spec fn lossy_text(bytes: Seq<u8>) -> Seq<char>;

/// Calls `String::from_utf8_lossy`, which decodes `bytes` as UTF-8 and puts
/// the replacement character in the place of what is not UTF-8. The
/// contract names the text, and says that valid UTF-8 is decoded as it
/// stands.
#[verifier::external_body]
fn utf8_lossy(bytes: &[u8]) -> (s: String)
    ensures
        s@ == lossy_text(bytes@),
        valid_utf8(bytes@) ==> s@ == decode_utf8(bytes@),
{
    String::from_utf8_lossy(bytes).into_owned()
}

/// Counts the characters that `s` shows.
fn count_width(s: &[u8]) -> (w: usize)
    ensures
        w == width(s@),
{
    let mut w: usize = 0;
    let mut i: usize = 0;
    while i < s.len()
        invariant
            i <= s@.len(),
            w <= i,
            w == width(s@.take(i as int)),
        decreases s@.len() - i,
    {
        assert(s@.take(i + 1).drop_last() =~= s@.take(i as int));
        if !(0x80 <= s[i] && s[i] <= 0xbf) {
            w += 1;
        }
        i += 1;
    }
    assert(s@.take(i as int) =~= s@);
    w
}

/// The width of a string is at most its length.
proof fn lemma_width_bound(s: Seq<u8>)
    ensures
        width(s) <= s.len(),
    decreases s.len(),
{
    if s.len() > 0 {
        lemma_width_bound(s.drop_last());
    }
}

/// No repository and package name among `names` are longer together than
/// `longest` says.
proof fn lemma_longest_bound(names: Seq<Names>, i: int)
    requires
        0 <= i < names.len(),
    ensures
        names[i].repo.len() + names[i].package.len() <= longest(names),
    decreases names.len(),
{
    if i < names.len() - 1 {
        lemma_longest_bound(names.drop_last(), i);
    }
}

/// The strings that the slices hold.
pub open spec fn views(fields: Seq<Fields>) -> Seq<Names> {
    Seq::new(fields.len(), |i: int| fields[i]@)
}

/// Whether no string of a record is longer than a 32-bit length says.
pub open spec fn is_short(n: Names) -> bool {
    n.repo.len() <= u32::MAX && n.package.len() <= u32::MAX
}

/// Appends the line of a report for one record to `out`.
fn write_line(out: &mut Vec<u8>, fields: &Fields, column: u64)
    requires
        fields@.repo.len() + fields@.package.len() <= column,
    ensures
        final(out)@ == old(out)@ + line(fields@, column as nat),
{
    proof {
        lemma_width_bound(fields@.package);
    }
    out.push(0x20);
    out.push(0x20);
    append(out, fields.repo);
    out.push(0x2f);
    append(out, fields.package);
    let fill: u64 = column - fields.repo.len() as u64 - count_width(fields.package) as u64;
    let ghost before = out@;
    let mut i: u64 = 0;
    while i < fill
        invariant
            i <= fill,
            out@ == before + spaces(i as int),
        decreases fill - i,
    {
        out.push(0x20);
        i += 1;
        assert(out@ =~= before + spaces(i as int));
    }
    out.push(0x09);
    out.push(0x2f);
    append(out, fields.dir);
    append(out, fields.bin);
    out.push(0x0a);
    assert(out@ =~= old(out)@ + line(fields@, column as nat));
}

/// Appends the line of a listing for one record to `out`.
fn write_listing_line(out: &mut Vec<u8>, fields: &Fields)
    ensures
        final(out)@ == old(out)@ + listing_line(fields@),
{
    append(out, fields.repo);
    out.push(0x2f);
    append(out, fields.package);
    out.push(0x09);
    append(out, fields.dir);
    append(out, fields.bin);
    out.push(0x0a);
    assert(out@ =~= old(out)@ + listing_line(fields@));
}

/// Finds the greatest length of repository and package name together.
fn find_longest(names: &Vec<Fields>) -> (column: u64)
    requires
        forall|i: int| 0 <= i < names@.len() ==> is_short(#[trigger] names@[i]@),
    ensures
        column == longest(views(names@)),
{
    let ghost all = views(names@);
    let mut column: u64 = 0;
    let mut i: usize = 0;
    while i < names.len()
        invariant
            i <= names@.len(),
            all == views(names@),
            forall|k: int| 0 <= k < names@.len() ==> is_short(#[trigger] names@[k]@),
            column == longest(all.take(i as int)),
            column <= 2 * u32::MAX,
        decreases names@.len() - i,
    {
        assert(is_short(names@[i as int]@));
        assert(all.take(i + 1).drop_last() =~= all.take(i as int));
        assert(all.take(i + 1).last() == names@[i as int]@);
        let both = names[i].repo.len() as u64 + names[i].package.len() as u64;
        if both > column {
            column = both;
        }
        i += 1;
    }
    assert(all.take(i as int) =~= all);
    column
}

/// Writes the report on `command` for the records `names`.
fn write_report(command: &[u8], names: &Vec<Fields>) -> (out: Vec<u8>)
    requires
        forall|i: int| 0 <= i < names@.len() ==> is_short(#[trigger] names@[i]@),
    ensures
        out@ == report(command@, views(names@)),
{
    let ghost all = views(names@);
    let column = find_longest(names);
    let mut out: Vec<u8> = Vec::new();
    append(&mut out, command);
    let text = FOUND_TEXT;
    let mut t: usize = 0;
    while t < 41
        invariant
            t <= 41,
            text == FOUND_TEXT,
            out@ == command@ + FOUND_TEXT@.take(t as int),
        decreases 41 - t,
    {
        out.push(text[t]);
        t += 1;
        assert(out@ =~= command@ + FOUND_TEXT@.take(t as int));
    }
    assert(FOUND_TEXT@.take(41) =~= FOUND_TEXT@);
    let mut i: usize = 0;
    while i < names.len()
        invariant
            i <= names@.len(),
            all == views(names@),
            column == longest(all),
            out@ == command@ + FOUND_TEXT@ + lines(all.take(i as int), column as nat),
        decreases names@.len() - i,
    {
        proof {
            lemma_longest_bound(all, i as int);
            assert(all.take(i + 1).drop_last() =~= all.take(i as int));
            assert(all.take(i + 1).last() == names@[i as int]@);
        }
        write_line(&mut out, &names[i], column);
        i += 1;
    }
    assert(all.take(i as int) =~= all);
    out
}

/// Writes the listing of the records `names`.
fn write_listing(names: &Vec<Fields>) -> (out: Vec<u8>)
    ensures
        out@ == listing_lines(views(names@)),
{
    let ghost all = views(names@);
    let mut out: Vec<u8> = Vec::new();
    let mut i: usize = 0;
    while i < names.len()
        invariant
            i <= names@.len(),
            all == views(names@),
            out@ == listing_lines(all.take(i as int)),
        decreases names@.len() - i,
    {
        proof {
            assert(all.take(i + 1).drop_last() =~= all.take(i as int));
            assert(all.take(i + 1).last() == names@[i as int]@);
        }
        write_listing_line(&mut out, &names[i]);
        i += 1;
    }
    assert(all.take(i as int) =~= all);
    out
}

/// A view of the bytes of an index file, cut into its sections.
#[derive(Debug, Clone, Copy, PartialEq)]
pub struct Database<'a> {
    header: Header,
    providers: &'a [u8],
    disps: &'a [u8],
    table: &'a [u8],
    strings: &'a [u8],
}

impl<'a> View for Database<'a> {
    type V = Contents;

    /// What the sections hold.
    closed spec fn view(&self) -> Contents {
        Contents {
            key: self.header.hash_key,
            providers: read_providers(self.providers@),
            disps: read_disps(self.disps@),
            table: read_spans(self.table@),
            strings: self.strings@,
        }
    }
}

impl<'a> Database<'a> {
    /// Every section is as long as the header says.
    #[verifier::type_invariant]
    spec fn sections_match(self) -> bool {
        &&& self.providers@.len() == self.header.providers_len
        &&& self.disps@.len() == self.header.disps_len
        &&& self.table@.len() == self.header.table_len
        &&& self.strings@.len() == self.header.strings_len
    }

    /// Reads the header of `bytes` and cuts the sections that it declares.
    /// The result is `CorruptIndex` where `bytes` are shorter than a
    /// header, `UnknownVersion` where they do not start with
    /// `HEADER_VERSION`, and `CorruptIndex` where a section is no whole
    /// number of entries or the sections are longer than `bytes`.
    pub fn new(bytes: &'a [u8]) -> (r: Result<Database<'a>, Error>)
        ensures
            match parse_file(bytes@) {
                Ok(c) => r matches Ok(db) && db@ == c,
                Err(e) => r matches Err(f) && f == e,
            },
    {
        let len = bytes.len();
        if len < HEADER_LEN {
            return Err(Error::CorruptIndex);
        }
        let mut i: usize = 0;
        while i < 16
            invariant
                i <= 16,
                HEADER_LEN <= bytes@.len(),
                forall|j: int| 0 <= j < i ==> bytes@[j] == HEADER_VERSION@[j],
            decreases 16 - i,
        {
            if bytes[i] != HEADER_VERSION[i] {
                proof {
                    let tag = bytes@.subrange(0, 16);
                    assert(tag[i as int] != HEADER_VERSION@[i as int]);
                    if tag == HEADER_VERSION@ {
                        assert(tag[i as int] == HEADER_VERSION@[i as int]);
                    }
                }
                return Err(Error::UnknownVersion);
            }
            i += 1;
        }
        assert(bytes@.subrange(0, 16) =~= HEADER_VERSION@);
        let header = Header {
            version: HEADER_VERSION,
            providers_len: read_u32(bytes, 16),
            strings_len: read_u32(bytes, 20),
            hash_key: read_u64(bytes, 24),
            disps_len: read_u32(bytes, 32),
            table_len: read_u32(bytes, 36),
        };
        assert(header == header_of(bytes@));
        if header.providers_len % 16 != 0 || header.disps_len % 8 != 0 || header.table_len % 8
            != 0 {
            return Err(Error::CorruptIndex);
        }
        let records: u64 = HEADER_LEN as u64;
        let disps: u64 = records + header.providers_len as u64;
        let table: u64 = disps + header.disps_len as u64;
        let strings: u64 = table + header.table_len as u64;
        let end: u64 = strings + header.strings_len as u64;
        if end > len as u64 {
            return Err(Error::CorruptIndex);
        }
        Ok(
            Database {
                header,
                providers: slice_subrange(bytes, records as usize, disps as usize),
                disps: slice_subrange(bytes, disps as usize, table as usize),
                table: slice_subrange(bytes, table as usize, strings as usize),
                strings: slice_subrange(bytes, strings as usize, end as usize),
            },
        )
    }

    /// Returns the string that starts at `offset` in the arena, without
    /// its newline; `CorruptIndex` if no newline follows `offset`.
    pub fn get(&self, offset: u32) -> (r: Result<&'a [u8], Error>)
        ensures
            match string_at(self@.strings, offset as int) {
                Some(s) => r matches Ok(found) && found@ == s,
                None => r == Err::<&[u8], Error>(Error::CorruptIndex),
            },
    {
        match get_string(self.strings, offset as usize) {
            Some(found) => Ok(found),
            None => Err(Error::CorruptIndex),
        }
    }

    /// Reads the four strings of the record `p`; `CorruptIndex` if one of
    /// them has no end.
    fn names(&self, p: Provider) -> (r: Result<Fields<'a>, Error>)
        ensures
            match names_of(self@.strings, p) {
                Some(n) => r matches Ok(found) && found@ == n && is_short(n),
                None => r matches Err(e) && e == Error::CorruptIndex,
            },
    {
        proof {
            use_type_invariant(self);
            lemma_text_len(self@.strings, p.repo as int);
            lemma_text_len(self@.strings, p.package_name as int);
        }
        let repo = match self.get(p.repo) {
            Ok(s) => s,
            Err(e) => {
                return Err(e);
            },
        };
        let package = match self.get(p.package_name) {
            Ok(s) => s,
            Err(e) => {
                return Err(e);
            },
        };
        let dir = match self.get(p.dir) {
            Ok(s) => s,
            Err(e) => {
                return Err(e);
            },
        };
        let bin = match self.get(p.bin) {
            Ok(s) => s,
            Err(e) => {
                return Err(e);
            },
        };
        Ok(Fields { repo, package, dir, bin })
    }

    /// Reads the strings of the records from `start` up to `end`;
    /// `CorruptIndex` if one of them has no end.
    fn read_names(&self, start: usize, end: usize) -> (r: Result<Vec<Fields<'a>>, Error>)
        requires
            start <= end <= self@.providers.len(),
        ensures
            match all_names(self@.strings, self@.providers.subrange(start as int, end as int)) {
                Some(names) => r matches Ok(found) && views(found@) == names && forall|i: int|
                    0 <= i < found@.len() ==> is_short(#[trigger] found@[i]@),
                None => r matches Err(e) && e == Error::CorruptIndex,
            },
    {
        proof {
            use_type_invariant(self);
        }
        let ghost part = self@.providers.subrange(start as int, end as int);
        let mut found: Vec<Fields<'a>> = Vec::new();
        let mut i: usize = start;
        while i < end
            invariant
                start <= i <= end,
                end <= self.providers@.len() / 16,
                part == self@.providers.subrange(start as int, end as int),
                found@.len() == i - start,
                forall|k: int|
                    0 <= k < i - start ==> names_of(self@.strings, part[k]) == Some(
                        (#[trigger] found@[k])@,
                    ) && is_short(found@[k]@),
            decreases end - i,
        {
            let p = read_provider(self.providers, i);
            assert(p == part[i - start]);
            match self.names(p) {
                Err(e) => {
                    return Err(e);
                },
                Ok(fields) => {
                    found.push(fields);
                },
            }
            i += 1;
        }
        assert forall|k: int| 0 <= k < part.len() implies names_of(
            self@.strings,
            #[trigger] part[k],
        ) is Some by {
            assert(names_of(self@.strings, part[k]) == Some(found@[k]@));
        }
        assert(views(found@) =~= Seq::new(
            part.len(),
            |k: int| names_of(self@.strings, part[k]).unwrap(),
        ));
        Ok(found)
    }

    /// Finds the records that hold `command`: hashes it to its slot, reads
    /// the span on that slot, and checks that the first record of the span
    /// names `command`.
    pub fn find(&self, command: &[u8]) -> (r: Result<Option<Span>, Error>)
        ensures
            r == find_range(self@, command@),
    {
        proof {
            use_type_invariant(self);
        }
        let slots = self.table.len() / PAIR_LEN;
        if slots == 0 {
            return Ok(None);
        }
        let buckets = self.disps.len() / PAIR_LEN;
        if buckets == 0 {
            return Err(Error::CorruptIndex);
        }
        let hashes = hash(command, self.header.hash_key);
        let d = read_disp(self.disps, (hashes.g % (buckets as u32)) as usize);
        let slot = (displace(hashes.f1, hashes.f2, d.0, d.1) % (slots as u32)) as usize;
        let span = read_span(self.table, slot);
        let count = self.providers.len() / PROVIDER_LEN;
        if span.start > span.end || span.end as usize > count {
            return Err(Error::CorruptIndex);
        }
        if span.start == span.end {
            return Ok(None);
        }
        let first = read_provider(self.providers, span.start as usize);
        match get_string(self.strings, first.bin as usize) {
            None => Err(Error::CorruptIndex),
            Some(bin) => if same_bytes(bin, command) {
                Ok(Some(span))
            } else {
                Ok(None)
            },
        }
    }

    /// Lists all records in the order of the file, one line for each.
    pub fn listing(&self) -> (r: Result<Vec<u8>, Error>)
        ensures
            match spec_listing(self@) {
                Ok(bytes) => r matches Ok(out) && out@ == bytes,
                Err(e) => r matches Err(f) && f == e,
            },
    {
        proof {
            use_type_invariant(self);
        }
        let count = self.providers.len() / PROVIDER_LEN;
        assert(self@.providers.subrange(0, count as int) =~= self@.providers);
        match self.read_names(0, count) {
            Err(e) => Err(e),
            Ok(names) => Ok(write_listing(&names)),
        }
    }

    /// Looks `command` up and returns the bytes of the report on it, or
    /// `None` where no record holds it.
    pub fn report_bytes(&self, command: &[u8]) -> (r: Result<Option<Vec<u8>>, Error>)
        ensures
            match spec_search(self@, command@) {
                Ok(Some(bytes)) => r matches Ok(Some(out)) && out@ == bytes,
                Ok(None) => r matches Ok(None),
                Err(e) => r matches Err(f) && f == e,
            },
    {
        match self.find(command) {
            Err(e) => Err(e),
            Ok(None) => Ok(None),
            Ok(Some(span)) => match self.read_names(span.start as usize, span.end as usize) {
                Err(e) => Err(e),
                Ok(names) => Ok(Some(write_report(command, &names))),
            },
        }
    }

    /// Looks `command` up: `Found` with the report where records hold it,
    /// `NotFound` where none does, `CorruptIndex` where the index points
    /// outside itself. The report is the text of `report_bytes`; bytes
    /// that are not UTF-8 show as replacement characters.
    pub fn search(&self, command: &[u8]) -> (r: Result<Entry, Error>)
        ensures
            match spec_search(self@, command@) {
                Ok(Some(bytes)) => r matches Ok(Entry::Found(text)) && text@ == lossy_text(bytes)
                    && (valid_utf8(bytes) ==> text@ == decode_utf8(bytes)),
                Ok(None) => r matches Ok(Entry::NotFound),
                Err(e) => r matches Err(f) && f == e,
            },
    {
        match self.report_bytes(command) {
            Err(e) => Err(e),
            Ok(None) => Ok(Entry::NotFound),
            Ok(Some(out)) => Ok(Entry::Found(utf8_lossy(out.as_slice()))),
        }
    }
}

} // verus!
