//! What holds of an index file that was built from a listing.
//!
//! - `lemma_search_finds_what_is_listed`: a search in the file finds, for
//!   every command, exactly the lines of the listing that name it, in
//!   their order, and nothing for a command that no line names.
//! - `lemma_index_depends_on_what_is_listed`: the file depends on the
//!   listing only through what its lines say.
//! - `lemma_index_is_whole`, `lemma_records_ascend`,
//!   `lemma_records_lead_to_strings`: the file is well-formed.

use crate::bytes::{
    first_index, is_terminated, lemma_first_index, lemma_first_index_unique, lemma_last_index,
    string_at, text_at, NEWLINE,
};
use crate::index::{
    before_last, bin_texts, contents, gather, group_keys, group_spans, intern, key_hashes,
    keys_of, last_field, lines_of, prepare, record, sorted_by_bin, spec_index, spec_parse_line,
    Gathered, Prepared, FIELD_END,
};
use crate::layout::{
    fits_format, is_whole, lemma_file_bytes_whole, lemma_parse_file_bytes, parse_file, Contents,
};
use crate::phf::{lemma_solution_is_perfect, solve, spec_get_index, spec_hash, HashKey};
use crate::search::{all_names, find_range, report, spec_search};
use crate::sort::{
    bytes_le, comes_first, key_at, lemma_bytes_le_antisymmetric, lemma_bytes_le_reflexive,
    lemma_sorted_order, sorted_order,
};
use crate::Span;
use crate::intern::{
    added, arena_of, lemma_arena_holds, lemma_arena_push, lemma_get_after_add, ARENA_LIMIT,
};
use crate::search::names_of;
use crate::{Error, Names, Provider};
use vstd::prelude::*;

verus! {

/// What the lines of a listing say: the strings of every line that names
/// an executable, in the order of the lines.
pub open spec fn listed(lines: Seq<Seq<u8>>) -> Seq<Names>
    decreases lines.len(),
{
    if lines.len() == 0 {
        Seq::empty()
    } else {
        let before = listed(lines.drop_last());
        match spec_parse_line(lines.last()) {
            Ok(Some(names)) => before.push(names),
            _ => before,
        }
    }
}

/// What the records of `names` give, taken in their order; the error of
/// the first that has one.
pub open spec fn record_all(names: Seq<Names>) -> Result<Gathered, Error>
    decreases names.len(),
{
    if names.len() == 0 {
        Ok(Gathered { strings: Seq::empty(), providers: Seq::empty() })
    } else {
        match record_all(names.drop_last()) {
            Err(e) => Err(e),
            Ok(g) => record(g, names.last()),
        }
    }
}

/// Whether no line is malformed.
pub open spec fn well_formed(lines: Seq<Seq<u8>>) -> bool {
    forall|l: int| 0 <= l < lines.len() ==> spec_parse_line(#[trigger] lines[l]) is Ok
}

/// Where no line is malformed, what is gathered depends on the lines only
/// through what they say.
pub proof fn lemma_gather_is_record_all(lines: Seq<Seq<u8>>)
    requires
        well_formed(lines),
    ensures
        gather(lines) == record_all(listed(lines)),
    decreases lines.len(),
{
    if lines.len() > 0 {
        let front = lines.drop_last();
        assert forall|l: int| 0 <= l < front.len() implies spec_parse_line(#[trigger] front[l]) is Ok by {
            assert(front[l] == lines[l]);
        }
        lemma_gather_is_record_all(front);
        assert(spec_parse_line(lines[lines.len() - 1]) is Ok);
        if let Ok(Some(n)) = spec_parse_line(lines.last()) {
            assert(listed(lines).drop_last() =~= listed(front));
        }
    }
}

/// Two listings without malformed lines that say the same give the same
/// index file under the same hash key: lines that name no executable may
/// come and go, and move.
pub proof fn lemma_index_depends_on_what_is_listed(a: Seq<u8>, b: Seq<u8>, key: HashKey)
    requires
        well_formed(lines_of(a)),
        well_formed(lines_of(b)),
        listed(lines_of(a)) == listed(lines_of(b)),
    ensures
        spec_index(a, key) == spec_index(b, key),
{
    lemma_gather_is_record_all(lines_of(a));
    lemma_gather_is_record_all(lines_of(b));
}

/// Whether no byte of `s` is a newline.
pub open spec fn one_line(s: Seq<u8>) -> bool {
    forall|i: int| 0 <= i < s.len() ==> s[i] != NEWLINE
}

/// No line of a listing holds a newline.
pub proof fn lemma_lines_are_lines(list: Seq<u8>)
    ensures
        forall|l: int| 0 <= l < lines_of(list).len() ==> one_line(#[trigger] lines_of(list)[l]),
    decreases list.len(),
{
    if list.len() > 0 {
        lemma_first_index(list, NEWLINE);
        let end = first_index(list, NEWLINE);
        if 0 <= end < list.len() {
            lemma_lines_are_lines(list.skip(end + 1));
            let first = list.subrange(0, end);
            let rest = lines_of(list.skip(end + 1));
            assert(one_line(first));
            assert forall|l: int| 0 <= l < lines_of(list).len() implies one_line(
                #[trigger] lines_of(list)[l],
            ) by {
                if l > 0 {
                    assert(lines_of(list)[l] == rest[l - 1]);
                }
            }
        } else {
            assert(one_line(list));
        }
    }
}

/// The fields of a line hold no newline if the line holds none.
proof fn lemma_fields_are_lines(line: Seq<u8>)
    requires
        one_line(line),
    ensures
        spec_parse_line(line) matches Ok(Some(n)) ==> one_line(n.repo) && one_line(n.package)
            && one_line(n.dir) && one_line(n.bin),
{
    if let Ok(Some(n)) = spec_parse_line(line) {
        lemma_last_index(line, FIELD_END);
        let path = last_field(line, FIELD_END);
        assert(one_line(path));
        lemma_last_index(path, crate::index::SLASH);
        let upto_version = before_last(line, FIELD_END).unwrap();
        assert(one_line(upto_version));
        lemma_last_index(upto_version, FIELD_END);
        let upto_package = before_last(upto_version, FIELD_END).unwrap();
        assert(one_line(upto_package));
        lemma_last_index(upto_package, FIELD_END);
        let upto_repo = before_last(upto_package, FIELD_END).unwrap();
        assert(one_line(upto_repo));
        lemma_last_index(upto_repo, FIELD_END);
    }
}

/// A string of an arena stays where it is, and as it is, when bytes are
/// appended to the arena.
pub proof fn lemma_text_survives(arena: Seq<u8>, more: Seq<u8>, offset: int)
    requires
        is_terminated(arena, offset),
    ensures
        string_at(arena + more, offset) == string_at(arena, offset),
{
    let rest = arena.skip(offset);
    let longer = (arena + more).skip(offset);
    lemma_first_index(rest, NEWLINE);
    let end = first_index(rest, NEWLINE);
    assert forall|j: int| 0 <= j <= end implies longer[j] == rest[j] by {}
    lemma_first_index_unique(longer, NEWLINE, end);
    assert((arena + more).subrange(offset, offset + end) =~= arena.subrange(offset, offset + end));
}

/// Whether `strings` are distinct, hold no newline, and fill an arena
/// within its limit.
pub open spec fn sound(strings: Seq<Seq<u8>>) -> bool {
    &&& strings.no_duplicates()
    &&& forall|i: int| 0 <= i < strings.len() ==> one_line(#[trigger] strings[i])
    &&& arena_of(strings).len() <= ARENA_LIMIT
}

/// Adding a string keeps the strings sound and every string of the arena
/// in its place, and the new offset leads to the string that was added.
proof fn lemma_intern(strings: Seq<Seq<u8>>, s: Seq<u8>)
    requires
        sound(strings),
        one_line(s),
        intern(strings, s) is Some,
    ensures
        ({
            let (after, offset) = intern(strings, s).unwrap();
            &&& sound(after)
            &&& string_at(arena_of(after), offset as int) == Some(s)
            &&& forall|at: int|
                is_terminated(arena_of(strings), at) ==> #[trigger] string_at(arena_of(after), at)
                    == string_at(arena_of(strings), at)
        }),
{
    let (after, offset) = intern(strings, s).unwrap();
    assert(!s.contains(NEWLINE)) by {
        if s.contains(NEWLINE) {
            let i = choose|i: int| 0 <= i < s.len() && s[i] == NEWLINE;
        }
    }
    lemma_get_after_add(strings, s);
    assert(after.contains(s)) by {
        if !strings.contains(s) {
            assert(strings.push(s)[strings.len() as int] == s);
        }
    }
    let i = after.index_of(s);
    lemma_arena_holds(after, i);
    if !strings.contains(s) {
        lemma_arena_push(strings, s);
        assert forall|at: int| is_terminated(arena_of(strings), at) implies #[trigger] string_at(
            arena_of(after),
            at,
        ) == string_at(arena_of(strings), at) by {
            assert(arena_of(after) =~= arena_of(strings) + (s + seq![NEWLINE]));
            lemma_text_survives(arena_of(strings), s + seq![NEWLINE], at);
        }
        assert forall|a: int, b: int| 0 <= a < after.len() && 0 <= b < after.len() && a
            != b implies after[a] != after[b] by {
            if a == strings.len() {
                assert(strings.contains(after[b]));
            } else if b == strings.len() {
                assert(strings.contains(after[a]));
            }
        }
    }
}

/// Whether what was gathered matches what the lines say: the strings are
/// sound, and each record leads to the four strings of its line.
pub open spec fn matches_listed(g: Gathered, names: Seq<Names>) -> bool {
    &&& sound(g.strings)
    &&& g.providers.len() == names.len()
    &&& forall|k: int|
        0 <= k < names.len() ==> names_of(arena_of(g.strings), #[trigger] g.providers[k]) == Some(
            names[k],
        )
}

/// One more record keeps what was gathered in line with what the lines
/// say.
proof fn lemma_record(g: Gathered, names: Seq<Names>, n: Names)
    requires
        matches_listed(g, names),
        one_line(n.repo) && one_line(n.package) && one_line(n.dir) && one_line(n.bin),
        record(g, n) is Ok,
    ensures
        matches_listed(record(g, n).unwrap(), names.push(n)),
{
    let a0 = arena_of(g.strings);
    lemma_intern(g.strings, n.repo);
    let (s1, repo) = intern(g.strings, n.repo).unwrap();
    let a1 = arena_of(s1);
    lemma_intern(s1, n.package);
    let (s2, package_name) = intern(s1, n.package).unwrap();
    let a2 = arena_of(s2);
    lemma_intern(s2, n.dir);
    let (s3, dir) = intern(s2, n.dir).unwrap();
    let a3 = arena_of(s3);
    lemma_intern(s3, n.bin);
    let (s4, bin) = intern(s3, n.bin).unwrap();
    let a4 = arena_of(s4);
    let after = record(g, n).unwrap();
    assert(after.strings == s4);
    assert forall|at: int| is_terminated(a0, at) implies string_at(a4, at) == string_at(a0, at)
        && is_terminated(a4, at) by {
        assert(string_at(a1, at) == string_at(a0, at));
        assert(string_at(a2, at) == string_at(a1, at));
        assert(string_at(a3, at) == string_at(a2, at));
        assert(string_at(a4, at) == string_at(a3, at));
    }
    assert(string_at(a4, repo as int) == Some(n.repo)) by {
        assert(string_at(a2, repo as int) == string_at(a1, repo as int));
        assert(string_at(a3, repo as int) == string_at(a2, repo as int));
        assert(string_at(a4, repo as int) == string_at(a3, repo as int));
    }
    assert(string_at(a4, package_name as int) == Some(n.package)) by {
        assert(string_at(a3, package_name as int) == string_at(a2, package_name as int));
        assert(string_at(a4, package_name as int) == string_at(a3, package_name as int));
    }
    assert(string_at(a4, dir as int) == Some(n.dir)) by {
        assert(string_at(a4, dir as int) == string_at(a3, dir as int));
    }
    assert(string_at(a4, bin as int) == Some(n.bin));
    let all = names.push(n);
    assert forall|k: int| 0 <= k < all.len() implies names_of(a4, #[trigger] after.providers[k])
        == Some(all[k]) by {
        if k < names.len() {
            let p = g.providers[k];
            assert(after.providers[k] == p);
            assert(names_of(a0, p) == Some(names[k]));
            assert(is_terminated(a0, p.repo as int));
            assert(is_terminated(a0, p.package_name as int));
            assert(is_terminated(a0, p.dir as int));
            assert(is_terminated(a0, p.bin as int));
        }
    }
}

/// What is gathered from lines without newlines matches what the lines
/// say.
pub proof fn lemma_gather(lines: Seq<Seq<u8>>)
    requires
        forall|l: int| 0 <= l < lines.len() ==> one_line(#[trigger] lines[l]),
        gather(lines) is Ok,
    ensures
        matches_listed(gather(lines).unwrap(), listed(lines)),
    decreases lines.len(),
{
    if lines.len() > 0 {
        let front = lines.drop_last();
        lemma_gather(front);
        let g = gather(front).unwrap();
        lemma_fields_are_lines(lines.last());
        if let Ok(Some(n)) = spec_parse_line(lines.last()) {
            lemma_record(g, listed(front), n);
        }
    }
}

/// Whether position `k` lies in the `g`-th of `spans`.
pub open spec fn in_run(spans: Seq<Span>, g: int, k: int) -> bool {
    0 <= g < spans.len() && spans[g].start <= k < spans[g].end
}

/// Whether the `g`-th of `spans` ends where the next starts, and the name
/// changes there.
pub open spec fn meets_next(bins: Seq<Seq<u8>>, spans: Seq<Span>, g: int) -> bool {
    spans[g].end == spans[g + 1].start && bins[spans[g].end - 1] != bins[spans[g + 1].start as int]
}

/// Whether the `g`-th of `spans` is not empty and ends within `upto`.
pub open spec fn is_run(spans: Seq<Span>, g: int, upto: nat) -> bool {
    spans[g].start < spans[g].end <= upto
}

/// Whether `spans` cut the first `upto` of `bins` into runs of equal
/// names: the runs are not empty, follow one another from the first name
/// to the last, hold one name each, and a run ends where the name changes.
pub open spec fn are_runs(bins: Seq<Seq<u8>>, spans: Seq<Span>, upto: nat) -> bool {
    &&& upto > 0 ==> spans.len() > 0
    &&& spans.len() > 0 ==> spans[0].start == 0 && spans.last().end == upto
    &&& forall|g: int| 0 <= g < spans.len() ==> #[trigger] is_run(spans, g, upto)
    &&& forall|g: int| 0 <= g < spans.len() - 1 ==> #[trigger] meets_next(bins, spans, g)
    &&& forall|g: int, k: int| #[trigger]
        in_run(spans, g, k) ==> bins[k] == bins[spans[g].start as int]
}

/// `group_spans` cuts the names into runs.
pub proof fn lemma_group_spans_are_runs(bins: Seq<Seq<u8>>, upto: nat)
    requires
        upto <= bins.len(),
        upto <= u32::MAX,
    ensures
        are_runs(bins, group_spans(bins, upto), upto),
    decreases upto,
{
    if upto > 0 {
        lemma_group_spans_are_runs(bins, (upto - 1) as nat);
        let before = group_spans(bins, (upto - 1) as nat);
        let spans = group_spans(bins, upto);
        if upto >= 2 && bins[upto - 2] == bins[upto - 1] {
            let last = before.len() - 1;
            assert(is_run(before, last, (upto - 1) as nat));
            assert(before[last].end == upto - 1);
            assert(spans.len() == before.len());
            assert(spans[last] == Span { start: before[last].start, end: upto as u32 });
            assert forall|g: int| 0 <= g < spans.len() implies #[trigger] is_run(spans, g, upto) by {
                assert(is_run(before, g, (upto - 1) as nat));
                if g < last {
                    assert(spans[g] == before[g]);
                }
            }
            assert forall|g: int| 0 <= g < spans.len() - 1 implies #[trigger] meets_next(
                bins,
                spans,
                g,
            ) by {
                assert(meets_next(bins, before, g));
                assert(spans[g] == before[g]);
                assert(spans[g + 1].start == before[g + 1].start);
            }
            assert forall|g: int, k: int| #[trigger] in_run(spans, g, k) implies bins[k]
                == bins[spans[g].start as int] by {
                if g < last {
                    assert(spans[g] == before[g]);
                    assert(in_run(before, g, k));
                } else if k < upto - 1 {
                    assert(in_run(before, last, k));
                } else {
                    assert(in_run(before, last, upto - 2));
                }
            }
        } else {
            assert(spans.len() == before.len() + 1);
            assert(spans[before.len() as int] == Span { start: (upto - 1) as u32, end: upto as u32 });
            assert forall|g: int| 0 <= g < spans.len() implies #[trigger] is_run(spans, g, upto) by {
                if g < before.len() {
                    assert(is_run(before, g, (upto - 1) as nat));
                    assert(spans[g] == before[g]);
                }
            }
            assert forall|g: int| 0 <= g < spans.len() - 1 implies #[trigger] meets_next(
                bins,
                spans,
                g,
            ) by {
                assert(spans[g] == before[g]);
                if g + 1 < before.len() {
                    assert(meets_next(bins, before, g));
                    assert(spans[g + 1] == before[g + 1]);
                } else {
                    assert(before.last().end == upto - 1);
                }
            }
            assert forall|g: int, k: int| #[trigger] in_run(spans, g, k) implies bins[k]
                == bins[spans[g].start as int] by {
                if g < before.len() {
                    assert(spans[g] == before[g]);
                    assert(in_run(before, g, k));
                }
            }
        }
    }
}

/// An earlier run ends before a later one starts.
proof fn lemma_runs_in_order(bins: Seq<Seq<u8>>, spans: Seq<Span>, upto: nat, g: int, h: int)
    requires
        are_runs(bins, spans, upto),
        0 <= g < h < spans.len(),
    ensures
        spans[g].end <= spans[h].start,
    decreases h - g,
{
    assert(meets_next(bins, spans, g));
    if g + 1 < h {
        lemma_runs_in_order(bins, spans, upto, g + 1, h);
        assert(is_run(spans, g + 1, upto));
    }
}

/// Every position before the end of the first `count` runs lies in one of
/// them.
proof fn lemma_runs_cover(bins: Seq<Seq<u8>>, spans: Seq<Span>, upto: nat, count: int, k: int) -> (g:
    int)
    requires
        are_runs(bins, spans, upto),
        0 < count <= spans.len(),
        0 <= k < spans[count - 1].end,
    ensures
        0 <= g < count,
        in_run(spans, g, k),
    decreases count,
{
    if k >= spans[count - 1].start {
        count - 1
    } else {
        assert(count > 1);
        assert(meets_next(bins, spans, count - 2));
        lemma_runs_cover(bins, spans, upto, count - 1, k)
    }
}

/// Whether each of `bins` comes before those behind it, or equals them.
pub open spec fn ascending(bins: Seq<Seq<u8>>) -> bool {
    forall|a: int, b: int| 0 <= a <= b < bins.len() ==> bytes_le(#[trigger] bins[a], #[trigger] bins[b])
}

/// In ascending names, two runs hold two names.
proof fn lemma_runs_differ(bins: Seq<Seq<u8>>, spans: Seq<Span>, g: int, h: int)
    requires
        are_runs(bins, spans, bins.len()),
        ascending(bins),
        0 <= g < h < spans.len(),
    ensures
        bins[spans[g].start as int] != bins[spans[h].start as int],
{
    let a = spans[g].end - 1;
    let b = spans[g + 1].start as int;
    assert(is_run(spans, g, bins.len()));
    assert(is_run(spans, h, bins.len()));
    assert(meets_next(bins, spans, g));
    assert(in_run(spans, g, a));
    assert(bins[a] == bins[spans[g].start as int]);
    if g + 1 < h {
        lemma_runs_in_order(bins, spans, bins.len(), g + 1, h);
        assert(is_run(spans, g + 1, bins.len()));
    }
    assert(b <= spans[h].start);
    if bins[spans[g].start as int] == bins[spans[h].start as int] {
        assert(bytes_le(bins[a], bins[b]));
        assert(bytes_le(bins[b], bins[spans[h].start as int]));
        lemma_bytes_le_antisymmetric(bins[a], bins[b]);
    }
}

/// What is sifted out of a sequence, given the places of what passes: the
/// elements on these places, if the places ascend, hold only what passes
/// and leave out nothing that does.
pub proof fn lemma_filter_by_places<A>(s: Seq<A>, pred: spec_fn(A) -> bool, places: Seq<int>)
    requires
        forall|t: int| 0 <= t < places.len() ==> 0 <= #[trigger] places[t] < s.len() && pred(s[places[t]]),
        forall|t: int, u: int| 0 <= t < u < places.len() ==> #[trigger] places[t] < #[trigger] places[u],
        forall|i: int|
            0 <= i < s.len() && pred(#[trigger] s[i]) ==> exists|t: int|
                0 <= t < places.len() && #[trigger] places[t] == i,
    ensures
        s.filter(pred) == Seq::new(places.len(), |t: int| s[places[t]]),
    decreases s.len(),
{
    reveal(Seq::filter);
    if s.len() == 0 {
        if places.len() > 0 {
            assert(0 <= places[0] < s.len());
        }
        assert(s.filter(pred) =~= Seq::new(places.len(), |t: int| s[places[t]]));
    } else {
        let front = s.drop_last();
        let top = s.len() - 1;
        if pred(s.last()) {
            assert(pred(s[top]));
            let t = choose|t: int| 0 <= t < places.len() && #[trigger] places[t] == top;
            if t < places.len() - 1 {
                assert(places[t] < places[places.len() - 1]);
            }
            let rest = places.drop_last();
            assert forall|u: int| 0 <= u < rest.len() implies 0 <= #[trigger] rest[u] < front.len()
                && pred(front[rest[u]]) by {
                assert(places[u] < places[t]);
                assert(front[places[u]] == s[places[u]]);
            }
            assert forall|i: int| 0 <= i < front.len() && pred(#[trigger] front[i]) implies exists|
                u: int,
            | 0 <= u < rest.len() && #[trigger] rest[u] == i by {
                assert(pred(s[i]));
                let u = choose|u: int| 0 <= u < places.len() && #[trigger] places[u] == i;
                assert(rest[u] == i);
            }
            lemma_filter_by_places(front, pred, rest);
            assert(s.filter(pred) =~= Seq::new(places.len(), |t: int| s[places[t]]));
        } else {
            assert forall|u: int| 0 <= u < places.len() implies 0 <= #[trigger] places[u]
                < front.len() && pred(front[places[u]]) by {
                assert(pred(s[places[u]]));
            }
            assert forall|i: int| 0 <= i < front.len() && pred(#[trigger] front[i]) implies exists|
                u: int,
            | 0 <= u < places.len() && #[trigger] places[u] == i by {
                assert(pred(s[i]));
            }
            lemma_filter_by_places(front, pred, places);
            assert(s.filter(pred) =~= Seq::new(places.len(), |t: int| s[places[t]]));
        }
    }
}

/// Whether the executable of a record is `command`.
pub open spec fn has_bin(command: Seq<u8>) -> spec_fn(Names) -> bool {
    |n: Names| n.bin == command
}

/// Whether the records `ps` lead, in the arena, to the strings `names`.
pub open spec fn lead_to(arena: Seq<u8>, ps: Seq<Provider>, names: Seq<Names>) -> bool {
    &&& ps.len() == names.len()
    &&& ps.len() <= u32::MAX
    &&& forall|k: int| 0 <= k < ps.len() ==> names_of(arena, #[trigger] ps[k]) == Some(names[k])
}

/// The keys in sorted order.
pub open spec fn sorted_keys(bins: Seq<Seq<u8>>) -> Seq<Seq<u8>> {
    Seq::new(bins.len(), |k: int| bins[sorted_order(bins)[k] as int])
}

/// The runs of equal keys among the sorted keys.
pub open spec fn key_runs(bins: Seq<Seq<u8>>) -> Seq<Span> {
    group_spans(sorted_keys(bins), bins.len())
}

/// The places, before sorting, of the keys of one run.
pub open spec fn run_places(bins: Seq<Seq<u8>>, run: int) -> Seq<int> {
    let span = key_runs(bins)[run];
    Seq::new((span.end - span.start) as nat, |t: int| sorted_order(bins)[span.start + t] as int)
}

/// The sorted keys ascend.
proof fn lemma_sorted_keys_ascend(bins: Seq<Seq<u8>>)
    requires
        bins.len() <= u32::MAX,
    ensures
        ascending(sorted_keys(bins)),
        are_runs(sorted_keys(bins), key_runs(bins), bins.len()),
{
    let order = sorted_order(bins);
    let sbins = sorted_keys(bins);
    lemma_sorted_order(bins);
    lemma_group_spans_are_runs(sbins, bins.len());
    assert forall|a: int, b: int| 0 <= a <= b < sbins.len() implies bytes_le(
        #[trigger] sbins[a],
        #[trigger] sbins[b],
    ) by {
        lemma_bytes_le_reflexive(sbins[a]);
        if a < b {
            assert(comes_first(bins)(order[a], order[b]));
        }
    }
}

/// Every key of a run is the key of the run, and stood on its place before
/// sorting.
proof fn lemma_run_places_hold(bins: Seq<Seq<u8>>, run: int, t: int)
    requires
        bins.len() <= u32::MAX,
        0 <= run < key_runs(bins).len(),
        0 <= t < run_places(bins, run).len(),
    ensures
        0 <= run_places(bins, run)[t] < bins.len(),
        bins[run_places(bins, run)[t]] == sorted_keys(bins)[key_runs(bins)[run].start as int],
{
    let sbins = sorted_keys(bins);
    let spans = key_runs(bins);
    lemma_sorted_order(bins);
    lemma_sorted_keys_ascend(bins);
    let k = spans[run].start + t;
    assert(is_run(spans, run, bins.len()));
    assert(in_run(spans, run, k));
    assert(sbins[k] == sbins[spans[run].start as int]);
}

/// Within a run the keys stand in the order in which they stood before
/// sorting.
proof fn lemma_run_places_ascend(bins: Seq<Seq<u8>>, run: int, t: int, u: int)
    requires
        bins.len() <= u32::MAX,
        0 <= run < key_runs(bins).len(),
        0 <= t < u < run_places(bins, run).len(),
    ensures
        run_places(bins, run)[t] < run_places(bins, run)[u],
{
    let order = sorted_order(bins);
    let sbins = sorted_keys(bins);
    let spans = key_runs(bins);
    lemma_sorted_order(bins);
    lemma_sorted_keys_ascend(bins);
    let a = spans[run].start + t;
    let b = spans[run].start + u;
    assert(is_run(spans, run, bins.len()));
    assert(in_run(spans, run, a));
    assert(in_run(spans, run, b));
    assert(sbins[a] == sbins[spans[run].start as int]);
    assert(sbins[b] == sbins[spans[run].start as int]);
    assert(comes_first(bins)(order[a], order[b]));
    assert(key_at(bins, order[a]) == bins[order[a] as int]);
    assert(key_at(bins, order[b]) == bins[order[b] as int]);
    assert(order[a] != order[b]);
}

/// Every key lies in a run, and in no run but that of its own value.
proof fn lemma_key_in_run(bins: Seq<Seq<u8>>, i: int) -> (found: (int, int))
    requires
        bins.len() <= u32::MAX,
        0 <= i < bins.len(),
    ensures
        0 <= found.0 < key_runs(bins).len(),
        0 <= found.1 < run_places(bins, found.0).len(),
        run_places(bins, found.0)[found.1] == i,
        sorted_keys(bins)[key_runs(bins)[found.0].start as int] == bins[i],
        forall|run: int|
            0 <= run < key_runs(bins).len() && sorted_keys(bins)[(#[trigger] key_runs(
                bins,
            )[run]).start as int] == bins[i] ==> run == found.0,
{
    let order = sorted_order(bins);
    let sbins = sorted_keys(bins);
    let spans = key_runs(bins);
    lemma_sorted_order(bins);
    lemma_sorted_keys_ascend(bins);
    assert(order.contains(i as usize));
    let k = choose|k: int| 0 <= k < order.len() && order[k] == i as usize;
    assert(sbins[k] == bins[i]);
    let h = lemma_runs_cover(sbins, spans, bins.len(), spans.len() as int, k);
    assert(sbins[k] == sbins[spans[h].start as int]);
    assert forall|run: int|
        0 <= run < spans.len() && sbins[(#[trigger] spans[run]).start as int]
            == bins[i] implies run == h by {
        if run < h {
            lemma_runs_differ(sbins, spans, run, h);
        } else if h < run {
            lemma_runs_differ(sbins, spans, h, run);
        }
    }
    assert(run_places(bins, h)[k - spans[h].start] == i);
    (h, k - spans[h].start)
}

/// The names of the executables of records that lead to `names` are the
/// names in `names`.
proof fn lemma_bins_of_names(arena: Seq<u8>, ps: Seq<Provider>, names: Seq<Names>)
    requires
        lead_to(arena, ps, names),
    ensures
        bin_texts(arena, ps) == Seq::new(names.len(), |i: int| names[i].bin),
        bin_texts(arena, sorted_by_bin(arena, ps)) == sorted_keys(bin_texts(arena, ps)),
        forall|k: int|
            0 <= k < ps.len() ==> sorted_order(bin_texts(arena, ps))[k] < ps.len() && names_of(
                arena,
                #[trigger] sorted_by_bin(arena, ps)[k],
            ) == Some(names[sorted_order(bin_texts(arena, ps))[k] as int]),
{
    let bins = bin_texts(arena, ps);
    let order = sorted_order(bins);
    let sorted = sorted_by_bin(arena, ps);
    lemma_sorted_order(bins);
    assert forall|i: int| 0 <= i < ps.len() implies bins[i] == names[i].bin by {
        assert(names_of(arena, ps[i]) == Some(names[i]));
    }
    assert(bins =~= Seq::new(names.len(), |i: int| names[i].bin));
    assert forall|k: int| 0 <= k < ps.len() implies order[k] < ps.len() && names_of(
        arena,
        #[trigger] sorted[k],
    ) == Some(names[order[k] as int]) by {
        assert(order[k] < ps.len());
        assert(sorted[k] == ps[order[k] as int]);
    }
    assert(bin_texts(arena, sorted) =~= sorted_keys(bins));
}

/// The records of the run of `command` lead to the strings of exactly the
/// lines whose executable is `command`, in the order of the lines.
proof fn lemma_run_holds_providers(
    arena: Seq<u8>,
    ps: Seq<Provider>,
    names: Seq<Names>,
    command: Seq<u8>,
    run: int,
)
    requires
        lead_to(arena, ps, names),
        0 <= run < key_runs(bin_texts(arena, ps)).len(),
        sorted_keys(bin_texts(arena, ps))[key_runs(bin_texts(arena, ps))[run].start as int]
            == command,
    ensures
        ({
            let sorted = sorted_by_bin(arena, ps);
            let span = key_runs(bin_texts(arena, ps))[run];
            &&& span.start < span.end <= ps.len()
            &&& all_names(arena, sorted.subrange(span.start as int, span.end as int)) == Some(
                names.filter(has_bin(command)),
            )
            &&& names.filter(has_bin(command)).len() > 0
        }),
{
    let bins = bin_texts(arena, ps);
    let order = sorted_order(bins);
    let sorted = sorted_by_bin(arena, ps);
    let span = key_runs(bins)[run];
    let start = span.start as int;
    let end = span.end as int;
    lemma_bins_of_names(arena, ps, names);
    lemma_sorted_keys_ascend(bins);
    assert(is_run(key_runs(bins), run, bins.len()));
    assert(span.start < span.end <= ps.len());
    let places = run_places(bins, run);
    let pred = has_bin(command);
    assert forall|t: int| 0 <= t < places.len() implies 0 <= #[trigger] places[t] < names.len()
        && pred(names[places[t]]) by {
        lemma_run_places_hold(bins, run, t);
    }
    assert forall|t: int, u: int| 0 <= t < u < places.len() implies #[trigger] places[t]
        < #[trigger] places[u] by {
        lemma_run_places_ascend(bins, run, t, u);
    }
    assert forall|i: int| 0 <= i < names.len() && pred(#[trigger] names[i]) implies exists|t: int|
        0 <= t < places.len() && #[trigger] places[t] == i by {
        let found = lemma_key_in_run(bins, i);
        assert(found.0 == run);
        assert(places[found.1] == i);
    }
    lemma_filter_by_places(names, pred, places);
    let group = names.filter(pred);
    let part = sorted.subrange(start, end);
    assert(group.len() == places.len());
    assert forall|t: int| 0 <= t < part.len() implies names_of(arena, #[trigger] part[t]) == Some(
        group[t],
    ) by {
        assert(part[t] == sorted[start + t]);
        assert(group[t] == names[places[t]]);
    }
    assert(Seq::new(part.len(), |t: int| names_of(arena, part[t]).unwrap()) =~= group);
}

/// Where no run has the name `command`, no line has it.
proof fn lemma_no_run_no_providers(
    arena: Seq<u8>,
    ps: Seq<Provider>,
    names: Seq<Names>,
    command: Seq<u8>,
)
    requires
        lead_to(arena, ps, names),
        forall|g: int|
            0 <= g < key_runs(bin_texts(arena, ps)).len() ==> sorted_keys(
                bin_texts(arena, ps),
            )[(#[trigger] key_runs(bin_texts(arena, ps))[g]).start as int] != command,
    ensures
        names.filter(has_bin(command)).len() == 0,
{
    let bins = bin_texts(arena, ps);
    lemma_bins_of_names(arena, ps, names);
    let pred = has_bin(command);
    assert forall|i: int| 0 <= i < names.len() implies !pred(#[trigger] names[i]) by {
        let found = lemma_key_in_run(bins, i);
        assert(key_runs(bins)[found.0].start >= 0);
    }
    lemma_filter_by_places(names, pred, Seq::<int>::empty());
}

/// What was made ready from a listing: the records lead to what the lines
/// say, and the sorted records and their runs are those of the names of
/// the executables.
proof fn lemma_prepared(list: Seq<u8>)
    requires
        prepare(list) is Ok,
    ensures
        ({
            let g = gather(lines_of(list)).unwrap();
            let p = prepare(list).unwrap();
            let bins = bin_texts(p.arena, g.providers);
            &&& gather(lines_of(list)) is Ok
            &&& lead_to(p.arena, g.providers, listed(lines_of(list)))
            &&& p.arena == arena_of(g.strings)
            &&& p.arena.len() <= u32::MAX
            &&& 16 * g.providers.len() <= u32::MAX
            &&& p.providers == sorted_by_bin(p.arena, g.providers)
            &&& p.spans == key_runs(bins)
            &&& keys_of(p) == group_keys(sorted_keys(bins), key_runs(bins))
        }),
{
    let lines = lines_of(list);
    lemma_lines_are_lines(list);
    lemma_gather(lines);
    let g = gather(lines).unwrap();
    let p = prepare(list).unwrap();
    lemma_bins_of_names(p.arena, g.providers, listed(lines));
}

/// Whether every run lies within the records and its first record leads
/// to the key of the run.
#[verifier::opaque]
pub open spec fn runs_lead_to_keys(p: Prepared, keys: Seq<Seq<u8>>) -> bool {
    &&& keys.len() == p.spans.len()
    &&& forall|run: int| 0 <= run < p.spans.len() ==> #[trigger] is_run(p.spans, run, p.providers.len())
    &&& forall|run: int|
        0 <= run < p.spans.len() ==> string_at(
            p.arena,
            p.providers[(#[trigger] p.spans[run]).start as int].bin as int,
        ) == Some(keys[run])
}

/// The run that the slot of `command` leads to.
pub open spec fn run_of(keys: Seq<Seq<u8>>, key: HashKey, command: Seq<u8>) -> int {
    let (disps, map) = solve(key_hashes(keys, key)).unwrap();
    map[spec_get_index(spec_hash(command, key), disps, keys.len()) as int] as int
}

/// The slot that a perfect hash gives a command leads to a run, and to the
/// run of that command if it has one.
proof fn lemma_run_of(keys: Seq<Seq<u8>>, key: HashKey, command: Seq<u8>)
    requires
        solve(key_hashes(keys, key)) is Some,
        0 < keys.len(),
    ensures
        0 <= run_of(keys, key, command) < keys.len(),
        0 <= spec_get_index(
            spec_hash(command, key),
            solve(key_hashes(keys, key)).unwrap().0,
            keys.len(),
        ) < keys.len(),
        solve(key_hashes(keys, key)).unwrap().0.len() > 0,
        solve(key_hashes(keys, key)).unwrap().1.len() == keys.len(),
        forall|h: int|
            0 <= h < keys.len() && #[trigger] keys[h] == command ==> run_of(keys, key, command)
                == h,
{
    let hashes = key_hashes(keys, key);
    let (disps, map) = solve(hashes).unwrap();
    lemma_solution_is_perfect(hashes);
    let words = spec_hash(command, key);
    let slot = spec_get_index(words, disps, keys.len()) as int;
    assert(0 <= slot < keys.len()) by {
        let d = disps[words.g as int % disps.len() as int];
        let x = crate::phf::spec_displace(words.f1, words.f2, d.0, d.1);
        assert(0 <= (x as int) % (keys.len() as int) < keys.len());
    }
    assert forall|h: int| 0 <= h < keys.len() && #[trigger] keys[h] == command implies run_of(
        keys,
        key,
        command,
    ) == h by {
        assert(hashes[h] == words);
        assert(spec_get_index(hashes[h], disps, hashes.len()) == slot);
    }
}

/// What a search finds at the slot of `command`: the run that the slot
/// leads to, if its key is `command`, and else nothing.
proof fn lemma_find_range(p: Prepared, keys: Seq<Seq<u8>>, key: HashKey, command: Seq<u8>)
    requires
        solve(key_hashes(keys, key)) is Some,
        0 < keys.len(),
        runs_lead_to_keys(p, keys),
    ensures
        ({
            let (disps, map) = solve(key_hashes(keys, key)).unwrap();
            let run = run_of(keys, key, command);
            find_range(contents(p, key, disps, map), command) == if keys[run] == command {
                Ok::<Option<Span>, Error>(Some(p.spans[run]))
            } else {
                Ok::<Option<Span>, Error>(None)
            }
        }),
{
    reveal(runs_lead_to_keys);
    let (disps, map) = solve(key_hashes(keys, key)).unwrap();
    let c = contents(p, key, disps, map);
    lemma_run_of(keys, key, command);
    let slot = spec_get_index(spec_hash(command, key), disps, keys.len()) as int;
    let run = run_of(keys, key, command);
    let span = p.spans[run];
    assert(c.table[slot] == span);
    assert(is_run(p.spans, run, p.providers.len()));
    assert(string_at(p.arena, p.providers[span.start as int].bin as int) == Some(keys[run]));
    assert(c.table.len() == keys.len());
}

/// In what was made ready from a listing, every run lies within the
/// records and its first record leads to the key of the run.
proof fn lemma_prepared_runs(list: Seq<u8>)
    requires
        prepare(list) is Ok,
    ensures
        runs_lead_to_keys(prepare(list).unwrap(), keys_of(prepare(list).unwrap())),
        keys_of(prepare(list).unwrap()).len() == 0 ==> listed(lines_of(list)).len() == 0,
{
    reveal(runs_lead_to_keys);
    let names = listed(lines_of(list));
    let g = gather(lines_of(list)).unwrap();
    let p = prepare(list).unwrap();
    let bins = bin_texts(p.arena, g.providers);
    let sbins = sorted_keys(bins);
    let spans = key_runs(bins);
    let keys = keys_of(p);
    lemma_prepared(list);
    lemma_sorted_keys_ascend(bins);
    lemma_bins_of_names(p.arena, g.providers, names);
    assert forall|run: int| 0 <= run < spans.len() implies string_at(
        p.arena,
        p.providers[(#[trigger] spans[run]).start as int].bin as int,
    ) == Some(keys[run]) by {
        assert(is_run(spans, run, bins.len()));
        let first = p.providers[spans[run].start as int];
        assert(names_of(p.arena, first) is Some);
        assert(sbins[spans[run].start as int] == text_at(p.arena, first.bin as int));
    }
}

/// The records of the run of a key lead to the strings of exactly the
/// lines whose executable is that key, in the order of the lines.
proof fn lemma_run_of_key(list: Seq<u8>, run: int)
    requires
        prepare(list) is Ok,
        0 <= run < keys_of(prepare(list).unwrap()).len(),
    ensures
        ({
            let p = prepare(list).unwrap();
            let span = p.spans[run];
            let group = listed(lines_of(list)).filter(has_bin(keys_of(p)[run]));
            &&& span.start < span.end <= p.providers.len()
            &&& all_names(p.arena, p.providers.subrange(span.start as int, span.end as int))
                == Some(group)
            &&& group.len() > 0
        }),
{
    let names = listed(lines_of(list));
    let g = gather(lines_of(list)).unwrap();
    let p = prepare(list).unwrap();
    lemma_prepared(list);
    lemma_run_holds_providers(p.arena, g.providers, names, keys_of(p)[run], run);
}

/// Where no key is `command`, no line has it as its executable.
proof fn lemma_no_key(list: Seq<u8>, command: Seq<u8>)
    requires
        prepare(list) is Ok,
        forall|h: int|
            0 <= h < keys_of(prepare(list).unwrap()).len() ==> #[trigger] keys_of(
                prepare(list).unwrap(),
            )[h] != command,
    ensures
        listed(lines_of(list)).filter(has_bin(command)).len() == 0,
{
    let names = listed(lines_of(list));
    let g = gather(lines_of(list)).unwrap();
    let p = prepare(list).unwrap();
    let bins = bin_texts(p.arena, g.providers);
    let spans = key_runs(bins);
    let keys = keys_of(p);
    lemma_prepared(list);
    assert forall|h: int| 0 <= h < spans.len() implies sorted_keys(bins)[(#[trigger] spans[h]).start as int]
        != command by {
        assert(keys[h] == sorted_keys(bins)[spans[h].start as int]);
    }
    lemma_no_run_no_providers(p.arena, g.providers, names, command);
}

/// The index file of a listing is read back as the sorted records, the
/// perfect hash of the names of their runs, and the arena.
proof fn lemma_built_file(list: Seq<u8>, key: HashKey)
    requires
        spec_index(list, key) is Ok,
    ensures
        ({
            let p = prepare(list).unwrap();
            let found = solve(key_hashes(keys_of(p), key)).unwrap();
            &&& prepare(list) is Ok
            &&& solve(key_hashes(keys_of(p), key)) is Some
            &&& parse_file(spec_index(list, key).unwrap()) == Ok::<Contents, Error>(
                contents(p, key, found.0, found.1),
            )
            &&& is_whole(spec_index(list, key).unwrap())
        }),
{
    let g = gather(lines_of(list)).unwrap();
    let p = prepare(list).unwrap();
    let bins = bin_texts(p.arena, g.providers);
    let keys = keys_of(p);
    let hashes = key_hashes(keys, key);
    let (disps, map) = solve(hashes).unwrap();
    let c = contents(p, key, disps, map);
    lemma_prepared(list);
    lemma_solution_is_perfect(hashes);
    assert(p.spans.len() <= g.providers.len()) by {
        crate::index::lemma_group_spans(sorted_keys(bins), g.providers.len());
    }
    assert(p.providers.len() == g.providers.len());
    assert(fits_format(c));
    lemma_parse_file_bytes(c);
    lemma_file_bytes_whole(c);
}

/// The index file of a listing is one that a reader accepts, and it ends
/// where its last section ends: cut short, it is corrupt.
pub proof fn lemma_index_is_whole(list: Seq<u8>, key: HashKey)
    requires
        spec_index(list, key) is Ok,
    ensures
        is_whole(spec_index(list, key).unwrap()),
{
    lemma_built_file(list, key);
}

/// Every record of an index file leads to four strings of the arena, each
/// with a newline behind it.
pub proof fn lemma_records_lead_to_strings(list: Seq<u8>, k: int)
    requires
        prepare(list) is Ok,
        0 <= k < prepare(list).unwrap().providers.len(),
    ensures
        names_of(prepare(list).unwrap().arena, prepare(list).unwrap().providers[k]) is Some,
{
    let g = gather(lines_of(list)).unwrap();
    let p = prepare(list).unwrap();
    lemma_prepared(list);
    lemma_bins_of_names(p.arena, g.providers, listed(lines_of(list)));
}

/// The records of an index file stand in ascending order of the names of
/// their executables.
pub proof fn lemma_records_ascend(list: Seq<u8>)
    requires
        prepare(list) is Ok,
    ensures
        ascending(bin_texts(prepare(list).unwrap().arena, prepare(list).unwrap().providers)),
{
    let g = gather(lines_of(list)).unwrap();
    let p = prepare(list).unwrap();
    lemma_prepared(list);
    lemma_bins_of_names(p.arena, g.providers, listed(lines_of(list)));
    lemma_sorted_keys_ascend(bin_texts(p.arena, g.providers));
}

/// The contents of the index file of a listing under a hash key.
pub open spec fn built(list: Seq<u8>, key: HashKey) -> Contents {
    let p = prepare(list).unwrap();
    let found = solve(key_hashes(keys_of(p), key)).unwrap();
    contents(p, key, found.0, found.1)
}

/// Where the slot of `command` leads to the run of `command`, the search
/// reports the lines of the listing that have it as their executable.
proof fn lemma_search_found(list: Seq<u8>, key: HashKey, command: Seq<u8>, run: int)
    requires
        prepare(list) is Ok,
        0 <= run < keys_of(prepare(list).unwrap()).len(),
        keys_of(prepare(list).unwrap())[run] == command,
        find_range(built(list, key), command) == Ok::<Option<Span>, Error>(
            Some(prepare(list).unwrap().spans[run]),
        ),
    ensures
        listed(lines_of(list)).filter(has_bin(command)).len() > 0,
        spec_search(built(list, key), command) == Ok::<Option<Seq<u8>>, Error>(
            Some(report(command, listed(lines_of(list)).filter(has_bin(command)))),
        ),
{
    lemma_run_of_key(list, run);
}

/// Where the slot of `command` leads to a run of another name, the search
/// finds nothing, and no line of the listing has `command` as its
/// executable.
proof fn lemma_search_not_found(list: Seq<u8>, key: HashKey, command: Seq<u8>)
    requires
        prepare(list) is Ok,
        find_range(built(list, key), command) == Ok::<Option<Span>, Error>(None),
        forall|h: int|
            0 <= h < keys_of(prepare(list).unwrap()).len() ==> #[trigger] keys_of(
                prepare(list).unwrap(),
            )[h] != command,
    ensures
        listed(lines_of(list)).filter(has_bin(command)).len() == 0,
        spec_search(built(list, key), command) == Ok::<Option<Seq<u8>>, Error>(None),
{
    lemma_no_key(list, command);
}

/// What a search finds in the contents that were built from a listing.
proof fn lemma_search_in_built(list: Seq<u8>, key: HashKey, command: Seq<u8>)
    requires
        prepare(list) is Ok,
        solve(key_hashes(keys_of(prepare(list).unwrap()), key)) is Some,
    ensures
        ({
            let group = listed(lines_of(list)).filter(has_bin(command));
            spec_search(built(list, key), command) == if group.len() == 0 {
                Ok::<Option<Seq<u8>>, Error>(None)
            } else {
                Ok::<Option<Seq<u8>>, Error>(Some(report(command, group)))
            }
        }),
{
    let p = prepare(list).unwrap();
    let keys = keys_of(p);
    lemma_prepared_runs(list);
    if keys.len() == 0 {
        assert(built(list, key).table.len() == 0) by {
            lemma_solution_is_perfect(key_hashes(keys, key));
        }
        lemma_search_not_found(list, key, command);
    } else {
        lemma_find_range(p, keys, key, command);
        lemma_run_of(keys, key, command);
        let run = run_of(keys, key, command);
        if keys[run] == command {
            lemma_search_found(list, key, command, run);
        } else {
            lemma_search_not_found(list, key, command);
        }
    }
}

/// A search in the index file that was built from a listing finds exactly
/// what the listing says: for a command that lines of the listing name as
/// their executable, the report on the strings of these lines, in their
/// order; for every other command, nothing.
pub proof fn lemma_search_finds_what_is_listed(list: Seq<u8>, key: HashKey, command: Seq<u8>)
    requires
        spec_index(list, key) is Ok,
    ensures
        ({
            let file = spec_index(list, key).unwrap();
            let group = listed(lines_of(list)).filter(has_bin(command));
            &&& parse_file(file) is Ok
            &&& spec_search(parse_file(file).unwrap(), command) == if group.len() == 0 {
                Ok::<Option<Seq<u8>>, Error>(None)
            } else {
                Ok::<Option<Seq<u8>>, Error>(Some(report(command, group)))
            }
        }),
{
    lemma_built_file(list, key);
    lemma_search_in_built(list, key, command);
}

} // verus!
