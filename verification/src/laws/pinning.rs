//! Pinning: the runtimes that a process has mapped, the search for others, and
//! the calls that lock memory.

use crate::host_pinning::ladder::{fresh, lemma_ladder_rungs, lemma_lines_behind, on_rung};
use crate::host_pinning::list_text;
use crate::host_pinning::register::{
    lemma_all_or_nothing, lemma_next_region, lemma_pin_accounts, locked, nonempty_places,
    phase_ok, pin_action, pin_after, pin_next, unpin_all, unpin_order_of, PinAction, PinPhase,
    PinRun,
};
use crate::host_pinning::resolve::{
    all_digits, candidate_views, candidates, decimal_value, empty_rung_text, file_name, is_digit,
    joined_with, lemma_scan, lines_from, mapped_runtime, next_blank_slash, next_index,
    probed_text, runtime_name, scan_mapped_runtimes, soname_texts, symbol_text, texts,
    without_deleted, without_return, Candidate, LadderWalk, OpenEvent, OpenStep, Rung,
    SYMBOL_COUNT,
};
use crate::host_pinning::wheels::{
    entry_views, major_of, search_wheel_roots, DirEntry, SearchView, WheelSearch,
};
use crate::host_pinning::{Region, CUDA_SUCCESS};
use crate::laws::runtimes::{lemma_file_name, lemma_major_is_number};
use vstd::prelude::*;

verus! {

/// The lines of a text: what stands before a line feed is the first, without a
/// carriage return at its end, and what follows has the others; without a line
/// feed it is all one line.
pub proof fn lemma_lines(line: Seq<char>, rest: Seq<char>)
    requires
        !line.contains('\n'),
    ensures
        lines_from(line + seq!['\n'] + rest, 0) == seq![without_return(line)] + lines_from(rest, 0),
        line.len() > 0 ==> lines_from(line, 0) == seq![line],
        lines_from(Seq::<char>::empty(), 0) == Seq::<Seq<char>>::empty(),
        without_return(line.push('\r')) == line,
        line.len() > 0 && line.last() != '\r' ==> without_return(line) == line,
        without_return(Seq::<char>::empty()) == Seq::<char>::empty(),
{
    let s = line + seq!['\n'] + rest;
    let n = line.len() as int;
    assert forall|k: int| 0 <= k < n implies #[trigger] s[k] != '\n' && line[k] != '\n' by {
        assert(line.contains(line[k]));
    }
    lemma_next_feed(s, 0, n);
    lemma_next_feed(line, 0, n);
    lemma_lines_behind(line + seq!['\n'], rest, 0);
    assert(s.subrange(0, n) =~= line);
    assert(line.subrange(0, n) =~= line);
    assert(line.push('\r').drop_last() =~= line);
}

/// The next line feed is the first one.
proof fn lemma_next_feed(s: Seq<char>, from: int, at: int)
    requires
        0 <= from <= at <= s.len(),
        forall|k: int| from <= k < at ==> s[k] != '\n',
        at < s.len() ==> s[at] == '\n',
    ensures
        next_index(s, '\n', from) == at,
    decreases at - from,
{
    if from < at {
        lemma_next_feed(s, from + 1, at);
    }
}

/// Whether a text has a blank before a slash at `k`.
pub open spec fn path_begins(s: Seq<char>, k: int) -> bool {
    0 <= k && k + 1 < s.len() && s[k] == ' ' && s[k + 1] == '/'
}

/// The first blank before a slash.
proof fn lemma_blank_slash_at(s: Seq<char>, from: int, at: int)
    requires
        0 <= from <= at,
        forall|k: int| from <= k < at ==> !path_begins(s, k),
        path_begins(s, at),
    ensures
        next_blank_slash(s, from) == Some(at),
    decreases at - from,
{
    if from < at {
        assert(!path_begins(s, from));
        lemma_blank_slash_at(s, from + 1, at);
    }
}

/// No blank before a slash.
proof fn lemma_no_blank_slash(s: Seq<char>, from: int)
    requires
        0 <= from,
        forall|k: int| from <= k ==> !path_begins(s, k),
    ensures
        next_blank_slash(s, from) is None,
    decreases s.len() - from,
{
    if from + 1 < s.len() {
        assert(!path_begins(s, from));
        lemma_no_blank_slash(s, from + 1);
    }
}

/// A line of the mappings of a process names the runtime whose path it ends
/// with, whether or not the file is marked as deleted; it names none if the
/// path is that of something else, or if there is no path.
pub proof fn lemma_mapped_line(fields: Seq<char>, path: Seq<char>)
    requires
        path.len() > 0 && path[0] == '/',
        forall|k: int| 0 <= k < fields.len() ==> !path_begins(fields + seq![' '] + path, k),
        !" (deleted)"@.is_suffix_of(fields + seq![' '] + path),
    ensures
        mapped_runtime(fields + seq![' '] + path) == if runtime_name(file_name(path)) {
            Some(path)
        } else {
            None
        },
        mapped_runtime(fields + seq![' '] + path + " (deleted)"@) == mapped_runtime(
            fields + seq![' '] + path,
        ),
{
    let line = fields + seq![' '] + path;
    let at = fields.len() as int;
    assert(line[at] == ' ' && line[at + 1] == path[0]);
    assert(path_begins(line, at));
    lemma_blank_slash_at(line, 0, at);
    assert(line.skip(at + 1) =~= path);
    let marked = line + " (deleted)"@;
    assert(marked.subrange(
        marked.len() - " (deleted)"@.len(),
        marked.len() as int,
    ) =~= " (deleted)"@);
    assert(" (deleted)"@.is_suffix_of(marked));
    assert(marked.take(marked.len() - " (deleted)"@.len()) =~= line);
    assert(without_deleted(marked) == line);
}

/// A line without a path names no runtime.
pub proof fn lemma_line_without_path(line: Seq<char>)
    requires
        forall|k: int| !path_begins(line, k),
    ensures
        mapped_runtime(line) is None,
{
    let l = without_deleted(line);
    assert forall|k: int| 0 <= k implies !path_begins(l, k) by {
        assert(!path_begins(line, k));
    }
    lemma_no_blank_slash(l, 0);
}

/// Whether an entry of a directory is a runtime.
pub open spec fn is_runtime_entry() -> spec_fn((Seq<char>, bool)) -> bool {
    |entry: (Seq<char>, bool)| !entry.1 && runtime_name(file_name(entry.0))
}

/// Whether an entry of a directory is a directory itself.
pub open spec fn is_dir_entry() -> spec_fn((Seq<char>, bool)) -> bool {
    |entry: (Seq<char>, bool)| entry.1
}

/// The path of an entry.
pub open spec fn entry_path() -> spec_fn((Seq<char>, bool)) -> Seq<char> {
    |entry: (Seq<char>, bool)| entry.0
}

/// A search takes note of every runtime in a directory, in order, and goes on
/// in every directory in it, as long as that is less than four deep.
pub proof fn lemma_entries(s: SearchView, depth: usize, entries: Seq<(Seq<char>, bool)>)
    ensures
        s.with_entries(depth, entries).found == s.found + entries.filter(
            is_runtime_entry(),
        ).map_values(entry_path()),
        depth < 3 ==> s.with_entries(depth, entries).frontier == s.frontier + entries.filter(
            is_dir_entry(),
        ).map_values(|entry: (Seq<char>, bool)| (entry.0, (depth + 1) as usize)),
        depth >= 3 ==> s.with_entries(depth, entries).frontier == s.frontier,
    decreases entries.len(),
{
    reveal(Seq::filter);
    let deeper = |entry: (Seq<char>, bool)| (entry.0, (depth + 1) as usize);
    let runtimes = entries.filter(is_runtime_entry()).map_values(entry_path());
    let dirs = entries.filter(is_dir_entry()).map_values(deeper);
    let after = s.with_entries(depth, entries);
    if entries.len() == 0 {
        assert(s.found + runtimes =~= s.found);
        assert(s.frontier + dirs =~= s.frontier);
    } else {
        let fewer = entries.drop_last();
        let last = entries.last();
        lemma_entries(s, depth, fewer);
        let some_runtimes = fewer.filter(is_runtime_entry()).map_values(entry_path());
        let some_dirs = fewer.filter(is_dir_entry()).map_values(deeper);
        assert(runtimes =~= if is_runtime_entry()(last) {
            some_runtimes.push(last.0)
        } else {
            some_runtimes
        });
        assert(dirs =~= if last.1 {
            some_dirs.push((last.0, (depth + 1) as usize))
        } else {
            some_dirs
        });
        assert(after.found =~= s.found + runtimes);
        if depth < 3 {
            assert(after.frontier =~= s.frontier + dirs);
        }
    }
}

/// What a call leads to. Registering goes from each region that is not empty to
/// the next such; the first rejection is what a failed run reports, with its
/// region and its code; and unregistering starts at the first region and goes
/// on upwards.
pub proof fn lemma_pin_steps(regions: Seq<Region>, phase: PinPhase, code: i32)
    requires
        phase_ok(regions, phase),
        regions.len() <= usize::MAX,
    ensures
        locked(regions, PinPhase::Starting) == Set::<int>::empty(),
        match (phase, pin_next(regions, phase, code)) {
            (PinPhase::Starting, PinPhase::Registering { at: next }) => {
                &&& regions[next as int].len > 0
                &&& forall|k: int| 0 <= k < next ==> (#[trigger] regions[k]).len == 0
            },
            (PinPhase::Starting, PinPhase::Pinned) => forall|k: int|
                0 <= k < regions.len() ==> (#[trigger] regions[k]).len == 0,
            (PinPhase::Registering { at }, PinPhase::Registering { at: next }) => {
                &&& code == CUDA_SUCCESS
                &&& at < next
                &&& regions[next as int].len > 0
                &&& forall|k: int| at < k < next ==> (#[trigger] regions[k]).len == 0
            },
            (PinPhase::Registering { at }, PinPhase::Pinned) => code == CUDA_SUCCESS && forall|
                k: int,
            |
                at < k < regions.len() ==> (#[trigger] regions[k]).len == 0,
            (
                PinPhase::Registering { at },
                PinPhase::RollingBack { at: back, failed, code: first },
            ) => {
                &&& code != CUDA_SUCCESS
                &&& failed == at && first == code
                &&& regions[back as int].len > 0
                &&& forall|k: int| 0 <= k < back ==> (#[trigger] regions[k]).len == 0
            },
            (PinPhase::Registering { at }, PinPhase::Failed { failed, code: first }) => {
                &&& code != CUDA_SUCCESS
                &&& failed == at && first == code
            },
            (
                PinPhase::RollingBack { at, failed, code: first },
                PinPhase::RollingBack { at: next, failed: f, code: c },
            ) => at < next && f == failed && c == first,
            (
                PinPhase::RollingBack { at: _, failed, code: first },
                PinPhase::Failed { failed: f, code: c },
            ) => f == failed && c == first,
            (PinPhase::Pinned, PinPhase::Pinned) => true,
            (PinPhase::Failed { failed, code: first }, PinPhase::Failed { failed: f, code: c }) =>
                f == failed && c == first,
            _ => false,
        },
        pin_action(phase) is Initialise <==> phase is Starting,
        pin_action(phase) is Finish <==> phase is Pinned || phase is Failed,
        pin_action(phase) matches PinAction::Register { index } ==> regions[index as int].len > 0,
{
    let n = regions.len() as int;
    match phase {
        PinPhase::Starting => {
            lemma_next_region(regions, 0, n);
        },
        PinPhase::Registering { at } => {
            lemma_next_region(regions, at + 1, n);
            lemma_next_region(regions, 0, at as int);
        },
        PinPhase::RollingBack { at, failed, code: _ } => {
            lemma_next_region(regions, at + 1, failed as int);
        },
        PinPhase::Pinned => {},
        PinPhase::Failed { failed: _, code: _ } => {},
    }
}

/// How many more calls a run makes at most.
spec fn calls_left(regions: Seq<Region>, phase: PinPhase) -> int {
    match phase {
        PinPhase::Starting => 2 * regions.len() as int + 1,
        PinPhase::Registering { at } => 2 * regions.len() - at,
        PinPhase::RollingBack { at, failed: _, code: _ } => regions.len() - at,
        PinPhase::Pinned => 0,
        PinPhase::Failed { failed: _, code: _ } => 0,
    }
}

/// A run comes to an end, whatever the calls return: after one call to
/// initialise and at most two for each region.
pub proof fn lemma_pin_ends(regions: Seq<Region>, codes: Seq<i32>)
    requires
        regions.len() <= usize::MAX,
        codes.len() > 2 * regions.len(),
    ensures
        pin_after(regions, codes) is Pinned || pin_after(regions, codes) is Failed,
{
    lemma_calls_made(regions, codes);
}

/// Every call is one fewer to make.
proof fn lemma_calls_made(regions: Seq<Region>, codes: Seq<i32>)
    requires
        regions.len() <= usize::MAX,
    ensures
        phase_ok(regions, pin_after(regions, codes)),
        calls_left(regions, pin_after(regions, codes)) <= 0 || calls_left(
            regions,
            pin_after(regions, codes),
        ) + codes.len() <= 2 * regions.len() + 1,
    decreases codes.len(),
{
    lemma_all_or_nothing(regions, codes);
    if codes.len() > 0 {
        lemma_calls_made(regions, codes.drop_last());
        lemma_pin_steps(regions, pin_after(regions, codes.drop_last()), codes.last());
    }
}

/// What is unregistered in the end: every region that is not empty, once, from
/// the first on.
pub proof fn lemma_unpin_order(regions: Seq<Region>)
    requires
        regions.len() <= usize::MAX,
    ensures
        forall|k: int, l: int|
            0 <= k < l < unpin_order_of(regions).len() ==> #[trigger] unpin_order_of(regions)[k]
                < #[trigger] unpin_order_of(regions)[l],
        forall|i: usize| #[trigger]
            unpin_order_of(regions).contains(i) <==> i < regions.len() && regions[i as int].len
                > 0,
{
    lemma_places(regions, regions.len() as int);
}

/// The places of the regions that are not empty.
proof fn lemma_places(regions: Seq<Region>, upto: int)
    requires
        0 <= upto <= regions.len() <= usize::MAX,
    ensures
        forall|k: int, l: int|
            0 <= k < l < nonempty_places(regions, 0, upto).len() ==> #[trigger] nonempty_places(
                regions,
                0,
                upto,
            )[k] < #[trigger] nonempty_places(regions, 0, upto)[l],
        forall|i: usize| #[trigger]
            nonempty_places(regions, 0, upto).contains(i) <==> i < upto && regions[i as int].len
                > 0,
    decreases upto,
{
    let places = nonempty_places(regions, 0, upto);
    if upto > 0 {
        let before = nonempty_places(regions, 0, upto - 1);
        lemma_places(regions, upto - 1);
        let last = (upto - 1) as usize;
        if regions[upto - 1].len > 0 {
            assert forall|k: int, l: int| 0 <= k < l < places.len() implies #[trigger] places[k]
                < #[trigger] places[l] by {
                assert(before.contains(before[k]));
            }
            assert forall|i: usize| #[trigger] places.contains(i) <==> i < upto
                && regions[i as int].len > 0 by {
                assert(before.contains(i) <==> i < upto - 1 && regions[i as int].len > 0);
                if before.contains(i) {
                    let k = choose|k: int| 0 <= k < before.len() && before[k] == i;
                    assert(places[k] == i);
                }
                if i == last {
                    assert(places[before.len() as int] == i);
                }
                if places.contains(i) {
                    let k = choose|k: int| 0 <= k < places.len() && places[k] == i;
                    if k < before.len() {
                        assert(before[k] == i);
                    }
                }
            }
        } else {
            assert forall|i: usize| #[trigger] places.contains(i) <==> i < upto
                && regions[i as int].len > 0 by {
                assert(before.contains(i) <==> i < upto - 1 && regions[i as int].len > 0);
            }
        }
    } else {
        assert(places =~= Seq::<usize>::empty());
    }
}

/// A list has each of its lines, in order, on a line of its own.
pub proof fn lemma_list_text(first: Seq<Seq<char>>, then: Seq<Seq<char>>, line: Seq<char>)
    ensures
        list_text(seq![line]) == "\n  - "@ + line,
        list_text(first + then) == list_text(first) + list_text(then),
    decreases then.len(),
{
    assert(seq![line].drop_last() =~= Seq::<Seq<char>>::empty());
    assert(list_text(seq![line].drop_last()) =~= Seq::<char>::empty());
    assert(list_text(seq![line]) =~= "\n  - "@ + line);
    if then.len() == 0 {
        assert(first + then =~= first);
        assert(list_text(first) + list_text(then) =~= list_text(first));
    } else {
        lemma_list_text(first, then.drop_last(), line);
        assert((first + then).drop_last() =~= first + then.drop_last());
        assert(list_text(first + then) =~= list_text(first) + list_text(then));
    }
}

/// Texts that are joined stand in order, with the separator between any two of
/// them and nowhere else.
pub proof fn lemma_joined_with(
    first: Seq<Seq<char>>,
    then: Seq<Seq<char>>,
    part: Seq<char>,
    separator: Seq<char>,
)
    requires
        first.len() > 0,
        then.len() > 0,
    ensures
        joined_with(seq![part], separator) == part,
        joined_with(first + then, separator) == joined_with(first, separator) + separator
            + joined_with(then, separator),
    decreases then.len(),
{
    let both = first + then;
    let fewer = then.drop_last();
    if then.len() == 1 {
        assert(both.drop_last() =~= first);
    } else {
        lemma_joined_with(first, fewer, part, separator);
        assert(both.drop_last() =~= first + fewer);
        assert(joined_with(both, separator) =~= joined_with(first, separator) + separator
            + joined_with(then, separator));
    }
}

/// The line for a candidate that did not open begins with its name, ends with
/// the reason, and has the name of its rung between them. The line for an empty
/// rung says that there was none.
pub proof fn lemma_probe_lines(
    candidate: (Seq<char>, Rung),
    reason: Seq<char>,
    vendor_roots: Seq<Seq<char>>,
)
    ensures
        candidate.0.is_prefix_of(probed_text(candidate, reason)),
        reason.is_suffix_of(probed_text(candidate, reason)),
        probed_text(candidate, reason).len() == candidate.0.len()
            + candidate.1.label_text().len() + reason.len() + 5,
        probed_text(candidate, reason).subrange(
            candidate.0.len() as int + 2,
            candidate.0.len() as int + 2 + candidate.1.label_text().len(),
        ) == candidate.1.label_text(),
        "(none) ["@.is_prefix_of(empty_rung_text(candidate.1, vendor_roots)),
        empty_rung_text(candidate.1, vendor_roots).subrange(
            8,
            8int + candidate.1.label_text().len(),
        ) == candidate.1.label_text(),
{
    reveal_strlit(" [");
    reveal_strlit("]: ");
    reveal_strlit("(none) [");
    let line = probed_text(candidate, reason);
    let label = candidate.1.label_text();
    assert(candidate.0 =~= line.take(candidate.0.len() as int));
    assert(reason =~= line.subrange(line.len() - reason.len(), line.len() as int));
    let at = candidate.0.len() as int + 2;
    assert(line.subrange(at, at + label.len()) =~= label);
    let note = empty_rung_text(candidate.1, vendor_roots);
    assert("(none) ["@ =~= note.take(8));
    assert(note.subrange(8, 8int + label.len()) =~= label);
}

/// The rungs have different names, and so have the entry points.
pub proof fn lemma_names_apart(i: int, j: int)
    requires
        0 <= i < j < SYMBOL_COUNT,
    ensures
        Rung::AlreadyLoaded.label_text() != Rung::InstalledWheel.label_text(),
        Rung::InstalledWheel.label_text() != Rung::Soname.label_text(),
        Rung::AlreadyLoaded.label_text() != Rung::Soname.label_text(),
        symbol_text(i) != symbol_text(j),
{
    reveal_strlit("already-loaded scan");
    reveal_strlit("installed-wheel search");
    reveal_strlit("soname load");
    reveal_strlit("cudaHostRegister");
    reveal_strlit("cudaHostUnregister");
    reveal_strlit("cudaGetErrorName");
    reveal_strlit("cudaFree");
    assert(Rung::AlreadyLoaded.label_text().len() == 19);
    assert(Rung::InstalledWheel.label_text().len() == 22);
    assert(Rung::Soname.label_text().len() == 11);
    assert("cudaHostRegister"@.len() == 16);
    assert("cudaHostUnregister"@.len() == 18);
    assert("cudaGetErrorName"@.len() == 16);
    assert("cudaFree"@.len() == 8);
    assert("cudaHostRegister"@[4] == 'H');
    assert("cudaGetErrorName"@[4] == 'G');
}

/// The sonames are all those of runtimes. They come newest first, and the one
/// without a version last.
pub proof fn lemma_sonames_newest_first(i: int, j: int)
    requires
        0 <= i < j < soname_texts().len(),
    ensures
        major_of(soname_texts()[i]) > major_of(soname_texts()[j]),
        runtime_name(soname_texts()[i]) && runtime_name(soname_texts()[j]),
        soname_texts().last() == "libcudart.so"@,
{
    reveal_strlit("libcudart.so.");
    reveal_strlit("libcudart.so");
    reveal_strlit("libcudart.so.13");
    reveal_strlit("libcudart.so.12");
    let none = Seq::<char>::empty();
    assert("libcudart.so.13"@ =~= none + "libcudart.so."@ + none + seq!['1', '3'] + none);
    assert("libcudart.so.12"@ =~= none + "libcudart.so."@ + none + seq!['1', '2'] + none);
    lemma_two_digits('1', '3');
    lemma_two_digits('1', '2');
    lemma_major_is_number("libcudart.so.13"@, none, none, seq!['1', '3'], none);
    lemma_major_is_number("libcudart.so.12"@, none, none, seq!['1', '2'], none);
    lemma_file_name(none, "libcudart.so"@);
    assert(none + "libcudart.so"@ =~= "libcudart.so"@);
    assert(major_of("libcudart.so"@) == 0);
    assert("libcudart.so."@ =~= "libcudart.so.13"@.take(13));
    assert("libcudart.so."@ =~= "libcudart.so.12"@.take(13));
}

/// A number of two digits.
proof fn lemma_two_digits(a: char, b: char)
    requires
        is_digit(a),
        is_digit(b),
    ensures
        all_digits(seq![a, b]),
        decimal_value(seq![a, b]) == 10 * (a as int - 48) + (b as int - 48),
{
    assert(seq![a, b].drop_last() =~= seq![a]);
    assert(seq![a].drop_last() =~= Seq::<char>::empty());
    assert(decimal_value(seq![a].drop_last()) == 0);
    assert(decimal_value(seq![a]) == a as int - 48);
}

/// Whether `steps` are the steps to open a candidate, each the one that follows
/// the step before it when that came to the event of its place.
pub open spec fn opening(steps: Seq<OpenStep>, events: Seq<OpenEvent>) -> bool {
    &&& steps.len() == events.len() + 1
    &&& steps[0] is LoadPresent || steps[0] is Load
    &&& forall|i: int|
        0 <= i < events.len() ==> call_ensures(
            OpenStep::next,
            (#[trigger] steps[i], events[i]),
            steps[i + 1],
        )
}

/// A candidate is opened only when every entry point was found in it, in
/// order.
pub proof fn lemma_opened_has_symbols(
    steps: Seq<OpenStep>,
    events: Seq<OpenEvent>,
    index: usize,
)
    requires
        opening(steps, events),
        steps.last() is Opened,
        index < SYMBOL_COUNT,
    ensures
        exists|i: int|
            0 <= i < events.len() && (#[trigger] steps[i]) == (OpenStep::FindSymbol { index })
                && events[i] is Found,
{
    lemma_symbols_so_far(steps, events, index, events.len() as int);
}

/// Whether an entry point was found in the first `n` steps.
spec fn found_before(
    steps: Seq<OpenStep>,
    events: Seq<OpenEvent>,
    index: usize,
    n: int,
) -> bool {
    exists|i: int|
        0 <= i < n && (#[trigger] steps[i]) == (OpenStep::FindSymbol { index })
            && events[i] is Found
}

/// The entry points that were found in the course of opening a candidate.
proof fn lemma_symbols_so_far(
    steps: Seq<OpenStep>,
    events: Seq<OpenEvent>,
    index: usize,
    n: int,
)
    requires
        opening(steps, events),
        0 <= n <= events.len(),
        index < SYMBOL_COUNT,
    ensures
        steps[n] is Opened ==> found_before(steps, events, index, n),
        steps[n] matches OpenStep::FindSymbol { index: at } ==> at < SYMBOL_COUNT && (index < at
            ==> found_before(steps, events, index, n)),
    decreases n,
{
    if n > 0 {
        lemma_symbols_so_far(steps, events, index, n - 1);
        assert(call_ensures(OpenStep::next, (steps[n - 1], events[n - 1]), steps[n]));
    }
}

/// A scan finds a path if and only if a line of the mappings names it as a
/// runtime, and finds none twice.
pub proof fn lemma_scan_finds(maps: &str, r: Vec<String>, path: Seq<char>)
    requires
        call_ensures(scan_mapped_runtimes, (maps,), r),
    ensures
        texts(r@).contains(path) <==> exists|k: int|
            0 <= k < lines_from(maps@, 0).len() && mapped_runtime(
                #[trigger] lines_from(maps@, 0)[k],
            ) == Some(path),
        texts(r@).no_duplicates(),
{
    lemma_scan(Seq::empty(), lines_from(maps@, 0));
}

/// The candidates are the mapped runtimes as the scan lists them, then those of
/// wheels that are not among them, then the sonames.
pub proof fn lemma_candidates(
    maps: &str,
    wheel_libs: &Vec<String>,
    mapped: Vec<String>,
    r: Vec<Candidate>,
)
    requires
        call_ensures(scan_mapped_runtimes, (maps,), mapped),
        call_ensures(candidates, (maps, wheel_libs), r),
        forall|i: int|
            0 <= i < texts(wheel_libs@).len() ==> !soname_texts().contains(
                #[trigger] texts(wheel_libs@)[i],
            ),
    ensures
        candidate_views(r@) == on_rung(Rung::AlreadyLoaded, texts(mapped@)) + on_rung(
            Rung::InstalledWheel,
            fresh(texts(wheel_libs@), texts(mapped@)),
        ) + on_rung(
            Rung::Soname,
            seq!["libcudart.so.13"@, "libcudart.so.12"@, "libcudart.so"@],
        ),
{
    lemma_ladder_rungs(maps@, texts(wheel_libs@));
}

/// A search takes in every runtime and every directory of a directory that it
/// reads, and reads each directory that it has taken in once.
pub proof fn lemma_search_visits(
    search: &mut WheelSearch,
    depth: usize,
    entries: &Vec<DirEntry>,
    later: &mut WheelSearch,
    next: Option<(String, usize)>,
)
    requires
        call_ensures(WheelSearch::visit, (search, depth, entries), ()),
        call_ensures(WheelSearch::next_dir, (later,), next),
    ensures
        final(search)@.found == old(search)@.found + entry_views(entries@).filter(
            is_runtime_entry(),
        ).map_values(entry_path()),
        depth < 3 ==> final(search)@.frontier == old(search)@.frontier + entry_views(
            entries@,
        ).filter(is_dir_entry()).map_values(
            |entry: (Seq<char>, bool)| (entry.0, (depth + 1) as usize),
        ),
        depth >= 3 ==> final(search)@.frontier == old(search)@.frontier,
        next is None <==> old(later)@.frontier.len() == 0,
        next matches Some((dir, d)) ==> old(later)@.frontier == final(later)@.frontier.push(
            (dir@, d),
        ),
        final(later)@.found == old(later)@.found,
{
    lemma_entries(old(search)@, depth, entry_views(entries@));
    if let Some((dir, d)) = next {
        assert(old(later)@.frontier =~= final(later)@.frontier.push((dir@, d)));
    }
}

/// A search starts at every root.
pub proof fn lemma_search_starts(roots: &Vec<String>, search: WheelSearch, i: int)
    requires
        call_ensures(search_wheel_roots, (roots,), search),
        0 <= i < roots@.len(),
    ensures
        search@.found.len() == 0,
        search@.frontier.len() == roots@.len(),
        search@.frontier[i] == (roots@[i]@, 0usize),
{
}

/// Every call of a run is accounted for: a registration that succeeds locks its
/// region, one that fails is what the run reports, and an unregistration
/// unlocks its region.
pub proof fn lemma_pin_call(run: &mut PinRun, action: PinAction, code: i32)
    requires
        call_ensures(PinRun::action, (&*old(run),), action),
        call_ensures(PinRun::advance, (run, code), ()),
        old(run).wf(),
        old(run).region_seq().len() <= usize::MAX,
    ensures
        final(run).region_seq() == old(run).region_seq(),
        action matches PinAction::Register { index } ==> {
            let regions = old(run).region_seq();
            let before = locked(regions, old(run).phase_view());
            let after = locked(regions, final(run).phase_view());
            &&& regions[index as int].len > 0
            &&& !before.contains(index as int)
            &&& code == 0 ==> after == before.insert(index as int)
            &&& code != 0 ==> after == before
            &&& code != 0 ==> match final(run).phase_view() {
                PinPhase::RollingBack { at: _, failed, code: first } => failed == index && first
                    == code,
                PinPhase::Failed { failed, code: first } => failed == index && first == code,
                _ => false,
            }
        },
        action matches PinAction::Unregister { index } ==> {
            let regions = old(run).region_seq();
            let before = locked(regions, old(run).phase_view());
            &&& before.contains(index as int)
            &&& locked(regions, final(run).phase_view()) == before.remove(index as int)
        },
        action is Finish <==> old(run).phase_view() is Pinned || old(run).phase_view() is Failed,
{
    let (regions, phase) = (old(run).region_seq(), old(run).phase_view());
    old(run).lemma_phase();
    lemma_pin_accounts(regions, phase, code);
    lemma_pin_steps(regions, phase, code);
}

/// A path with a zero character in it cannot be opened. A bare soname is first
/// looked for among what the process has; anything else is loaded.
pub proof fn lemma_first_step(candidate: &Candidate, r: OpenStep)
    requires
        call_ensures(OpenStep::first, (candidate,), r),
    ensures
        r is Failed <==> candidate.name@.contains('\0'),
        r is LoadPresent <==> candidate.rung is Soname && !candidate.name@.contains('\0'),
        r is Load <==> !(candidate.rung is Soname) && !candidate.name@.contains('\0'),
{
}

/// A walk tries one candidate after the other, from the first on.
pub proof fn lemma_walk_goes_on(walk: &mut LadderWalk, reason: String, i: int)
    requires
        call_ensures(LadderWalk::failed, (walk, reason), ()),
        old(walk).reason_texts().len() == i,
        i + 1 < old(walk).ladder_view().len(),
    ensures
        forall|c: Option<&Candidate>| #[trigger]
            call_ensures(LadderWalk::current, (&*old(walk),), c) ==> c is Some && c->0@ == old(
                walk,
            ).ladder_view()[i],
        forall|c: Option<&Candidate>| #[trigger]
            call_ensures(LadderWalk::current, (&*final(walk),), c) ==> c is Some && c->0@ == old(
                walk,
            ).ladder_view()[i + 1],
{
}

/// Memory is unlocked before it is freed: every region that is not empty, once,
/// from the first on.
pub proof fn lemma_unpinned(regions: &Vec<Region>, r: Vec<usize>, i: usize)
    requires
        call_ensures(unpin_all, (regions,), r),
    ensures
        r@.contains(i) <==> i < regions@.len() && regions@[i as int].len > 0,
        forall|k: int, l: int| 0 <= k < l < r@.len() ==> #[trigger] r@[k] < #[trigger] r@[l],
{
    assert(regions@.len() == regions.len());
    lemma_unpin_order(regions@);
    assert(unpin_order_of(regions@).contains(i) == r@.contains(i));
}

} // verus!
