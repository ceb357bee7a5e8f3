//! What holds of the ladder as a whole: what is on it and in which order, what
//! more lines or the same packages again add to it, and where a walk up ends.

use crate::host_pinning::resolve::{
    empty_rung_text, found_in, found_with, ladder_of, lemma_ladder, lemma_next_index, lemma_scan,
    lines_from, mapped_runtime, next_blank_slash, next_index, on_ladder, probe_report,
    probed_text, rung_lines, rung_report, scanned, soname_texts, well_laddered, with_names,
    without_deleted, Rung,
};
use crate::host_pinning::wheels::{
    in_order, lemma_lib_order, lemma_placed_in_order, lemma_sorted_libs, lib_before, placed_in,
    search_start, sorted_libs, SearchView, WHEEL_SEARCH_DEPTH,
};
use vstd::prelude::*;

verus! {

/// The names that are not among `seen`, each where it comes first.
pub open spec fn fresh(names: Seq<Seq<char>>, seen: Seq<Seq<char>>) -> Seq<Seq<char>>
    decreases names.len(),
{
    if names.len() == 0 {
        Seq::empty()
    } else {
        let before = fresh(names.drop_last(), seen);
        if seen.contains(names.last()) || before.contains(names.last()) {
            before
        } else {
            before.push(names.last())
        }
    }
}

/// [`next_index`] looks at nothing beyond what it finds.
proof fn lemma_next_index_in_part(a: Seq<char>, b: Seq<char>, c: char, from: int)
    requires
        0 <= from <= a.len(),
        next_index(a, c, from) < a.len(),
    ensures
        next_index(a + b, c, from) == next_index(a, c, from),
    decreases a.len() - from,
{
    if from < a.len() && a[from] != c {
        lemma_next_index_in_part(a, b, c, from + 1);
    }
}

/// In what follows a text, [`next_index`] finds what it finds there alone.
proof fn lemma_next_index_behind(a: Seq<char>, b: Seq<char>, c: char, from: int)
    requires
        0 <= from <= b.len(),
    ensures
        next_index(a + b, c, a.len() + from) == a.len() + next_index(b, c, from),
    decreases b.len() - from,
{
    if from < b.len() && b[from] != c {
        lemma_next_index_behind(a, b, c, from + 1);
    }
}

/// The lines behind a text are those of what follows it.
pub(crate) proof fn lemma_lines_behind(a: Seq<char>, b: Seq<char>, from: int)
    requires
        0 <= from <= b.len(),
    ensures
        lines_from(a + b, a.len() + from) == lines_from(b, from),
    decreases b.len() - from,
{
    let s = a + b;
    if from < b.len() {
        lemma_next_index_behind(a, b, '\n', from);
        lemma_next_index(b, '\n', from);
        let end = next_index(b, '\n', from);
        if end < b.len() {
            lemma_lines_behind(a, b, end + 1);
            assert(s.subrange(a.len() + from, a.len() + end) =~= b.subrange(from, end));
        } else {
            assert(s.subrange(a.len() + from, s.len() as int) =~= b.subrange(
                from,
                b.len() as int,
            ));
        }
    }
}

/// If a text ends with its last line, what follows it starts a new one.
proof fn lemma_lines_of_both(a: Seq<char>, b: Seq<char>, from: int)
    requires
        0 <= from <= a.len(),
        a.len() == 0 || a.last() == '\n',
    ensures
        lines_from(a + b, from) == lines_from(a, from) + lines_from(b, 0),
    decreases a.len() - from,
{
    let s = a + b;
    if from == a.len() {
        lemma_lines_behind(a, b, 0);
        assert(lines_from(a, from) + lines_from(b, 0) =~= lines_from(b, 0));
    } else {
        lemma_next_index(a, '\n', from);
        lemma_found_before_end(a, '\n', from);
        lemma_next_index_in_part(a, b, '\n', from);
        let end = next_index(a, '\n', from);
        lemma_lines_of_both(a, b, end + 1);
        assert(s.subrange(from, end) =~= a.subrange(from, end));
        assert(lines_from(s, from) =~= lines_from(a, from) + lines_from(b, 0));
    }
}

/// [`next_index`] finds a character that the text ends with.
proof fn lemma_found_before_end(s: Seq<char>, c: char, from: int)
    requires
        0 <= from < s.len(),
        s.last() == c,
    ensures
        next_index(s, c, from) < s.len(),
    decreases s.len() - from,
{
    if s[from] != c {
        lemma_found_before_end(s, c, from + 1);
    }
}

/// Scanning lines and then others is scanning both.
proof fn lemma_found_in_both(
    found: Seq<Seq<char>>,
    first: Seq<Seq<char>>,
    then: Seq<Seq<char>>,
)
    ensures
        found_in(found, first + then) == found_in(found_in(found, first), then),
    decreases first.len(),
{
    if first.len() == 0 {
        assert(first + then =~= then);
    } else {
        lemma_found_in_both(found_with(found, first.first()), first.drop_first(), then);
        assert((first + then).first() == first.first());
        assert((first + then).drop_first() =~= first.drop_first() + then);
    }
}

/// Names that are new to those seen, after one more line, are those that were
/// new and the one that the line adds.
proof fn lemma_fresh_found(
    seen: Seq<Seq<char>>,
    found: Seq<Seq<char>>,
    lines: Seq<Seq<char>>,
)
    ensures
        found_in(seen + fresh(found, seen), lines) == seen + fresh(found_in(found, lines), seen),
    decreases lines.len(),
{
    if lines.len() > 0 {
        let line = lines.first();
        let next = found_with(found, line);
        let have = seen + fresh(found, seen);
        lemma_fresh_contains(found, seen);
        if let Some(path) = mapped_runtime(line) {
            lemma_contains_either(seen, fresh(found, seen), path);
            if !found.contains(path) {
                assert(next.drop_last() =~= found);
                assert(next.last() == path);
                if !seen.contains(path) {
                    assert(have.push(path) =~= seen + fresh(next, seen));
                }
            }
        }
        assert(found_with(have, line) == seen + fresh(next, seen));
        lemma_fresh_found(seen, next, lines.drop_first());
    }
}

/// What is in two sequences together is in one of them.
proof fn lemma_contains_either<A>(a: Seq<A>, b: Seq<A>, x: A)
    ensures
        (a + b).contains(x) <==> a.contains(x) || b.contains(x),
{
    if (a + b).contains(x) {
        let i = choose|i: int| 0 <= i < (a + b).len() && (a + b)[i] == x;
        if i < a.len() {
            assert(a[i] == x);
        } else {
            assert(b[i - a.len()] == x);
        }
    }
    if a.contains(x) {
        let i = choose|i: int| 0 <= i < a.len() && a[i] == x;
        assert((a + b)[i] == x);
    }
    if b.contains(x) {
        let i = choose|i: int| 0 <= i < b.len() && b[i] == x;
        assert((a + b)[a.len() + i] == x);
    }
}

/// What is new is what is there and was not seen; nothing is in it twice.
pub proof fn lemma_fresh_contains(names: Seq<Seq<char>>, seen: Seq<Seq<char>>)
    ensures
        forall|x: Seq<char>| #[trigger]
            fresh(names, seen).contains(x) <==> names.contains(x) && !seen.contains(x),
        fresh(names, seen).no_duplicates(),
    decreases names.len(),
{
    if names.len() > 0 {
        let rest = names.drop_last();
        let last = names.last();
        let before = fresh(rest, seen);
        lemma_fresh_contains(rest, seen);
        assert forall|x: Seq<char>| #[trigger]
            fresh(names, seen).contains(x) <==> names.contains(x) && !seen.contains(x) by {
            assert(rest.push(last) =~= names);
            lemma_contains_either(rest, seq![last], x);
            assert(rest + seq![last] =~= names);
            lemma_contains_either(before, seq![last], x);
            assert(before + seq![last] =~= before.push(last));
            assert(seq![last].contains(x) <==> x == last) by {
                assert(seq![last][0] == last);
            }
        }
    }
}

/// If no name is there twice, the new ones are those not seen, as they stand.
pub proof fn lemma_fresh_in_order(names: Seq<Seq<char>>, seen: Seq<Seq<char>>)
    requires
        names.no_duplicates(),
    ensures
        fresh(names, seen) == names.filter(|x: Seq<char>| !seen.contains(x)),
    decreases names.len(),
{
    reveal(Seq::filter);
    if names.len() > 0 {
        let rest = names.drop_last();
        lemma_fresh_in_order(rest, seen);
        lemma_fresh_contains(rest, seen);
        if rest.contains(names.last()) {
            let i = choose|i: int| 0 <= i < rest.len() && rest[i] == names.last();
            assert(names[i] == names[names.len() - 1]);
        }
    }
}

/// Scanning one text after another finds what the first names, and then what
/// the second names and the first does not. A text that is scanned again adds
/// nothing.
pub proof fn lemma_scan_of_both(a: Seq<char>, b: Seq<char>)
    requires
        a.len() == 0 || a.last() == '\n',
    ensures
        scanned(a + b) == scanned(a) + scanned(b).filter(
            |path: Seq<char>| !scanned(a).contains(path),
        ),
        scanned(a + a) == scanned(a),
{
    let none = Seq::<Seq<char>>::empty();
    lemma_scan_then(a, b);
    lemma_scan(none, lines_from(b, 0));
    lemma_fresh_in_order(scanned(b), scanned(a));
    lemma_scan_then(a, a);
    lemma_fresh_contains(scanned(a), scanned(a));
    let again = fresh(scanned(a), scanned(a));
    if again.len() > 0 {
        assert(again.contains(again[0]));
    }
    assert(scanned(a) + again =~= scanned(a));
}

/// Scanning one text after another adds what is new in the second.
proof fn lemma_scan_then(a: Seq<char>, b: Seq<char>)
    requires
        a.len() == 0 || a.last() == '\n',
    ensures
        scanned(a + b) == scanned(a) + fresh(scanned(b), scanned(a)),
{
    let none = Seq::<Seq<char>>::empty();
    lemma_lines_of_both(a, b, 0);
    lemma_found_in_both(none, lines_from(a, 0), lines_from(b, 0));
    lemma_fresh_found(scanned(a), none, lines_from(b, 0));
    assert(scanned(a) + fresh(none, scanned(a)) =~= scanned(a));
}

/// Names on a rung.
pub open spec fn on_rung(rung: Rung, names: Seq<Seq<char>>) -> Seq<(Seq<char>, Rung)> {
    Seq::new(names.len(), |i: int| (names[i], rung))
}

/// The names on a ladder.
pub open spec fn names_of(ladder: Seq<(Seq<char>, Rung)>) -> Seq<Seq<char>> {
    Seq::new(ladder.len(), |i: int| ladder[i].0)
}

/// More names of a rung go on the ladder behind what is there, those that are
/// new.
proof fn lemma_with_names_appends(
    ladder: Seq<(Seq<char>, Rung)>,
    rung: Rung,
    names: Seq<Seq<char>>,
)
    ensures
        with_names(ladder, rung, names) == ladder + on_rung(rung, fresh(names, names_of(ladder))),
    decreases names.len(),
{
    let seen = names_of(ladder);
    if names.len() == 0 {
        assert(ladder + on_rung(rung, fresh(names, seen)) =~= ladder);
    } else {
        let rest = names.drop_last();
        let last = names.last();
        let before = with_names(ladder, rung, rest);
        let new = fresh(rest, seen);
        lemma_with_names_appends(ladder, rung, rest);
        assert(names_of(before) =~= seen + new);
        lemma_contains_either(seen, new, last);
        assert(on_ladder(before, last) <==> names_of(before).contains(last)) by {
            if on_ladder(before, last) {
                let i = choose|i: int| 0 <= i < before.len() && (#[trigger] before[i]).0 == last;
                assert(names_of(before)[i] == last);
            }
            if names_of(before).contains(last) {
                let i = choose|i: int| 0 <= i < names_of(before).len() && names_of(before)[i]
                    == last;
                assert(before[i].0 == last);
            }
        }
        assert(with_names(ladder, rung, names) =~= ladder + on_rung(rung, fresh(names, seen)));
    }
}

/// A path that the scan finds is absolute.
proof fn lemma_scanned_absolute(maps: Seq<char>)
    ensures
        forall|i: int| 0 <= i < scanned(maps).len() ==> (#[trigger] scanned(maps)[i]).contains('/'),
{
    let lines = lines_from(maps, 0);
    lemma_scan(Seq::empty(), lines);
    assert forall|i: int| 0 <= i < scanned(maps).len() implies (#[trigger] scanned(
        maps,
    )[i]).contains('/') by {
        let path = scanned(maps)[i];
        assert(scanned(maps).contains(path));
        assert(!Seq::<Seq<char>>::empty().contains(path));
        let k = choose|k: int|
            0 <= k < lines.len() && mapped_runtime(#[trigger] lines[k]) == Some(path);
        let line = without_deleted(lines[k]);
        lemma_blank_slash(line, 0);
        let at = next_blank_slash(line, 0)->0;
        assert(line.skip(at + 1)[0] == '/');
    }
}

/// [`next_blank_slash`] finds what it looks for.
proof fn lemma_blank_slash(s: Seq<char>, from: int)
    requires
        0 <= from,
    ensures
        next_blank_slash(s, from) matches Some(at) ==> 0 <= at && at + 1 < s.len() && s[at + 1]
            == '/',
    decreases s.len() - from,
{
    if from + 1 < s.len() && !(s[from] == ' ' && s[from + 1] == '/') {
        lemma_blank_slash(s, from + 1);
    }
}

/// Sonames are no paths, and no two of them are the same.
proof fn lemma_sonames()
    ensures
        soname_texts().no_duplicates(),
        forall|i: int|
            0 <= i < soname_texts().len() ==> !(#[trigger] soname_texts()[i]).contains('/'),
{
    reveal_strlit("libcudart.so.13");
    reveal_strlit("libcudart.so.12");
    reveal_strlit("libcudart.so");
    let names = soname_texts();
    assert(names[0][14] == '3' && names[1][14] == '2');
    assert(names[0].len() == 15 && names[1].len() == 15 && names[2].len() == 12);
    assert(names[0] != names[1]);
}

/// The ladder, rung by rung: first the mapped runtimes, exactly as the scan
/// lists them; then the runtimes of wheels in their order, without what is
/// there already; and last the three sonames. A wheel's runtime is given by its
/// path, which is no bare soname.
pub proof fn lemma_ladder_rungs(maps: Seq<char>, wheel_libs: Seq<Seq<char>>)
    requires
        forall|i: int|
            0 <= i < wheel_libs.len() ==> !soname_texts().contains(#[trigger] wheel_libs[i]),
    ensures
        ladder_of(maps, wheel_libs) == on_rung(Rung::AlreadyLoaded, scanned(maps)) + on_rung(
            Rung::InstalledWheel,
            fresh(wheel_libs, scanned(maps)),
        ) + on_rung(Rung::Soname, soname_texts()),
{
    let none = Seq::<(Seq<char>, Rung)>::empty();
    let no_names = Seq::<Seq<char>>::empty();
    let mapped = scanned(maps);
    let one = with_names(none, Rung::AlreadyLoaded, mapped);
    let two = with_names(one, Rung::InstalledWheel, wheel_libs);
    lemma_with_names_appends(none, Rung::AlreadyLoaded, mapped);
    assert(names_of(none) =~= no_names);
    lemma_scan(no_names, lines_from(maps, 0));
    lemma_all_fresh(mapped, no_names);
    assert(one =~= on_rung(Rung::AlreadyLoaded, mapped));
    lemma_with_names_appends(one, Rung::InstalledWheel, wheel_libs);
    assert(names_of(one) =~= mapped);
    lemma_with_names_appends(two, Rung::Soname, soname_texts());
    let wheels = fresh(wheel_libs, mapped);
    assert(names_of(two) =~= mapped + wheels);
    lemma_sonames();
    lemma_scanned_absolute(maps);
    lemma_fresh_contains(wheel_libs, mapped);
    assert forall|x: Seq<char>| #[trigger] soname_texts().contains(x) implies !names_of(
        two,
    ).contains(x) by {
        let k = choose|k: int| 0 <= k < soname_texts().len() && soname_texts()[k] == x;
        assert(!soname_texts()[k].contains('/'));
        lemma_contains_either(mapped, wheels, x);
        if mapped.contains(x) {
            let i = choose|i: int| 0 <= i < mapped.len() && mapped[i] == x;
            assert(mapped[i].contains('/'));
        }
        if wheels.contains(x) {
            assert(wheel_libs.contains(x));
            let i = choose|i: int| 0 <= i < wheel_libs.len() && wheel_libs[i] == x;
            assert(!soname_texts().contains(wheel_libs[i]));
        }
    }
    lemma_all_fresh(soname_texts(), names_of(two));
}

/// Names that are all new stay as they stand.
proof fn lemma_all_fresh(names: Seq<Seq<char>>, seen: Seq<Seq<char>>)
    requires
        names.no_duplicates(),
        forall|x: Seq<char>| #[trigger] names.contains(x) ==> !seen.contains(x),
    ensures
        fresh(names, seen) == names,
    decreases names.len(),
{
    if names.len() > 0 {
        let rest = names.drop_last();
        let last = names.last();
        assert(names[names.len() - 1] == last);
        assert(names.contains(last));
        assert forall|x: Seq<char>| #[trigger] rest.contains(x) implies !seen.contains(x) by {
            let i = choose|i: int| 0 <= i < rest.len() && rest[i] == x;
            assert(names[i] == x);
            assert(names.contains(x));
        }
        lemma_all_fresh(rest, seen);
        if rest.contains(last) {
            let i = choose|i: int| 0 <= i < rest.len() && rest[i] == last;
            assert(names[i] == names[names.len() - 1]);
        }
        assert(rest.push(last) =~= names);
    } else {
        assert(fresh(names, seen) =~= names);
    }
}

/// Where a walk up the ladder ends.
pub enum WalkEnd {
    /// At a candidate that opened.
    Opened { index: int },
    /// At the top, with what is to be reported.
    Failed { probed: Seq<Seq<char>> },
}

/// Where a walk ends that has failed so far for `reasons`, one for each
/// candidate tried. `outcomes` says of each candidate why it does not open, or
/// `None` if it does.
pub open spec fn walk_end(
    ladder: Seq<(Seq<char>, Rung)>,
    vendor_roots: Seq<Seq<char>>,
    outcomes: Seq<Option<Seq<char>>>,
    reasons: Seq<Seq<char>>,
) -> WalkEnd
    decreases ladder.len() - reasons.len(),
{
    if reasons.len() >= ladder.len() {
        WalkEnd::Failed { probed: probe_report(ladder, reasons, vendor_roots) }
    } else {
        match outcomes[reasons.len() as int] {
            None => WalkEnd::Opened { index: reasons.len() as int },
            Some(reason) => walk_end(ladder, vendor_roots, outcomes, reasons.push(reason)),
        }
    }
}

/// Whether a rung has no candidate.
pub open spec fn rung_empty(ladder: Seq<(Seq<char>, Rung)>, rung: Rung) -> bool {
    forall|i: int| 0 <= i < ladder.len() ==> (#[trigger] ladder[i]).1 != rung
}

/// The lines on the candidates, in ladder order.
pub open spec fn candidate_lines(
    ladder: Seq<(Seq<char>, Rung)>,
    reasons: Seq<Seq<char>>,
) -> Seq<Seq<char>> {
    Seq::new(ladder.len(), |i: int| probed_text(ladder[i], reasons[i]))
}

/// One for a rung without candidates, zero for another.
pub open spec fn empty_count(ladder: Seq<(Seq<char>, Rung)>, rung: Rung) -> nat {
    if rung_empty(ladder, rung) {
        1
    } else {
        0
    }
}

/// The line on a rung without candidates; nothing for another rung.
pub open spec fn empty_lines(
    ladder: Seq<(Seq<char>, Rung)>,
    rung: Rung,
    vendor_roots: Seq<Seq<char>>,
) -> Seq<Seq<char>> {
    if rung_empty(ladder, rung) {
        seq![empty_rung_text(rung, vendor_roots)]
    } else {
        Seq::empty()
    }
}

/// There is no line on a rung without candidates, and one on another.
proof fn lemma_rung_lines(rung: Rung, ladder: Seq<(Seq<char>, Rung)>, reasons: Seq<Seq<char>>)
    ensures
        rung_lines(rung, ladder, reasons).len() == 0 <==> rung_empty(ladder, rung),
    decreases ladder.len(),
{
    if ladder.len() > 0 {
        let rest = ladder.drop_last();
        lemma_rung_lines(rung, rest, reasons);
        assert(ladder[ladder.len() - 1] == ladder.last());
        if rung_empty(ladder, rung) {
            assert forall|i: int| 0 <= i < rest.len() implies (#[trigger] rest[i]).1 != rung by {
                assert(ladder[i].1 != rung);
            }
        }
        if ladder.last().1 != rung && rung_empty(rest, rung) {
            assert forall|i: int| 0 <= i < ladder.len() implies (#[trigger] ladder[i]).1
                != rung by {
                if i < rest.len() {
                    assert(rest[i].1 != rung);
                }
            }
        }
    }
}

/// Where rungs stand in order, the lines rung by rung are the lines in ladder
/// order.
proof fn lemma_lines_in_order(ladder: Seq<(Seq<char>, Rung)>, reasons: Seq<Seq<char>>)
    requires
        well_laddered(ladder),
    ensures
        rung_lines(Rung::AlreadyLoaded, ladder, reasons) + rung_lines(
            Rung::InstalledWheel,
            ladder,
            reasons,
        ) + rung_lines(Rung::Soname, ladder, reasons) == candidate_lines(ladder, reasons),
    decreases ladder.len(),
{
    let one = rung_lines(Rung::AlreadyLoaded, ladder, reasons);
    let two = rung_lines(Rung::InstalledWheel, ladder, reasons);
    let three = rung_lines(Rung::Soname, ladder, reasons);
    if ladder.len() == 0 {
        assert(one + two + three =~= candidate_lines(ladder, reasons));
    } else {
        let rest = ladder.drop_last();
        let last = ladder.last();
        assert(ladder[ladder.len() - 1] == last);
        assert(well_laddered(rest)) by {
            assert forall|i: int, j: int| 0 <= i < j < rest.len() implies (#[trigger] rest[i]).0
                != (#[trigger] rest[j]).0 by {
                assert(ladder[i].0 != ladder[j].0);
            }
            assert forall|i: int, j: int| 0 <= i < j < rest.len() implies (
            #[trigger] rest[i]).1.rank() <= (#[trigger] rest[j]).1.rank() by {
                assert(ladder[i].1.rank() <= ladder[j].1.rank());
            }
        }
        lemma_lines_in_order(rest, reasons);
        lemma_rung_lines(Rung::InstalledWheel, rest, reasons);
        lemma_rung_lines(Rung::Soname, rest, reasons);
        assert forall|i: int| 0 <= i < rest.len() implies (#[trigger] rest[i]).1.rank()
            <= last.1.rank() by {
            assert(ladder[i].1.rank() <= ladder[ladder.len() - 1].1.rank());
        }
        match last.1 {
            Rung::AlreadyLoaded => {
                assert(rung_empty(rest, Rung::InstalledWheel));
                assert(rung_empty(rest, Rung::Soname));
            },
            Rung::InstalledWheel => {
                assert(rung_empty(rest, Rung::Soname));
            },
            Rung::Soname => {},
        }
        let line = probed_text(last, reasons[ladder.len() - 1]);
        assert(candidate_lines(ladder, reasons) =~= candidate_lines(rest, reasons).push(line));
        assert(one + two + three =~= candidate_lines(rest, reasons).push(line));
    }
}

/// A walk goes on where it is as it would from the bottom.
proof fn lemma_walk_from(
    ladder: Seq<(Seq<char>, Rung)>,
    vendor_roots: Seq<Seq<char>>,
    outcomes: Seq<Option<Seq<char>>>,
    reasons: Seq<Seq<char>>,
)
    requires
        outcomes.len() == ladder.len(),
        reasons.len() <= ladder.len(),
        forall|i: int| 0 <= i < reasons.len() ==> #[trigger] outcomes[i] == Some(reasons[i]),
    ensures
        match walk_end(ladder, vendor_roots, outcomes, reasons) {
            WalkEnd::Opened { index } => {
                &&& 0 <= index < ladder.len()
                &&& outcomes[index] is None
                &&& forall|i: int| 0 <= i < index ==> #[trigger] outcomes[i] is Some
            },
            WalkEnd::Failed { probed } => {
                &&& forall|i: int| 0 <= i < outcomes.len() ==> #[trigger] outcomes[i] is Some
                &&& probed == probe_report(
                    ladder,
                    Seq::new(outcomes.len(), |i: int| outcomes[i]->0),
                    vendor_roots,
                )
            },
        },
    decreases ladder.len() - reasons.len(),
{
    if reasons.len() >= ladder.len() {
        assert(reasons =~= Seq::new(outcomes.len(), |i: int| outcomes[i]->0));
    } else if let Some(reason) = outcomes[reasons.len() as int] {
        let more = reasons.push(reason);
        assert forall|i: int| 0 <= i < more.len() implies #[trigger] outcomes[i] == Some(
            more[i],
        ) by {
            if i < reasons.len() {
                assert(outcomes[i] == Some(reasons[i]));
            }
        }
        lemma_walk_from(ladder, vendor_roots, outcomes, more);
    }
}

/// A walk up the whole ladder takes the first candidate that opens, and tries
/// none behind it. If none opens it reports one line for each candidate and one
/// for each rung without any, in ladder order.
pub proof fn lemma_walk(
    maps: Seq<char>,
    wheel_libs: Seq<Seq<char>>,
    vendor_roots: Seq<Seq<char>>,
    outcomes: Seq<Option<Seq<char>>>,
)
    requires
        outcomes.len() == ladder_of(maps, wheel_libs).len(),
    ensures
        ({
            let ladder = ladder_of(maps, wheel_libs);
            let reasons = Seq::new(outcomes.len(), |i: int| outcomes[i]->0);
            let one = rung_lines(Rung::AlreadyLoaded, ladder, reasons);
            let two = rung_lines(Rung::InstalledWheel, ladder, reasons);
            let three = rung_lines(Rung::Soname, ladder, reasons);
            match walk_end(ladder, vendor_roots, outcomes, Seq::empty()) {
                WalkEnd::Opened { index } => {
                    &&& 0 <= index < ladder.len()
                    &&& outcomes[index] is None
                    &&& forall|i: int| 0 <= i < index ==> #[trigger] outcomes[i] is Some
                },
                WalkEnd::Failed { probed } => {
                    &&& forall|i: int| 0 <= i < outcomes.len() ==> #[trigger] outcomes[i] is Some
                    &&& one + two + three == candidate_lines(ladder, reasons)
                    &&& probed == one + empty_lines(ladder, Rung::AlreadyLoaded, vendor_roots)
                        + two + empty_lines(ladder, Rung::InstalledWheel, vendor_roots) + three
                        + empty_lines(ladder, Rung::Soname, vendor_roots)
                    &&& probed.len() == ladder.len() + empty_count(ladder, Rung::AlreadyLoaded)
                        + empty_count(ladder, Rung::InstalledWheel) + empty_count(
                        ladder,
                        Rung::Soname,
                    )
                },
            }
        }),
{
    let ladder = ladder_of(maps, wheel_libs);
    let reasons = Seq::new(outcomes.len(), |i: int| outcomes[i]->0);
    lemma_ladder(maps, wheel_libs);
    lemma_walk_from(ladder, vendor_roots, outcomes, Seq::empty());
    lemma_lines_in_order(ladder, reasons);
    lemma_rung_report(Rung::AlreadyLoaded, ladder, reasons, vendor_roots);
    lemma_rung_report(Rung::InstalledWheel, ladder, reasons, vendor_roots);
    lemma_rung_report(Rung::Soname, ladder, reasons, vendor_roots);
    let one = rung_lines(Rung::AlreadyLoaded, ladder, reasons);
    let two = rung_lines(Rung::InstalledWheel, ladder, reasons);
    let three = rung_lines(Rung::Soname, ladder, reasons);
    assert(probe_report(ladder, reasons, vendor_roots) =~= one + empty_lines(
        ladder,
        Rung::AlreadyLoaded,
        vendor_roots,
    ) + two + empty_lines(ladder, Rung::InstalledWheel, vendor_roots) + three + empty_lines(
        ladder,
        Rung::Soname,
        vendor_roots,
    ));
    assert((one + two + three).len() == ladder.len());
}

/// What is said of a rung: its lines, or that it had none.
proof fn lemma_rung_report(
    rung: Rung,
    ladder: Seq<(Seq<char>, Rung)>,
    reasons: Seq<Seq<char>>,
    vendor_roots: Seq<Seq<char>>,
)
    ensures
        rung_report(rung, ladder, reasons, vendor_roots) == rung_lines(rung, ladder, reasons)
            + empty_lines(ladder, rung, vendor_roots),
{
    lemma_rung_lines(rung, ladder, reasons);
    assert(rung_report(rung, ladder, reasons, vendor_roots) =~= rung_lines(rung, ladder, reasons)
        + empty_lines(ladder, rung, vendor_roots));
}

/// The entries of every directory of a file tree.
pub type Tree = spec_fn(Seq<char>) -> Seq<(Seq<char>, bool)>;

/// A search after one more directory was read.
pub open spec fn search_next(tree: Tree, s: SearchView) -> SearchView {
    if s.frontier.len() == 0 {
        s
    } else {
        let (dir, depth) = s.frontier.last();
        SearchView { frontier: s.frontier.drop_last(), ..s }.with_entries(depth, tree(dir))
    }
}

/// A search after `n` more directories were read.
pub open spec fn search_after(tree: Tree, s: SearchView, n: nat) -> SearchView
    decreases n,
{
    if n == 0 {
        s
    } else {
        search_next(tree, search_after(tree, s, (n - 1) as nat))
    }
}

/// Whether the search is over after `n` directories, and not before.
pub open spec fn search_ends(tree: Tree, s: SearchView, n: nat) -> bool {
    &&& search_after(tree, s, n).frontier.len() == 0
    &&& forall|m: nat| m < n ==> #[trigger] search_after(tree, s, m).frontier.len() > 0
}

/// A search on top of another one: the other's directories stay below, what it
/// found stays in front.
pub open spec fn on_top(below: SearchView, s: SearchView) -> SearchView {
    SearchView { frontier: below.frontier + s.frontier, found: below.found + s.found }
}

/// Entries go on top.
proof fn lemma_entries_on_top(
    below: SearchView,
    s: SearchView,
    depth: usize,
    entries: Seq<(Seq<char>, bool)>,
)
    ensures
        on_top(below, s).with_entries(depth, entries) == on_top(
            below,
            s.with_entries(depth, entries),
        ),
    decreases entries.len(),
{
    if entries.len() > 0 {
        let rest = entries.drop_last();
        lemma_entries_on_top(below, s, depth, rest);
        let mid = s.with_entries(depth, rest);
        assert(on_top(below, mid).with_entry(depth, entries.last()) =~= on_top(
            below,
            mid.with_entry(depth, entries.last()),
        ));
    }
}

/// Until the search on top is over, what is below does not matter.
proof fn lemma_search_on_top(tree: Tree, below: SearchView, s: SearchView, n: nat)
    requires
        forall|m: nat| m < n ==> #[trigger] search_after(tree, s, m).frontier.len() > 0,
    ensures
        search_after(tree, on_top(below, s), n) == on_top(below, search_after(tree, s, n)),
    decreases n,
{
    if n > 0 {
        let fewer = (n - 1) as nat;
        assert forall|m: nat| m < fewer implies #[trigger] search_after(
            tree,
            s,
            m,
        ).frontier.len() > 0 by {
            assert(m < n);
        }
        lemma_search_on_top(tree, below, s, fewer);
        let mid = search_after(tree, s, fewer);
        let both = on_top(below, mid);
        assert(mid.frontier.len() > 0);
        let (dir, depth) = mid.frontier.last();
        assert(both.frontier.last() == (dir, depth));
        let popped = SearchView { frontier: mid.frontier.drop_last(), ..mid };
        assert((SearchView { frontier: both.frontier.drop_last(), ..both }) =~= on_top(
            below,
            popped,
        ));
        lemma_entries_on_top(below, popped, depth, tree(dir));
    }
}

/// Reading on is reading more.
proof fn lemma_search_after_both(tree: Tree, s: SearchView, n: nat, m: nat)
    ensures
        search_after(tree, search_after(tree, s, n), m) == search_after(tree, s, n + m),
    decreases m,
{
    if m > 0 {
        lemma_search_after_both(tree, s, n, (m - 1) as nat);
    }
}

/// A search on top that ends, and then the one below.
proof fn lemma_search_both(
    tree: Tree,
    below: SearchView,
    s: SearchView,
    n: nat,
    m: nat,
)
    requires
        search_ends(tree, s, n),
        search_ends(
            tree,
            SearchView { found: below.found + search_after(tree, s, n).found, ..below },
            m,
        ),
    ensures
        search_ends(tree, on_top(below, s), n + m),
        search_after(tree, on_top(below, s), n + m) == search_after(
            tree,
            SearchView { found: below.found + search_after(tree, s, n).found, ..below },
            m,
        ),
{
    let both = on_top(below, s);
    let then = SearchView { found: below.found + search_after(tree, s, n).found, ..below };
    lemma_search_on_top(tree, below, s, n);
    assert(search_after(tree, both, n) =~= then);
    lemma_search_after_both(tree, both, n, m);
    assert forall|k: nat| k < n + m implies #[trigger] search_after(tree, both, k).frontier.len()
        > 0 by {
        if k < n {
            assert forall|l: nat| l < k implies #[trigger] search_after(tree, s, l).frontier.len()
                > 0 by {
                assert(l < n);
            }
            lemma_search_on_top(tree, below, s, k);
            assert(search_after(tree, s, k).frontier.len() > 0);
        } else {
            let rest = (k - n) as nat;
            lemma_search_after_both(tree, both, n, rest);
            assert(search_after(tree, then, rest).frontier.len() > 0);
        }
    }
}

/// What a search has found does not change how it goes on.
proof fn lemma_search_found(tree: Tree, s: SearchView, found: Seq<Seq<char>>, n: nat)
    requires
        search_ends(tree, s, n),
    ensures
        search_ends(tree, SearchView { found: found + s.found, ..s }, n),
        search_after(tree, SearchView { found: found + s.found, ..s }, n).found == found
            + search_after(tree, s, n).found,
{
    let below = SearchView { frontier: Seq::empty(), found };
    let more = SearchView { found: found + s.found, ..s };
    assert(on_top(below, s) =~= more);
    lemma_search_on_top(tree, below, s, n);
    assert forall|m: nat| m < n implies #[trigger] search_after(tree, more, m).frontier.len()
        > 0 by {
        assert forall|l: nat| l < m implies #[trigger] search_after(tree, s, l).frontier.len()
            > 0 by {
            assert(l < n);
        }
        lemma_search_on_top(tree, below, s, m);
        assert(search_after(tree, s, m).frontier.len() > 0);
    }
}

/// The search beneath directories at one depth ends.
proof fn lemma_level_ends(tree: Tree, s: SearchView, depth: usize)
    requires
        depth < WHEEL_SEARCH_DEPTH,
        forall|i: int| 0 <= i < s.frontier.len() ==> (#[trigger] s.frontier[i]).1 == depth,
    ensures
        exists|n: nat| search_ends(tree, s, n),
    decreases WHEEL_SEARCH_DEPTH - depth, s.frontier.len() + 1,
{
    if s.frontier.len() == 0 {
        assert(search_after(tree, s, 0) == s);
        assert(search_ends(tree, s, 0));
    } else {
        let (dir, _) = s.frontier.last();
        let below = SearchView { frontier: s.frontier.drop_last(), found: s.found };
        let top = SearchView { frontier: seq![(dir, depth)], found: Seq::empty() };
        assert(s.frontier[s.frontier.len() - 1].1 == depth);
        assert(on_top(below, top) =~= s);
        lemma_dir_ends(tree, dir, depth);
        let n = choose|n: nat| search_ends(tree, top, n);
        let then = SearchView {
            found: below.found + search_after(tree, top, n).found,
            ..below
        };
        assert forall|i: int| 0 <= i < then.frontier.len() implies (
        #[trigger] then.frontier[i]).1 == depth by {
            assert(s.frontier[i].1 == depth);
        }
        lemma_level_ends(tree, then, depth);
        let m = choose|m: nat| search_ends(tree, then, m);
        lemma_search_both(tree, below, top, n, m);
        assert(search_ends(tree, s, n + m));
    }
}

/// The search beneath one directory ends.
proof fn lemma_dir_ends(tree: Tree, dir: Seq<char>, depth: usize)
    requires
        depth < WHEEL_SEARCH_DEPTH,
    ensures
        exists|n: nat|
            search_ends(
                tree,
                SearchView { frontier: seq![(dir, depth)], found: Seq::empty() },
                n,
            ),
    decreases WHEEL_SEARCH_DEPTH - depth, 0nat,
{
    let top = SearchView { frontier: seq![(dir, depth)], found: Seq::empty() };
    let popped = SearchView { frontier: Seq::empty(), found: Seq::empty() };
    assert(top.frontier.drop_last() =~= popped.frontier);
    let read = popped.with_entries(depth, tree(dir));
    assert(search_after(tree, top, 0) == top);
    assert(search_after(tree, top, 1) == search_next(tree, top));
    assert(search_next(tree, top) == read);
    lemma_next_level(popped, depth, tree(dir));
    if depth + 1 < WHEEL_SEARCH_DEPTH {
        lemma_level_ends(tree, read, (depth + 1) as usize);
    } else {
        assert(search_after(tree, read, 0) == read);
        assert(search_ends(tree, read, 0));
    }
    let m = choose|m: nat| search_ends(tree, read, m);
    lemma_search_after_both(tree, top, 1, m);
    assert forall|k: nat| k < 1 + m implies #[trigger] search_after(tree, top, k).frontier.len()
        > 0 by {
        if k > 0 {
            lemma_search_after_both(tree, top, 1, (k - 1) as nat);
            assert(search_after(tree, read, (k - 1) as nat).frontier.len() > 0);
        }
    }
    assert(search_ends(tree, top, 1 + m));
}

/// The entries of a directory go one deeper, and not beyond the limit.
proof fn lemma_next_level(s: SearchView, depth: usize, entries: Seq<(Seq<char>, bool)>)
    requires
        s.frontier.len() == 0,
        depth < WHEEL_SEARCH_DEPTH,
    ensures
        forall|i: int|
            0 <= i < s.with_entries(depth, entries).frontier.len() ==> (#[trigger] s.with_entries(
                depth,
                entries,
            ).frontier[i]).1 == depth + 1,
        depth + 1 >= WHEEL_SEARCH_DEPTH ==> s.with_entries(depth, entries).frontier.len() == 0,
    decreases entries.len(),
{
    if entries.len() > 0 {
        let rest = entries.drop_last();
        lemma_next_level(s, depth, rest);
        let before = s.with_entries(depth, rest);
        let after = s.with_entries(depth, entries);
        assert forall|i: int| 0 <= i < after.frontier.len() implies (
        #[trigger] after.frontier[i]).1 == depth + 1 by {
            if i < before.frontier.len() {
                assert(before.frontier[i].1 == depth + 1);
            }
        }
    }
}

/// Every search ends, however large the file tree.
pub proof fn lemma_search_ends(tree: Tree, roots: Seq<Seq<char>>)
    ensures
        exists|n: nat| search_ends(tree, search_start(roots), n),
{
    let start = search_start(roots);
    assert forall|i: int| 0 <= i < start.frontier.len() implies (#[trigger] start.frontier[i]).1
        == 0 by {}
    lemma_level_ends(tree, start, 0);
}

/// The place of a runtime that is there already is behind where it is.
proof fn lemma_placed_behind(sorted: Seq<Seq<char>>, lib: Seq<char>, seen: Seq<Seq<char>>)
    requires
        in_order(sorted),
        sorted.contains(lib),
    ensures
        fresh(placed_in(sorted, lib), seen) == fresh(sorted, seen),
    decreases sorted.len(),
{
    let last = sorted.last();
    let rest = sorted.drop_last();
    if lib_before(lib, last) {
        let i = choose|i: int| 0 <= i < sorted.len() && sorted[i] == lib;
        lemma_lib_order(lib, last, last);
        assert(lib != last);
        assert(rest[i] == lib);
        assert(in_order(rest)) by {
            assert forall|a: int, b: int| 0 <= a < b < rest.len() implies !lib_before(
                #[trigger] rest[b],
                #[trigger] rest[a],
            ) by {
                assert(!lib_before(sorted[b], sorted[a]));
            }
        }
        lemma_placed_behind(rest, lib, seen);
        let placed = placed_in(rest, lib);
        assert(placed.push(last).drop_last() =~= placed);
        assert(rest.push(last) =~= sorted);
    } else {
        assert(sorted.push(lib).drop_last() =~= sorted);
        lemma_fresh_contains(sorted, seen);
    }
}

/// Sorting runtimes together with some of them again puts nothing new in order.
proof fn lemma_sorted_again(
    libs: Seq<Seq<char>>,
    again: Seq<Seq<char>>,
    seen: Seq<Seq<char>>,
)
    requires
        forall|i: int| 0 <= i < again.len() ==> libs.contains(#[trigger] again[i]),
    ensures
        fresh(sorted_libs(libs + again), seen) == fresh(sorted_libs(libs), seen),
    decreases again.len(),
{
    if again.len() == 0 {
        assert(libs + again =~= libs);
    } else {
        let fewer = again.drop_last();
        let lib = again.last();
        let all = libs + fewer;
        assert(again[again.len() - 1] == lib);
        assert forall|i: int| 0 <= i < fewer.len() implies libs.contains(#[trigger] fewer[i]) by {
            assert(libs.contains(again[i]));
        }
        lemma_sorted_again(libs, fewer, seen);
        assert((libs + again).drop_last() =~= all);
        assert((libs + again).last() == lib);
        lemma_sorted_libs(all);
        lemma_contains_either(libs, fewer, lib);
        lemma_sorted_contains(all, lib);
        lemma_placed_behind(sorted_libs(all), lib, seen);
    }
}

/// Sorting keeps every runtime.
proof fn lemma_sorted_contains(libs: Seq<Seq<char>>, lib: Seq<char>)
    requires
        libs.contains(lib),
    ensures
        sorted_libs(libs).contains(lib),
    decreases libs.len(),
{
    let rest = libs.drop_last();
    lemma_sorted_libs(rest);
    lemma_placed_in_order(sorted_libs(rest), libs.last());
    if lib != libs.last() {
        let i = choose|i: int| 0 <= i < libs.len() && libs[i] == lib;
        assert(rest[i] == lib);
        lemma_sorted_contains(rest, lib);
    }
}

/// As long as the file tree stays as it is, searching the same packages twice
/// over finds the same runtimes twice over, and leads to the same ladder. `n`
/// is how many directories a search reads.
pub proof fn lemma_roots_twice(tree: Tree, maps: Seq<char>, roots: Seq<Seq<char>>, n: nat)
    requires
        search_ends(tree, search_start(roots), n),
    ensures
        search_ends(tree, search_start(roots + roots), n + n),
        ({
            let once = search_after(tree, search_start(roots), n).found;
            let twice = search_after(tree, search_start(roots + roots), n + n).found;
            &&& twice == once + once
            &&& ladder_of(maps, sorted_libs(twice)) == ladder_of(maps, sorted_libs(once))
        }),
{
    let start = search_start(roots);
    let once = search_after(tree, start, n).found;
    let then = SearchView { found: start.found + once, ..start };
    assert(then =~= (SearchView { found: once + start.found, ..start }));
    lemma_search_found(tree, start, once, n);
    lemma_search_both(tree, start, start, n, n);
    assert(on_top(start, start) =~= search_start(roots + roots));
    let twice = once + once;
    let one = with_names(Seq::empty(), Rung::AlreadyLoaded, scanned(maps));
    assert forall|i: int| 0 <= i < once.len() implies once.contains(#[trigger] once[i]) by {}
    lemma_sorted_again(once, once, names_of(one));
    lemma_with_names_appends(one, Rung::InstalledWheel, sorted_libs(twice));
    lemma_with_names_appends(one, Rung::InstalledWheel, sorted_libs(once));
}

/// Whether every path that a file tree lists holds a slash, as a path beneath a
/// directory does.
pub open spec fn lists_paths(tree: Tree) -> bool {
    forall|dir: Seq<char>, i: int|
        0 <= i < tree(dir).len() ==> (#[trigger] tree(dir)[i]).0.contains('/')
}

/// What a directory adds to what was found is listed by it.
proof fn lemma_entries_found(s: SearchView, depth: usize, entries: Seq<(Seq<char>, bool)>)
    requires
        forall|i: int| 0 <= i < entries.len() ==> (#[trigger] entries[i]).0.contains('/'),
        forall|i: int| 0 <= i < s.found.len() ==> (#[trigger] s.found[i]).contains('/'),
    ensures
        forall|i: int|
            0 <= i < s.with_entries(depth, entries).found.len() ==> (#[trigger] s.with_entries(
                depth,
                entries,
            ).found[i]).contains('/'),
    decreases entries.len(),
{
    if entries.len() > 0 {
        let rest = entries.drop_last();
        assert forall|i: int| 0 <= i < rest.len() implies (#[trigger] rest[i]).0.contains('/') by {
            assert(entries[i].0.contains('/'));
        }
        lemma_entries_found(s, depth, rest);
        let before = s.with_entries(depth, rest);
        let after = s.with_entries(depth, entries);
        assert(entries[entries.len() - 1].0.contains('/'));
        assert forall|i: int| 0 <= i < after.found.len() implies (
        #[trigger] after.found[i]).contains('/') by {
            if i < before.found.len() {
                assert(before.found[i].contains('/'));
            }
        }
    }
}

/// Everything that a search finds is a path with a slash.
proof fn lemma_found_are_paths(tree: Tree, roots: Seq<Seq<char>>, n: nat)
    requires
        lists_paths(tree),
    ensures
        forall|i: int|
            0 <= i < search_after(tree, search_start(roots), n).found.len() ==> (
            #[trigger] search_after(tree, search_start(roots), n).found[i]).contains('/'),
    decreases n,
{
    if n > 0 {
        let s = search_after(tree, search_start(roots), (n - 1) as nat);
        lemma_found_are_paths(tree, roots, (n - 1) as nat);
        if s.frontier.len() > 0 {
            let (dir, depth) = s.frontier.last();
            let popped = SearchView { frontier: s.frontier.drop_last(), ..s };
            assert forall|i: int| 0 <= i < popped.found.len() implies (
            #[trigger] popped.found[i]).contains('/') by {
                assert(s.found[i].contains('/'));
            }
            lemma_entries_found(popped, depth, tree(dir));
        }
    }
}

/// No search finds a bare soname, at any time.
pub proof fn lemma_no_soname_found(tree: Tree, roots: Seq<Seq<char>>, n: nat)
    requires
        lists_paths(tree),
    ensures
        forall|i: int|
            0 <= i < search_after(tree, search_start(roots), n).found.len()
                ==> !soname_texts().contains(
                #[trigger] search_after(tree, search_start(roots), n).found[i],
            ),
{
    let found = search_after(tree, search_start(roots), n).found;
    lemma_found_are_paths(tree, roots, n);
    lemma_sonames();
    assert forall|i: int| 0 <= i < found.len() implies !soname_texts().contains(
        #[trigger] found[i],
    ) by {
        assert(found[i].contains('/'));
        if soname_texts().contains(found[i]) {
            let k = choose|k: int| 0 <= k < soname_texts().len() && soname_texts()[k] == found[i];
            assert(!soname_texts()[k].contains('/'));
        }
    }
}

/// What is in order was there before.
proof fn lemma_sorted_from(libs: Seq<Seq<char>>, lib: Seq<char>)
    requires
        sorted_libs(libs).contains(lib),
    ensures
        libs.contains(lib),
    decreases libs.len(),
{
    if libs.len() > 0 {
        let rest = libs.drop_last();
        lemma_sorted_libs(rest);
        lemma_placed_in_order(sorted_libs(rest), libs.last());
        if lib == libs.last() {
            assert(libs[libs.len() - 1] == lib);
        } else {
            lemma_sorted_from(rest, lib);
            let i = choose|i: int| 0 <= i < rest.len() && rest[i] == lib;
            assert(libs[i] == lib);
        }
    }
}

/// The ladder after a search of vendor packages, rung by rung: first the mapped
/// runtimes, exactly as the scan lists them; then the runtimes that the search
/// found, in the order of its result, without what is there already; and last
/// the three sonames.
pub proof fn lemma_searched_ladder(tree: Tree, maps: Seq<char>, roots: Seq<Seq<char>>, n: nat)
    requires
        lists_paths(tree),
    ensures
        ({
            let libs = sorted_libs(search_after(tree, search_start(roots), n).found);
            ladder_of(maps, libs) == on_rung(Rung::AlreadyLoaded, scanned(maps)) + on_rung(
                Rung::InstalledWheel,
                fresh(libs, scanned(maps)),
            ) + on_rung(Rung::Soname, soname_texts())
        }),
{
    let found = search_after(tree, search_start(roots), n).found;
    let libs = sorted_libs(found);
    lemma_no_soname_found(tree, roots, n);
    assert forall|i: int| 0 <= i < libs.len() implies !soname_texts().contains(
        #[trigger] libs[i],
    ) by {
        assert(libs.contains(libs[i]));
        lemma_sorted_from(found, libs[i]);
        let k = choose|k: int| 0 <= k < found.len() && found[k] == libs[i];
        assert(!soname_texts().contains(found[k]));
    }
    lemma_ladder_rungs(maps, libs);
}

} // verus!
