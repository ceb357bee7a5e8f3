//! Finding the CUDA runtime: a ladder of three rungs, tried in order, with a
//! note of everything that was tried.

use crate::host_pinning::PinError;
use crate::text::{char_code, chars_of};
use vstd::prelude::*;
use vstd::string::*;

verus! {

/// The least index from `from` on at which `s` has the character `c`; the
/// length if there is none.
pub open spec fn next_index(s: Seq<char>, c: char, from: int) -> int
    decreases s.len() - from,
{
    if from >= s.len() || s[from] == c {
        from
    } else {
        next_index(s, c, from + 1)
    }
}

/// The greatest index below `upto` after a character `c`; zero if there is
/// none.
pub open spec fn after_last(s: Seq<char>, c: char, upto: int) -> int
    decreases upto,
{
    if upto <= 0 || s[upto - 1] == c {
        upto
    } else {
        after_last(s, c, upto - 1)
    }
}

/// The least index from `from` on at which `s` goes on with a blank and a
/// slash.
pub open spec fn next_blank_slash(s: Seq<char>, from: int) -> Option<int>
    decreases s.len() - from,
{
    if from + 1 >= s.len() {
        None
    } else if s[from] == ' ' && s[from + 1] == '/' {
        Some(from)
    } else {
        next_blank_slash(s, from + 1)
    }
}

/// A line without the carriage return before its line feed.
pub open spec fn without_return(line: Seq<char>) -> Seq<char> {
    if line.len() > 0 && line.last() == '\r' {
        line.drop_last()
    } else {
        line
    }
}

/// The lines of a text from `from` on. A line ends with a line feed, which may
/// follow a carriage return; the last one may end without.
pub open spec fn lines_from(s: Seq<char>, from: int) -> Seq<Seq<char>>
    decreases s.len() - from,
{
    if from < 0 || from >= s.len() {
        Seq::empty()
    } else {
        let end = next_index(s, '\n', from);
        proof {
            lemma_next_index(s, '\n', from);
        }
        if end >= s.len() {
            seq![s.subrange(from, s.len() as int)]
        } else {
            seq![without_return(s.subrange(from, end))] + lines_from(s, end + 1)
        }
    }
}

/// Whether a file name is that of a CUDA runtime: `libcudart.so`,
/// `libcudart.so.13`, `libcudart.so.13.0.48`, but not `libcudart_static.a`.
pub open spec fn runtime_name(name: Seq<char>) -> bool {
    name == "libcudart.so"@ || "libcudart.so."@.is_prefix_of(name)
}

/// The file name of a path: what follows the last slash.
pub open spec fn file_name(path: Seq<char>) -> Seq<char> {
    path.skip(after_last(path, '/', path.len() as int))
}

/// A line without the mark of an unlinked file.
pub open spec fn without_deleted(line: Seq<char>) -> Seq<char> {
    if " (deleted)"@.is_suffix_of(line) {
        line.take(line.len() - " (deleted)"@.len())
    } else {
        line
    }
}

/// The CUDA runtime that a line of `/proc/<pid>/maps` names, if it does. The
/// path is the last field and absolute, so it starts at the first blank before
/// a slash; it may hold blanks itself.
pub open spec fn mapped_runtime(line: Seq<char>) -> Option<Seq<char>> {
    let l = without_deleted(line);
    match next_blank_slash(l, 0) {
        Some(at) => if runtime_name(file_name(l.skip(at + 1))) {
            Some(l.skip(at + 1))
        } else {
            None
        },
        None => None,
    }
}

/// The runtimes found so far, after one more line.
pub open spec fn found_with(found: Seq<Seq<char>>, line: Seq<char>) -> Seq<Seq<char>> {
    match mapped_runtime(line) {
        Some(path) => if found.contains(path) {
            found
        } else {
            found.push(path)
        },
        None => found,
    }
}

/// The runtimes found so far, after several more lines.
pub open spec fn found_in(found: Seq<Seq<char>>, lines: Seq<Seq<char>>) -> Seq<Seq<char>>
    decreases lines.len(),
{
    if lines.len() == 0 {
        found
    } else {
        found_in(found_with(found, lines.first()), lines.drop_first())
    }
}

/// The runtimes that the text of `/proc/<pid>/maps` names.
pub open spec fn scanned(maps: Seq<char>) -> Seq<Seq<char>> {
    found_in(Seq::empty(), lines_from(maps, 0))
}

/// The views of several strings.
pub open spec fn texts(strings: Seq<String>) -> Seq<Seq<char>> {
    Seq::new(strings.len(), |i: int| strings[i]@)
}

/// [`next_index`] stays in range and finds what it looks for.
pub proof fn lemma_next_index(s: Seq<char>, c: char, from: int)
    requires
        0 <= from <= s.len(),
    ensures
        from <= next_index(s, c, from) <= s.len(),
        next_index(s, c, from) < s.len() ==> s[next_index(s, c, from)] == c,
    decreases s.len() - from,
{
    if from < s.len() && s[from] != c {
        lemma_next_index(s, c, from + 1);
    }
}

/// Whether the characters from `from` to `to` begin with `prefix`.
fn begins_with(chars: &Vec<char>, from: usize, to: usize, prefix: &Vec<char>) -> (r: bool)
    requires
        from <= to <= chars@.len(),
    ensures
        r == prefix@.is_prefix_of(chars@.subrange(from as int, to as int)),
{
    let ghost part = chars@.subrange(from as int, to as int);
    if to - from < prefix.len() {
        return false;
    }
    let mut i: usize = 0;
    while i < prefix.len()
        invariant
            from <= to <= chars@.len(),
            part == chars@.subrange(from as int, to as int),
            i <= prefix@.len() <= part.len(),
            prefix@.take(i as int) =~= part.take(i as int),
        decreases prefix.len() - i,
    {
        if chars[from + i] != prefix[i] {
            assert(part[i as int] != prefix@[i as int]);
            assert(part.take(prefix@.len() as int)[i as int] != prefix@[i as int]);
            return false;
        }
        assert(prefix@.take(i + 1) =~= prefix@.take(i as int).push(prefix@[i as int]));
        assert(part.take(i + 1) =~= part.take(i as int).push(part[i as int]));
        i = i + 1;
    }
    assert(prefix@.take(i as int) =~= prefix@);
    true
}

/// Whether the path from `from` to `to` is that of a CUDA runtime, by file
/// name.
fn is_runtime_path(chars: &Vec<char>, from: usize, to: usize) -> (r: bool)
    requires
        from <= to <= chars@.len(),
    ensures
        r == runtime_name(file_name(chars@.subrange(from as int, to as int))),
{
    let ghost path = chars@.subrange(from as int, to as int);
    let mut start: usize = to;
    while start > from && chars[start - 1] != '/'
        invariant
            from <= start <= to <= chars@.len(),
            path == chars@.subrange(from as int, to as int),
            after_last(path, '/', path.len() as int) == after_last(path, '/', start - from),
        decreases start,
    {
        assert(path[start - from - 1] == chars@[start - 1]);
        start = start - 1;
    }
    proof {
        if start > from {
            assert(path[start - from - 1] == chars@[start - 1]);
        }
        assert(file_name(path) =~= chars@.subrange(start as int, to as int));
    }
    let plain = chars_of("libcudart.so");
    let dotted = chars_of("libcudart.so.");
    let ghost name = chars@.subrange(start as int, to as int);
    if begins_with(chars, start, to, &dotted) {
        return true;
    }
    let same_length = to - start == plain.len();
    if same_length && begins_with(chars, start, to, &plain) {
        assert(name =~= plain@);
        return true;
    }
    assert(name == plain@ ==> plain@.is_prefix_of(name)) by {
        assert(plain@.take(plain@.len() as int) =~= plain@);
    }
    false
}

/// Whether a path is that of a CUDA runtime, by file name.
pub fn is_runtime_lib(path: &str) -> (r: bool)
    ensures
        r == runtime_name(file_name(path@)),
{
    let chars = chars_of(path);
    assert(chars@.subrange(0, chars@.len() as int) =~= path@);
    is_runtime_path(&chars, 0, chars.len())
}

/// Whether the characters from `from` to `to` end with `suffix`.
fn ends_with(chars: &Vec<char>, from: usize, to: usize, suffix: &Vec<char>) -> (r: bool)
    requires
        from <= to <= chars@.len(),
    ensures
        r == suffix@.is_suffix_of(chars@.subrange(from as int, to as int)),
{
    let ghost part = chars@.subrange(from as int, to as int);
    if to - from < suffix.len() {
        return false;
    }
    let start: usize = to - suffix.len();
    proof {
        assert(part.subrange(part.len() - suffix@.len(), part.len() as int) =~= chars@.subrange(
            start as int,
            to as int,
        ));
    }
    let r = begins_with(chars, start, to, suffix);
    assert(chars@.subrange(start as int, to as int).take(suffix@.len() as int)
        =~= chars@.subrange(start as int, to as int));
    r
}

/// Where the path of the runtime that a line names begins and ends, if the
/// line from `from` to `to` names one.
fn mapped_path(chars: &Vec<char>, from: usize, to: usize) -> (r: Option<(usize, usize)>)
    requires
        from <= to <= chars@.len(),
    ensures
        r is Some <==> mapped_runtime(chars@.subrange(from as int, to as int)) is Some,
        r matches Some((start, end)) ==> {
            &&& from <= start <= end <= to
            &&& mapped_runtime(chars@.subrange(from as int, to as int)) == Some(
                chars@.subrange(start as int, end as int),
            )
        },
{
    let ghost line = chars@.subrange(from as int, to as int);
    let deleted = chars_of(" (deleted)");
    let end: usize = if ends_with(chars, from, to, &deleted) {
        to - deleted.len()
    } else {
        to
    };
    let ghost kept = chars@.subrange(from as int, end as int);
    assert(without_deleted(line) =~= kept);
    let mut at: usize = from;
    while end - at > 1 && !(chars[at] == ' ' && chars[at + 1] == '/')
        invariant
            from <= at <= end,
            from <= end <= to <= chars@.len(),
            kept == chars@.subrange(from as int, end as int),
            next_blank_slash(kept, 0) == next_blank_slash(kept, at - from),
        decreases end - at,
    {
        assert(kept[at - from] == chars@[at as int]);
        assert(kept[at + 1 - from] == chars@[at + 1]);
        at = at + 1;
    }
    if end - at > 1 {
        assert(kept[at - from] == chars@[at as int]);
        assert(kept[at + 1 - from] == chars@[at + 1]);
        assert(next_blank_slash(kept, 0) == Some(at - from));
        assert(kept.skip(at - from + 1) =~= chars@.subrange(at + 1, end as int));
        if is_runtime_path(chars, at + 1, end) {
            return Some((at + 1, end));
        }
    }
    None
}

/// Whether a string is among others.
fn contains_text(strings: &Vec<String>, text: &str) -> (r: bool)
    ensures
        r == texts(strings@).contains(text@),
{
    let wanted: String = text.to_owned();
    let mut i: usize = 0;
    while i < strings.len()
        invariant
            i <= strings@.len(),
            wanted@ == text@,
            forall|k: int| 0 <= k < i ==> (#[trigger] strings@[k])@ != text@,
        decreases strings.len() - i,
    {
        if strings[i] == wanted {
            assert(texts(strings@)[i as int] == text@);
            return true;
        }
        i = i + 1;
    }
    assert forall|k: int| 0 <= k < texts(strings@).len() implies texts(strings@)[k] != text@ by {
        assert(strings@[k]@ != text@);
    }
    false
}

/// The runtimes that the process already has mapped, in first-seen order, out
/// of the text of `/proc/<pid>/maps`. Loading a mapped library by its path uses
/// that mapping rather than a second copy.
pub fn scan_mapped_runtimes(maps: &str) -> (r: Vec<String>)
    ensures
        texts(r@) == scanned(maps@),
{
    let chars = chars_of(maps);
    let mut found: Vec<String> = Vec::new();
    let mut from: usize = 0;
    assert(texts(found@) =~= Seq::<Seq<char>>::empty());
    while from < chars.len()
        invariant
            chars@ == maps@,
            from <= chars@.len(),
            found_in(Seq::empty(), lines_from(maps@, 0)) == found_in(
                texts(found@),
                lines_from(maps@, from as int),
            ),
        decreases chars.len() - from,
    {
        let mut end: usize = from;
        while end < chars.len() && chars[end] != '\n'
            invariant
                from <= end <= chars@.len(),
                next_index(chars@, '\n', from as int) == next_index(chars@, '\n', end as int),
            decreases chars.len() - end,
        {
            end = end + 1;
        }
        let ended = end < chars.len();
        let line_end: usize = if ended && end > from && chars[end - 1] == '\r' {
            end - 1
        } else {
            end
        };
        let ghost line = chars@.subrange(from as int, line_end as int);
        let ghost rest = lines_from(maps@, from as int);
        let next: usize = if ended {
            end + 1
        } else {
            end
        };
        proof {
            let whole = maps@.subrange(from as int, end as int);
            if ended {
                assert(without_return(whole) =~= line);
            } else {
                assert(whole =~= line);
            }
            assert(rest.first() == line);
            assert(rest.drop_first() =~= lines_from(maps@, next as int));
        }
        let ghost before = texts(found@);
        if let Some((start, stop)) = mapped_path(&chars, from, line_end) {
            let path = maps.substring_char(start, stop);
            if !contains_text(&found, path) {
                found.push(path.to_owned());
                assert(texts(found@) =~= before.push(path@));
            }
        }
        assert(texts(found@) == found_with(before, line));
        from = next;
    }
    found
}

/// Whether a character is a decimal digit.
pub open spec fn is_digit(c: char) -> bool {
    48 <= c as int <= 57
}

/// The number that decimal digits stand for.
pub open spec fn decimal_value(digits: Seq<char>) -> nat
    decreases digits.len(),
{
    if digits.len() == 0 {
        0
    } else {
        (10 * decimal_value(digits.drop_last()) + (digits.last() as int - 48)) as nat
    }
}

/// Whether a text is made of decimal digits alone.
pub open spec fn all_digits(s: Seq<char>) -> bool {
    forall|i: int| 0 <= i < s.len() ==> is_digit(#[trigger] s[i])
}

/// A text without a leading plus sign.
pub open spec fn without_plus(s: Seq<char>) -> Seq<char> {
    if s.len() > 0 && s[0] == '+' {
        s.skip(1)
    } else {
        s
    }
}

/// A text as a 32-bit number: decimal digits, at least one, possibly after a
/// plus sign.
pub open spec fn parse_u32(s: Seq<char>) -> Option<u32> {
    let digits = without_plus(s);
    if digits.len() > 0 && all_digits(digits) && decimal_value(digits) <= u32::MAX {
        Some(decimal_value(digits) as u32)
    } else {
        None
    }
}

/// The CUDA major version in a file name: what stands between
/// `libcudart.so.` and the next dot or the end.
pub open spec fn major_of_name(name: Seq<char>) -> Option<u32> {
    if "libcudart.so."@.is_prefix_of(name) {
        let rest = name.skip("libcudart.so."@.len() as int);
        parse_u32(rest.take(next_index(rest, '.', 0)))
    } else {
        None
    }
}

/// More digits stand for no smaller a number.
proof fn lemma_decimal_prefix(digits: Seq<char>, n: int)
    requires
        0 <= n <= digits.len(),
        all_digits(digits),
    ensures
        decimal_value(digits.take(n)) <= decimal_value(digits),
    decreases digits.len(),
{
    if n == digits.len() {
        assert(digits.take(n) =~= digits);
    } else {
        let fewer = digits.drop_last();
        assert(fewer.take(n) =~= digits.take(n));
        assert(all_digits(fewer)) by {
            assert forall|i: int| 0 <= i < fewer.len() implies is_digit(#[trigger] fewer[i]) by {
                assert(is_digit(digits[i]));
            }
        }
        lemma_decimal_prefix(fewer, n);
        assert(is_digit(digits[digits.len() - 1]));
    }
}

/// The characters from `from` to `to` as a 32-bit number.
fn parse_chars(chars: &Vec<char>, from: usize, to: usize) -> (r: Option<u32>)
    requires
        from <= to <= chars@.len(),
    ensures
        r == parse_u32(chars@.subrange(from as int, to as int)),
{
    let ghost part = chars@.subrange(from as int, to as int);
    let start: usize = if from < to && chars[from] == '+' {
        from + 1
    } else {
        from
    };
    let ghost digits = chars@.subrange(start as int, to as int);
    assert(digits =~= without_plus(part));
    if start == to {
        return None;
    }
    let mut value: u64 = 0;
    let mut i: usize = start;
    assert(digits.take(0) =~= Seq::<char>::empty());
    while i < to
        invariant
            from <= start <= i <= to <= chars@.len(),
            part == chars@.subrange(from as int, to as int),
            digits == chars@.subrange(start as int, to as int),
            digits == without_plus(part),
            forall|k: int| 0 <= k < i - start ==> is_digit(#[trigger] digits[k]),
            value == decimal_value(digits.take(i - start)),
            value <= u32::MAX,
        decreases to - i,
    {
        let code: u32 = char_code(chars[i]);
        assert(digits[i - start] == chars@[i as int]);
        if code < 48 || code > 57 {
            assert(!all_digits(digits)) by {
                assert(!is_digit(digits[i - start]));
            }
            return None;
        }
        assert(is_digit(digits[i - start]));
        assert(digits.take(i + 1 - start).drop_last() =~= digits.take(i - start));
        value = 10 * value + (code - 48) as u64;
        i = i + 1;
        if value > 4294967295 {
            proof {
                if all_digits(digits) {
                    lemma_decimal_prefix(digits, i - start);
                }
            }
            return None;
        }
    }
    assert(digits.take(i - start) =~= digits);
    Some(value as u32)
}

/// The CUDA major version in the file name from `from` to `to`.
fn major_of_chars(chars: &Vec<char>, from: usize, to: usize) -> (r: Option<u32>)
    requires
        from <= to <= chars@.len(),
    ensures
        r == major_of_name(chars@.subrange(from as int, to as int)),
{
    let ghost name = chars@.subrange(from as int, to as int);
    let dotted = chars_of("libcudart.so.");
    if !begins_with(chars, from, to, &dotted) {
        return None;
    }
    let start: usize = from + dotted.len();
    let ghost rest = name.skip(dotted@.len() as int);
    let mut end: usize = start;
    while end < to && chars[end] != '.'
        invariant
            start <= end <= to <= chars@.len(),
            from + dotted@.len() == start,
            name == chars@.subrange(from as int, to as int),
            rest == name.skip(dotted@.len() as int),
            next_index(rest, '.', 0) == next_index(rest, '.', end - start),
        decreases to - end,
    {
        assert(rest[end - start] == chars@[end as int]);
        end = end + 1;
    }
    proof {
        if end < to {
            assert(rest[end - start] == chars@[end as int]);
        }
        assert(rest.take(end - start) =~= chars@.subrange(start as int, end as int));
    }
    parse_chars(chars, start, end)
}

/// CUDA major version from a file name, e.g. `libcudart.so.13.0.48` -> 13.
pub fn soname_major(name: &str) -> (r: Option<u32>)
    ensures
        r == major_of_name(name@),
{
    let chars = chars_of(name);
    assert(chars@.subrange(0, chars@.len() as int) =~= name@);
    major_of_chars(&chars, 0, chars.len())
}

/// Which rung of the ladder produced a candidate.
#[derive(Debug, Clone, Copy, PartialEq, Eq, Structural)]
pub enum Rung {
    /// A runtime that the process already has mapped.
    AlreadyLoaded,
    /// A runtime shipped by an installed wheel.
    InstalledWheel,
    /// A soname, left to the system loader.
    Soname,
}

impl Rung {
    /// The name of the rung in messages.
    pub open spec fn label_text(self) -> Seq<char> {
        match self {
            Rung::AlreadyLoaded => "already-loaded scan"@,
            Rung::InstalledWheel => "installed-wheel search"@,
            Rung::Soname => "soname load"@,
        }
    }

    /// The place of the rung on the ladder.
    pub open spec fn rank(self) -> int {
        match self {
            Rung::AlreadyLoaded => 0,
            Rung::InstalledWheel => 1,
            Rung::Soname => 2,
        }
    }

    pub fn label(self) -> (r: &'static str)
        ensures
            r@ == self.label_text(),
    {
        match self {
            Rung::AlreadyLoaded => "already-loaded scan",
            Rung::InstalledWheel => "installed-wheel search",
            Rung::Soname => "soname load",
        }
    }
}

/// One thing to load, in ladder order.
#[derive(Debug)]
pub struct Candidate {
    /// An absolute path, or a bare soname on the last rung.
    pub name: String,
    pub rung: Rung,
}

impl View for Candidate {
    type V = (Seq<char>, Rung);

    open spec fn view(&self) -> (Seq<char>, Rung) {
        (self.name@, self.rung)
    }
}

/// The views of several candidates.
pub open spec fn candidate_views(ladder: Seq<Candidate>) -> Seq<(Seq<char>, Rung)> {
    Seq::new(ladder.len(), |i: int| ladder[i]@)
}

/// Whether a name is on the ladder.
pub open spec fn on_ladder(ladder: Seq<(Seq<char>, Rung)>, name: Seq<char>) -> bool {
    exists|i: int| 0 <= i < ladder.len() && (#[trigger] ladder[i]).0 == name
}

/// The ladder with more names of one rung. A name that is on it already is not
/// put on it again.
pub open spec fn with_names(
    ladder: Seq<(Seq<char>, Rung)>,
    rung: Rung,
    names: Seq<Seq<char>>,
) -> Seq<(Seq<char>, Rung)>
    decreases names.len(),
{
    if names.len() == 0 {
        ladder
    } else {
        let before = with_names(ladder, rung, names.drop_last());
        if on_ladder(before, names.last()) {
            before
        } else {
            before.push((names.last(), rung))
        }
    }
}

/// The sonames to try: the current and the previous major version, and the
/// unversioned name last, which wheels do not ship.
pub open spec fn soname_texts() -> Seq<Seq<char>> {
    seq!["libcudart.so.13"@, "libcudart.so.12"@, "libcudart.so"@]
}

/// The ladder: mapped runtimes, then those of wheels, then sonames.
pub open spec fn ladder_of(maps: Seq<char>, wheel_libs: Seq<Seq<char>>) -> Seq<(Seq<char>, Rung)> {
    with_names(
        with_names(
            with_names(Seq::empty(), Rung::AlreadyLoaded, scanned(maps)),
            Rung::InstalledWheel,
            wheel_libs,
        ),
        Rung::Soname,
        soname_texts(),
    )
}

/// Puts more names of one rung on the ladder.
fn add_names(ladder: &mut Vec<Candidate>, rung: Rung, names: &Vec<String>)
    ensures
        candidate_views(final(ladder)@) == with_names(
            candidate_views(old(ladder)@),
            rung,
            texts(names@),
        ),
{
    let ghost all = texts(names@);
    let ghost start = candidate_views(ladder@);
    let mut k: usize = 0;
    assert(all.take(0) =~= Seq::<Seq<char>>::empty());
    while k < names.len()
        invariant
            k <= names@.len(),
            all == texts(names@),
            candidate_views(ladder@) == with_names(start, rung, all.take(k as int)),
        decreases names.len() - k,
    {
        let ghost before = candidate_views(ladder@);
        let mut present = false;
        let mut i: usize = 0;
        while i < ladder.len()
            invariant
                k < names@.len(),
                i <= ladder@.len(),
                before == candidate_views(ladder@),
                present == exists|m: int|
                    0 <= m < i && (#[trigger] before[m]).0 == names@[k as int]@,
            decreases ladder.len() - i,
        {
            let same = ladder[i].name == names[k];
            proof {
                assert(before[i as int].0 == ladder@[i as int].name@);
            }
            if same {
                present = true;
            }
            i = i + 1;
        }
        proof {
            assert(present == on_ladder(before, all[k as int]));
            assert(all.take(k + 1).drop_last() =~= all.take(k as int));
        }
        if !present {
            ladder.push(Candidate { name: names[k].clone(), rung });
            assert(candidate_views(ladder@) =~= before.push((all[k as int], rung)));
        }
        k = k + 1;
    }
    assert(all.take(k as int) =~= all);
}

/// The full ladder, in the order in which it will be tried, from the text of
/// `/proc/<pid>/maps` and the runtimes found beneath the vendor packages.
pub fn candidates(maps: &str, wheel_libs: &Vec<String>) -> (r: Vec<Candidate>)
    ensures
        candidate_views(r@) == ladder_of(maps@, texts(wheel_libs@)),
{
    let mut ladder: Vec<Candidate> = Vec::new();
    assert(candidate_views(ladder@) =~= Seq::<(Seq<char>, Rung)>::empty());
    let mapped = scan_mapped_runtimes(maps);
    add_names(&mut ladder, Rung::AlreadyLoaded, &mapped);
    add_names(&mut ladder, Rung::InstalledWheel, wheel_libs);
    let mut sonames: Vec<String> = Vec::new();
    sonames.push("libcudart.so.13".to_owned());
    sonames.push("libcudart.so.12".to_owned());
    sonames.push("libcudart.so".to_owned());
    assert(texts(sonames@) =~= soname_texts());
    add_names(&mut ladder, Rung::Soname, &sonames);
    ladder
}

/// Whether no name is on the ladder twice, and no rung comes after a later one.
pub open spec fn well_laddered(ladder: Seq<(Seq<char>, Rung)>) -> bool {
    &&& forall|i: int, j: int|
        0 <= i < j < ladder.len() ==> (#[trigger] ladder[i]).0 != (#[trigger] ladder[j]).0
    &&& forall|i: int, j: int|
        0 <= i < j < ladder.len() ==> (#[trigger] ladder[i]).1.rank() <= (
        #[trigger] ladder[j]).1.rank()
}

/// Adding names of the same or a later rung keeps a ladder well-made, keeps
/// what is on it in place, and leaves no name out.
proof fn lemma_with_names(ladder: Seq<(Seq<char>, Rung)>, rung: Rung, names: Seq<Seq<char>>)
    requires
        well_laddered(ladder),
        forall|i: int| 0 <= i < ladder.len() ==> (#[trigger] ladder[i]).1.rank() <= rung.rank(),
    ensures
        well_laddered(with_names(ladder, rung, names)),
        ladder.is_prefix_of(with_names(ladder, rung, names)),
        forall|i: int|
            0 <= i < with_names(ladder, rung, names).len() ==> (#[trigger] with_names(
                ladder,
                rung,
                names,
            )[i]).1.rank() <= rung.rank(),
        forall|k: int|
            0 <= k < names.len() ==> on_ladder(
                with_names(ladder, rung, names),
                #[trigger] names[k],
            ),
    decreases names.len(),
{
    if names.len() > 0 {
        let fewer = names.drop_last();
        lemma_with_names(ladder, rung, fewer);
        let before = with_names(ladder, rung, fewer);
        let after = with_names(ladder, rung, names);
        if !on_ladder(before, names.last()) {
            assert(after[before.len() as int].0 == names.last());
            assert(on_ladder(after, names.last()));
        }
        assert forall|k: int| 0 <= k < names.len() implies on_ladder(after, #[trigger] names[k]) by {
            if k < fewer.len() {
                assert(on_ladder(before, fewer[k]));
                let i = choose|i: int| 0 <= i < before.len() && (#[trigger] before[i]).0
                    == fewer[k];
                assert(after[i].0 == names[k]);
            }
        }
        assert forall|i: int, j: int| 0 <= i < j < after.len() implies (#[trigger] after[i]).0 != (
        #[trigger] after[j]).0 by {
            if j == before.len() {
                assert(before[i].0 != names.last());
            } else {
                assert(before[i].0 != before[j].0);
            }
        }
        assert forall|i: int, j: int| 0 <= i < j < after.len() implies (
        #[trigger] after[i]).1.rank() <= (#[trigger] after[j]).1.rank() by {
            assert(before[i].1.rank() <= rung.rank());
            if j < before.len() {
                assert(before[i].1.rank() <= before[j].1.rank());
            }
        }
        assert(ladder.is_prefix_of(after)) by {
            assert(after.take(ladder.len() as int) =~= before.take(ladder.len() as int));
        }
    }
}

/// The ladder tries each name once, on the earliest rung that it is on; mapped
/// runtimes come before those of wheels, and those before sonames; and every
/// runtime that was found, and every soname, is tried.
pub proof fn lemma_ladder(maps: Seq<char>, wheel_libs: Seq<Seq<char>>)
    ensures
        well_laddered(ladder_of(maps, wheel_libs)),
        forall|k: int|
            0 <= k < scanned(maps).len() ==> on_ladder(
                ladder_of(maps, wheel_libs),
                #[trigger] scanned(maps)[k],
            ),
        forall|k: int|
            0 <= k < wheel_libs.len() ==> on_ladder(
                ladder_of(maps, wheel_libs),
                #[trigger] wheel_libs[k],
            ),
        forall|k: int|
            0 <= k < soname_texts().len() ==> on_ladder(
                ladder_of(maps, wheel_libs),
                #[trigger] soname_texts()[k],
            ),
{
    let mapped = scanned(maps);
    let none = Seq::<(Seq<char>, Rung)>::empty();
    let one = with_names(none, Rung::AlreadyLoaded, mapped);
    let two = with_names(one, Rung::InstalledWheel, wheel_libs);
    let three = ladder_of(maps, wheel_libs);
    lemma_with_names(none, Rung::AlreadyLoaded, mapped);
    assert forall|i: int| 0 <= i < one.len() implies (#[trigger] one[i]).1.rank()
        <= Rung::InstalledWheel.rank() by {
        assert(one[i].1.rank() <= Rung::AlreadyLoaded.rank());
    }
    lemma_with_names(one, Rung::InstalledWheel, wheel_libs);
    assert forall|i: int| 0 <= i < two.len() implies (#[trigger] two[i]).1.rank()
        <= Rung::Soname.rank() by {
        assert(two[i].1.rank() <= Rung::InstalledWheel.rank());
    }
    lemma_with_names(two, Rung::Soname, soname_texts());
    assert forall|k: int| 0 <= k < mapped.len() implies on_ladder(three, #[trigger] mapped[k]) by {
        assert(on_ladder(one, mapped[k]));
        let i = choose|i: int| 0 <= i < one.len() && (#[trigger] one[i]).0 == mapped[k];
        assert(two[i] == one[i]);
        assert(three[i] == two[i]);
    }
    assert forall|k: int| 0 <= k < wheel_libs.len() implies on_ladder(
        three,
        #[trigger] wheel_libs[k],
    ) by {
        assert(on_ladder(two, wheel_libs[k]));
        let i = choose|i: int| 0 <= i < two.len() && (#[trigger] two[i]).0 == wheel_libs[k];
        assert(three[i] == two[i]);
    }
}

/// A scan finds each runtime once, finds every runtime that a line names, and
/// nothing else.
pub proof fn lemma_scan(found: Seq<Seq<char>>, lines: Seq<Seq<char>>)
    requires
        found.no_duplicates(),
    ensures
        found_in(found, lines).no_duplicates(),
        forall|path: Seq<char>| #[trigger]
            found_in(found, lines).contains(path) <==> found.contains(path) || exists|k: int|
                0 <= k < lines.len() && mapped_runtime(#[trigger] lines[k]) == Some(path),
    decreases lines.len(),
{
    if lines.len() > 0 {
        let first = lines.first();
        let rest = lines.drop_first();
        let mid = found_with(found, first);
        lemma_scan(mid, rest);
        assert forall|path: Seq<char>| #[trigger]
            found_in(found, lines).contains(path) <==> found.contains(path) || exists|k: int|
                0 <= k < lines.len() && mapped_runtime(#[trigger] lines[k]) == Some(path) by {
            assert(mid.contains(path) <==> found.contains(path) || mapped_runtime(first) == Some(
                path,
            )) by {
                if let Some(new) = mapped_runtime(first) {
                    if !found.contains(new) {
                        assert(mid[found.len() as int] == new);
                        if found.contains(path) {
                            let i = choose|i: int| 0 <= i < found.len() && found[i] == path;
                            assert(mid[i] == path);
                        }
                    }
                }
            }
            if exists|k: int| 0 <= k < rest.len() && mapped_runtime(#[trigger] rest[k]) == Some(
                path,
            ) {
                let k = choose|k: int|
                    0 <= k < rest.len() && mapped_runtime(#[trigger] rest[k]) == Some(path);
                assert(mapped_runtime(lines[k + 1]) == Some(path));
            }
            if mapped_runtime(first) == Some(path) {
                assert(mapped_runtime(lines[0]) == Some(path));
            }
            if exists|k: int| 0 <= k < lines.len() && mapped_runtime(#[trigger] lines[k]) == Some(
                path,
            ) {
                let k = choose|k: int|
                    0 <= k < lines.len() && mapped_runtime(#[trigger] lines[k]) == Some(path);
                if k > 0 {
                    assert(mapped_runtime(rest[k - 1]) == Some(path));
                }
            }
        }
    }
}

/// Several texts with a separator between them.
pub open spec fn joined_with(parts: Seq<Seq<char>>, separator: Seq<char>) -> Seq<char>
    decreases parts.len(),
{
    if parts.len() == 0 {
        Seq::empty()
    } else if parts.len() == 1 {
        parts[0]
    } else {
        joined_with(parts.drop_last(), separator) + separator + parts.last()
    }
}

/// What a message says of a rung that had nothing to try.
pub open spec fn empty_rung_detail(rung: Rung, vendor_roots: Seq<Seq<char>>) -> Seq<char> {
    match rung {
        Rung::AlreadyLoaded => "this process has no CUDA runtime mapped"@,
        Rung::InstalledWheel => if vendor_roots.len() == 0 {
            "no CUDA vendor package is importable"@
        } else {
            "no runtime found beneath "@ + joined_with(vendor_roots, ", "@)
        },
        Rung::Soname => "no soname candidates"@,
    }
}

/// The line for a rung that had nothing to try.
pub open spec fn empty_rung_text(rung: Rung, vendor_roots: Seq<Seq<char>>) -> Seq<char> {
    "(none) ["@ + rung.label_text() + "]: "@ + empty_rung_detail(rung, vendor_roots)
}

/// The line for a candidate that did not open.
pub open spec fn probed_text(candidate: (Seq<char>, Rung), reason: Seq<char>) -> Seq<char> {
    candidate.0 + " ["@ + candidate.1.label_text() + "]: "@ + reason
}

/// What to report for a rung that contributed no candidate, so that a reader
/// can tell "searched and found nothing" from "never ran".
pub fn empty_rung_note(rung: Rung, vendor_roots: &Vec<String>) -> (r: String)
    ensures
        r@ == empty_rung_text(rung, texts(vendor_roots@)),
{
    let mut note: String = "(none) [".to_owned();
    note.append(rung.label());
    note.append("]: ");
    match rung {
        Rung::AlreadyLoaded => note.append("this process has no CUDA runtime mapped"),
        Rung::InstalledWheel => {
            if vendor_roots.len() == 0 {
                note.append("no CUDA vendor package is importable");
            } else {
                let ghost head = note@;
                let ghost roots = texts(vendor_roots@);
                note.append("no runtime found beneath ");
                let ghost before = note@;
                note.append(vendor_roots[0].as_str());
                let mut i: usize = 1;
                assert(roots.take(1).len() == 1);
                assert(note@ == before + joined_with(roots.take(1), ", "@));
                while i < vendor_roots.len()
                    invariant
                        1 <= i <= vendor_roots@.len(),
                        roots == texts(vendor_roots@),
                        note@ == before + joined_with(roots.take(i as int), ", "@),
                    decreases vendor_roots.len() - i,
                {
                    note.append(", ");
                    note.append(vendor_roots[i].as_str());
                    proof {
                        assert(roots.take(i + 1).drop_last() =~= roots.take(i as int));
                        assert(note@ =~= before + joined_with(roots.take(i + 1), ", "@));
                    }
                    i = i + 1;
                }
                assert(roots.take(i as int) =~= roots);
                assert(note@ =~= head + empty_rung_detail(rung, roots));
            }
        },
        Rung::Soname => note.append("no soname candidates"),
    }
    note
}

/// The lines on one rung, when every candidate failed with the reason of the
/// same place.
pub open spec fn rung_lines(
    rung: Rung,
    ladder: Seq<(Seq<char>, Rung)>,
    reasons: Seq<Seq<char>>,
) -> Seq<Seq<char>>
    decreases ladder.len(),
{
    if ladder.len() == 0 {
        Seq::empty()
    } else {
        let before = rung_lines(rung, ladder.drop_last(), reasons);
        if ladder.last().1 == rung {
            before.push(probed_text(ladder.last(), reasons[ladder.len() - 1]))
        } else {
            before
        }
    }
}

/// What a message says of one rung.
pub open spec fn rung_report(
    rung: Rung,
    ladder: Seq<(Seq<char>, Rung)>,
    reasons: Seq<Seq<char>>,
    vendor_roots: Seq<Seq<char>>,
) -> Seq<Seq<char>> {
    if rung_lines(rung, ladder, reasons).len() == 0 {
        seq![empty_rung_text(rung, vendor_roots)]
    } else {
        rung_lines(rung, ladder, reasons)
    }
}

/// Everything that was probed, rung by rung.
pub open spec fn probe_report(
    ladder: Seq<(Seq<char>, Rung)>,
    reasons: Seq<Seq<char>>,
    vendor_roots: Seq<Seq<char>>,
) -> Seq<Seq<char>> {
    rung_report(Rung::AlreadyLoaded, ladder, reasons, vendor_roots) + rung_report(
        Rung::InstalledWheel,
        ladder,
        reasons,
        vendor_roots,
    ) + rung_report(Rung::Soname, ladder, reasons, vendor_roots)
}

/// A walk up the ladder: the first candidate that opens is taken.
pub struct LadderWalk {
    ladder: Vec<Candidate>,
    vendor_roots: Vec<String>,
    /// Why the candidates tried so far did not open.
    reasons: Vec<String>,
}

impl LadderWalk {
    pub closed spec fn ladder_view(&self) -> Seq<(Seq<char>, Rung)> {
        candidate_views(self.ladder@)
    }

    pub closed spec fn root_texts(&self) -> Seq<Seq<char>> {
        texts(self.vendor_roots@)
    }

    pub closed spec fn reason_texts(&self) -> Seq<Seq<char>> {
        texts(self.reasons@)
    }

    pub fn new(ladder: Vec<Candidate>, vendor_roots: Vec<String>) -> (r: Self)
        ensures
            r.ladder_view() == candidate_views(ladder@),
            r.root_texts() == texts(vendor_roots@),
            r.reason_texts() == Seq::<Seq<char>>::empty(),
    {
        let r = Self { ladder, vendor_roots, reasons: Vec::new() };
        assert(r.reason_texts() =~= Seq::<Seq<char>>::empty());
        r
    }

    /// The candidate to try next; `None` when all have failed.
    pub fn current(&self) -> (r: Option<&Candidate>)
        ensures
            r is Some <==> self.reason_texts().len() < self.ladder_view().len(),
            r matches Some(c) ==> c@ == self.ladder_view()[self.reason_texts().len() as int],
    {
        if self.reasons.len() < self.ladder.len() {
            Some(&self.ladder[self.reasons.len()])
        } else {
            None
        }
    }

    /// The current candidate did not open.
    pub fn failed(&mut self, reason: String)
        requires
            old(self).reason_texts().len() < old(self).ladder_view().len(),
        ensures
            final(self).ladder_view() == old(self).ladder_view(),
            final(self).root_texts() == old(self).root_texts(),
            final(self).reason_texts() == old(self).reason_texts().push(reason@),
    {
        self.reasons.push(reason);
        assert(self.reason_texts() =~= old(self).reason_texts().push(reason@));
    }

    /// Appends what is to be said of one rung.
    fn report_rung(&self, rung: Rung, probed: &mut Vec<String>)
        requires
            self.reason_texts().len() == self.ladder_view().len(),
        ensures
            texts(final(probed)@) == texts(old(probed)@) + rung_report(
                rung,
                self.ladder_view(),
                self.reason_texts(),
                self.root_texts(),
            ),
    {
        let ghost ladder = self.ladder_view();
        let ghost reasons = self.reason_texts();
        let ghost start = texts(probed@);
        let mut none = true;
        let mut k: usize = 0;
        assert(ladder.take(0) =~= Seq::<(Seq<char>, Rung)>::empty());
        assert(start + rung_lines(rung, ladder.take(0), reasons) =~= start);
        while k < self.ladder.len()
            invariant
                k <= self.ladder@.len() == self.reasons@.len(),
                ladder == candidate_views(self.ladder@),
                reasons == texts(self.reasons@),
                none == (rung_lines(rung, ladder.take(k as int), reasons).len() == 0),
                texts(probed@) == start + rung_lines(rung, ladder.take(k as int), reasons),
            decreases self.ladder.len() - k,
        {
            let ghost before = texts(probed@);
            let ghost lines = rung_lines(rung, ladder.take(k as int), reasons);
            proof {
                assert(ladder.take(k + 1).drop_last() =~= ladder.take(k as int));
                assert(ladder.take(k + 1).last() == self.ladder@[k as int]@);
            }
            let candidate = &self.ladder[k];
            if candidate.rung == rung {
                let mut line: String = candidate.name.clone();
                line.append(" [");
                line.append(rung.label());
                line.append("]: ");
                line.append(self.reasons[k].as_str());
                proof {
                    assert(reasons[k as int] == self.reasons@[k as int]@);
                    assert(line@ == probed_text(ladder[k as int], reasons[k as int]));
                }
                none = false;
                probed.push(line);
                assert(texts(probed@) =~= before.push(line@));
                assert(before.push(line@) =~= start + lines.push(line@));
            }
            k = k + 1;
        }
        assert(ladder.take(k as int) =~= ladder);
        if none {
            let ghost before = texts(probed@);
            let note = empty_rung_note(rung, &self.vendor_roots);
            probed.push(note);
            assert(texts(probed@) =~= start + seq![note@]);
        }
    }

    /// The error after all candidates have failed: one line for each, and one
    /// for each rung that had none.
    pub fn into_error(self) -> (r: PinError)
        requires
            self.reason_texts().len() == self.ladder_view().len(),
        ensures
            r matches PinError::RuntimeUnavailable { probed } && texts(probed@) == probe_report(
                self.ladder_view(),
                self.reason_texts(),
                self.root_texts(),
            ),
    {
        let mut probed: Vec<String> = Vec::new();
        assert(texts(probed@) =~= Seq::<Seq<char>>::empty());
        self.report_rung(Rung::AlreadyLoaded, &mut probed);
        self.report_rung(Rung::InstalledWheel, &mut probed);
        self.report_rung(Rung::Soname, &mut probed);
        assert(texts(probed@) =~= probe_report(
            self.ladder_view(),
            self.reason_texts(),
            self.root_texts(),
        ));
        PinError::RuntimeUnavailable { probed }
    }
}

/// What to do next to open a candidate.
#[derive(Debug)]
pub enum OpenStep {
    /// Load it only if the process already has it, under whatever path.
    LoadPresent,
    /// Load it.
    Load,
    /// Look up one of the entry points in the loaded library.
    FindSymbol { index: usize },
    /// All entry points are there.
    Opened,
    /// It cannot be used.
    Failed { reason: String },
}

/// What came of the last step.
#[derive(Debug)]
pub enum OpenEvent {
    Found,
    /// Not found, with what the loader says about it.
    Missing { message: Option<String> },
}

/// The number of entry points that pinning needs.
pub const SYMBOL_COUNT: usize = 4;

/// The entry points that pinning needs, in the order in which they are looked
/// up.
pub open spec fn symbol_text(index: int) -> Seq<char> {
    if index == 0 {
        "cudaHostRegister"@
    } else if index == 1 {
        "cudaHostUnregister"@
    } else if index == 2 {
        "cudaGetErrorName"@
    } else {
        "cudaFree"@
    }
}

/// The name of one of the entry points.
pub fn symbol_name(index: usize) -> (r: &'static str)
    requires
        index < SYMBOL_COUNT,
    ensures
        r@ == symbol_text(index as int),
{
    if index == 0 {
        "cudaHostRegister"
    } else if index == 1 {
        "cudaHostUnregister"
    } else if index == 2 {
        "cudaGetErrorName"
    } else {
        "cudaFree"
    }
}

impl OpenStep {
    /// Whether the step fails with exactly the given reason.
    pub open spec fn fails_with(self, reason: Seq<char>) -> bool {
        self matches OpenStep::Failed { reason: r } && r@ == reason
    }

    /// The first step to open a candidate. A bare soname prefers a copy that
    /// the process already has over a second one from the loader path.
    pub fn first(candidate: &Candidate) -> (r: Self)
        ensures
            candidate.name@.contains('\0') ==> r.fails_with(
                "path contains an interior NUL byte"@,
            ),
            !candidate.name@.contains('\0') ==> r == if candidate.rung is Soname {
                OpenStep::LoadPresent
            } else {
                OpenStep::Load
            },
    {
        let chars = chars_of(candidate.name.as_str());
        let mut i: usize = 0;
        while i < chars.len()
            invariant
                i <= chars@.len(),
                chars@ == candidate.name@,
                forall|k: int| 0 <= k < i ==> chars@[k] != '\0',
            decreases chars.len() - i,
        {
            if chars[i] == '\0' {
                assert(candidate.name@[i as int] == '\0');
                return OpenStep::Failed {
                    reason: "path contains an interior NUL byte".to_owned(),
                };
            }
            i = i + 1;
        }
        if candidate.rung == Rung::Soname {
            OpenStep::LoadPresent
        } else {
            OpenStep::Load
        }
    }

    /// The step after this one came to `event`.
    pub fn next(self, event: OpenEvent) -> (r: Self)
        requires
            self matches OpenStep::FindSymbol { index } ==> index < SYMBOL_COUNT,
        ensures
            match (self, event) {
                (OpenStep::LoadPresent, OpenEvent::Found) => r == (OpenStep::FindSymbol {
                    index: 0,
                }),
                (OpenStep::LoadPresent, OpenEvent::Missing { message: _ }) => r == OpenStep::Load,
                (OpenStep::Load, OpenEvent::Found) => r == (OpenStep::FindSymbol { index: 0 }),
                (OpenStep::Load, OpenEvent::Missing { message }) => r.fails_with(
                    match message {
                        Some(m) => m@,
                        None => "dlopen failed"@,
                    },
                ),
                (OpenStep::FindSymbol { index }, OpenEvent::Found) => r == if index + 1
                    < SYMBOL_COUNT {
                    OpenStep::FindSymbol { index: (index + 1) as usize }
                } else {
                    OpenStep::Opened
                },
                (OpenStep::FindSymbol { index }, OpenEvent::Missing { message: _ }) => r.fails_with(
                    "opened, but "@ + symbol_text(index as int) + " is missing"@,
                ),
                _ => r == self,
            },
    {
        match self {
            OpenStep::LoadPresent => match event {
                OpenEvent::Found => OpenStep::FindSymbol { index: 0 },
                OpenEvent::Missing { message: _ } => OpenStep::Load,
            },
            OpenStep::Load => match event {
                OpenEvent::Found => OpenStep::FindSymbol { index: 0 },
                OpenEvent::Missing { message } => match message {
                    Some(reason) => OpenStep::Failed { reason },
                    None => OpenStep::Failed { reason: "dlopen failed".to_owned() },
                },
            },
            OpenStep::FindSymbol { index } => match event {
                OpenEvent::Found => {
                    if index + 1 < SYMBOL_COUNT {
                        OpenStep::FindSymbol { index: index + 1 }
                    } else {
                        OpenStep::Opened
                    }
                },
                OpenEvent::Missing { message: _ } => {
                    let mut reason: String = "opened, but ".to_owned();
                    reason.append(symbol_name(index));
                    reason.append(" is missing");
                    OpenStep::Failed { reason }
                },
            },
            OpenStep::Opened => OpenStep::Opened,
            OpenStep::Failed { reason } => OpenStep::Failed { reason },
        }
    }
}

} // verus!
