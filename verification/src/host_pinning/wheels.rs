//! The second rung of the ladder: runtimes shipped by installed wheels.
//!
//! The search goes beneath whole vendor packages rather than through named
//! components, because the layouts differ: one wheel with everything in
//! `nvidia/cu13/lib/`, or one wheel per component as `nvidia/cuda_runtime/lib/`.
//! Reading directories is up to the caller; [`WheelSearch`] says which one is
//! next and what to make of its entries.

use crate::host_pinning::resolve::{
    after_last, file_name, is_runtime_lib, major_of_name, next_index, runtime_name, soname_major,
    texts,
};
use crate::text::{char_code, chars_of};
use vstd::prelude::*;
use vstd::string::*;

verus! {

/// How deep the search goes: `nvidia/cu13/lib/libcudart.so.13` is three deep;
/// one to spare.
pub const WHEEL_SEARCH_DEPTH: usize = 4;

/// The parts of a path between slashes, from `from` on.
pub open spec fn parts_from(s: Seq<char>, from: int) -> Seq<Seq<char>>
    decreases s.len() - from + 1,
{
    if from < 0 || from > s.len() {
        Seq::empty()
    } else {
        let end = next_index(s, '/', from);
        if end < from || end >= s.len() {
            seq![s.subrange(from, s.len() as int)]
        } else {
            seq![s.subrange(from, end)] + parts_from(s, end + 1)
        }
    }
}

/// A name as code points, shifted to make room for what orders before all
/// names.
pub open spec fn name_key(name: Seq<char>) -> Seq<u32> {
    Seq::new(name.len(), |i: int| (name[i] as int + 4) as u32).push(0)
}

/// A part of a path, for ordering: nothing for an empty part or a dot, the
/// parent directory before all names.
pub open spec fn part_key(part: Seq<char>) -> Seq<u32> {
    if part.len() == 0 || part == seq!['.'] {
        Seq::empty()
    } else if part == seq!['.', '.'] {
        seq![3u32]
    } else {
        name_key(part)
    }
}

/// Several parts of a path, for ordering.
pub open spec fn parts_key(parts: Seq<Seq<char>>) -> Seq<u32>
    decreases parts.len(),
{
    if parts.len() == 0 {
        Seq::empty()
    } else {
        part_key(parts.first()) + parts_key(parts.drop_first())
    }
}

/// Where a path starts: at the root, explicitly at the current directory, or
/// neither.
pub open spec fn start_key(path: Seq<char>) -> Seq<u32> {
    if path.len() > 0 && path[0] == '/' {
        seq![1u32]
    } else if path.len() > 0 && path[0] == '.' && (path.len() == 1 || path[1] == '/') {
        seq![2u32]
    } else {
        Seq::empty()
    }
}

/// A path, for ordering: paths order component by component, names by code
/// points, a directory before what is in it.
pub open spec fn path_key(path: Seq<char>) -> Seq<u32> {
    start_key(path) + parts_key(parts_from(path, 0))
}

/// Lexicographic order, from index `from` on.
pub open spec fn lex_less(a: Seq<u32>, b: Seq<u32>, from: int) -> bool
    decreases a.len() - from,
{
    if from >= b.len() {
        false
    } else if from >= a.len() {
        true
    } else if a[from] != b[from] {
        a[from] < b[from]
    } else {
        lex_less(a, b, from + 1)
    }
}

/// The major version of a runtime, by its path; zero if the name has none.
pub open spec fn major_of(path: Seq<char>) -> u32 {
    match major_of_name(file_name(path)) {
        Some(major) => major,
        None => 0,
    }
}

/// Which of two runtimes comes first: the one of the newer major version, and
/// the one whose path orders first where the versions agree.
pub open spec fn lib_before(a: Seq<char>, b: Seq<char>) -> bool {
    major_of(a) > major_of(b) || (major_of(a) == major_of(b) && lex_less(
        path_key(a),
        path_key(b),
        0,
    ))
}

/// Puts a runtime in its place among sorted ones, behind those that it does not
/// come before.
pub open spec fn placed_in(sorted: Seq<Seq<char>>, lib: Seq<char>) -> Seq<Seq<char>>
    decreases sorted.len(),
{
    if sorted.len() > 0 && lib_before(lib, sorted.last()) {
        placed_in(sorted.drop_last(), lib).push(sorted.last())
    } else {
        sorted.push(lib)
    }
}

/// The runtimes in order, newest major version first.
pub open spec fn sorted_libs(libs: Seq<Seq<char>>) -> Seq<Seq<char>>
    decreases libs.len(),
{
    if libs.len() == 0 {
        Seq::empty()
    } else {
        placed_in(sorted_libs(libs.drop_last()), libs.last())
    }
}

/// Appends the ordering key of the part from `from` to `to`.
fn push_part_key(key: &mut Vec<u32>, chars: &Vec<char>, from: usize, to: usize)
    requires
        from <= to <= chars@.len(),
    ensures
        final(key)@ == old(key)@ + part_key(chars@.subrange(from as int, to as int)),
{
    let ghost part = chars@.subrange(from as int, to as int);
    let len: usize = to - from;
    if len == 0 {
        assert(key@ =~= old(key)@ + part_key(part));
        return;
    }
    if len == 1 && chars[from] == '.' {
        assert(part =~= seq!['.']);
        assert(key@ =~= old(key)@ + part_key(part));
        return;
    }
    if len == 2 && chars[from] == '.' && chars[from + 1] == '.' {
        key.push(3);
        assert(part =~= seq!['.', '.']);
        assert(part.len() == 2);
        assert(seq!['.'].len() == 1);
        assert(key@ =~= old(key)@ + part_key(part));
        return;
    }
    proof {
        if part == seq!['.'] {
            assert(part[0] == '.');
        }
        if part == seq!['.', '.'] {
            assert(part[0] == '.' && part[1] == '.');
        }
        assert(part_key(part) == name_key(part));
    }
    let mut i: usize = from;
    while i < to
        invariant
            from <= i <= to <= chars@.len(),
            part == chars@.subrange(from as int, to as int),
            key@ =~= old(key)@ + name_key(part).take(i - from),
        decreases to - i,
    {
        let code: u32 = char_code(chars[i]);
        key.push(code + 4);
        assert(name_key(part).take(i + 1 - from) =~= name_key(part).take(i - from).push(
            (code + 4) as u32,
        ));
        i = i + 1;
    }
    key.push(0);
    assert(name_key(part) =~= name_key(part).take(to - from).push(0));
    assert(key@ =~= old(key)@ + name_key(part));
}

/// The ordering key of a path.
fn key_of(path: &str) -> (r: Vec<u32>)
    ensures
        r@ == path_key(path@),
{
    let chars = chars_of(path);
    let mut key: Vec<u32> = Vec::new();
    if chars.len() > 0 && chars[0] == '/' {
        key.push(1);
    } else if chars.len() > 0 && chars[0] == '.' && (chars.len() == 1 || chars[1] == '/') {
        key.push(2);
    }
    assert(key@ =~= start_key(path@));
    let mut from: usize = 0;
    let mut more = true;
    while more
        invariant
            chars@ == path@,
            from <= chars@.len(),
            more ==> path_key(path@) == key@ + parts_key(parts_from(path@, from as int)),
            !more ==> path_key(path@) == key@,
        decreases chars.len() - from + if more {
            1int
        } else {
            0int
        },
    {
        let mut end: usize = from;
        while end < chars.len() && chars[end] != '/'
            invariant
                from <= end <= chars@.len(),
                next_index(chars@, '/', from as int) == next_index(chars@, '/', end as int),
            decreases chars.len() - end,
        {
            end = end + 1;
        }
        let ghost part = chars@.subrange(from as int, end as int);
        let ghost parts = parts_from(path@, from as int);
        let ghost before = key@;
        push_part_key(&mut key, &chars, from, end);
        proof {
            assert(parts.first() == part);
            assert(parts_key(parts) == part_key(part) + parts_key(parts.drop_first()));
        }
        if end < chars.len() {
            proof {
                assert(parts.drop_first() =~= parts_from(path@, end + 1));
                assert(before + (part_key(part) + parts_key(parts.drop_first())) =~= key@
                    + parts_key(parts.drop_first()));
            }
            from = end + 1;
        } else {
            proof {
                assert(parts.drop_first() =~= Seq::<Seq<char>>::empty());
                assert(before + (part_key(part) + parts_key(parts.drop_first())) =~= key@);
            }
            more = false;
        }
    }
    key
}

/// Lexicographic order of two keys.
fn key_less(a: &Vec<u32>, b: &Vec<u32>) -> (r: bool)
    ensures
        r == lex_less(a@, b@, 0),
{
    let mut i: usize = 0;
    while i < a.len() && i < b.len()
        invariant
            i <= a@.len(),
            i <= b@.len(),
            lex_less(a@, b@, 0) == lex_less(a@, b@, i as int),
        decreases a.len() - i,
    {
        if a[i] != b[i] {
            return a[i] < b[i];
        }
        i = i + 1;
    }
    i < b.len()
}

/// The major version of a runtime, by its path.
fn lib_major(path: &str) -> (r: u32)
    ensures
        r == major_of(path@),
{
    let chars = chars_of(path);
    let mut start: usize = chars.len();
    while start > 0 && chars[start - 1] != '/'
        invariant
            chars@ == path@,
            start <= chars@.len(),
            after_last(path@, '/', path@.len() as int) == after_last(path@, '/', start as int),
        decreases start,
    {
        start = start - 1;
    }
    let name = path.substring_char(start, chars.len());
    assert(name@ =~= file_name(path@));
    match soname_major(name) {
        Some(major) => major,
        None => 0,
    }
}

/// Whether the first of two runtimes comes first.
fn comes_before(a: &str, b: &str) -> (r: bool)
    ensures
        r == lib_before(a@, b@),
{
    let major_a: u32 = lib_major(a);
    let major_b: u32 = lib_major(b);
    if major_a != major_b {
        major_a > major_b
    } else {
        key_less(&key_of(a), &key_of(b))
    }
}

/// A place that fits is the place: everything behind it comes later, and what
/// is just before it does not.
proof fn lemma_placed_at(sorted: Seq<Seq<char>>, lib: Seq<char>, at: int)
    requires
        0 <= at <= sorted.len(),
        forall|i: int| at <= i < sorted.len() ==> lib_before(lib, #[trigger] sorted[i]),
        at > 0 ==> !lib_before(lib, sorted[at - 1]),
    ensures
        placed_in(sorted, lib) == sorted.insert(at, lib),
    decreases sorted.len(),
{
    if at < sorted.len() {
        assert(lib_before(lib, sorted[sorted.len() - 1]));
        lemma_placed_at(sorted.drop_last(), lib, at);
        assert(sorted.drop_last().insert(at, lib).push(sorted.last()) =~= sorted.insert(at, lib));
    } else {
        assert(sorted.push(lib) =~= sorted.insert(at, lib));
    }
}

/// Sorts runtimes, newest major version first, then by path.
fn sort_libs(libs: Vec<String>) -> (r: Vec<String>)
    ensures
        texts(r@) == sorted_libs(texts(libs@)),
{
    let ghost all = texts(libs@);
    let mut sorted: Vec<String> = Vec::new();
    let mut k: usize = 0;
    assert(all.take(0) =~= Seq::<Seq<char>>::empty());
    assert(texts(sorted@) =~= sorted_libs(all.take(0)));
    while k < libs.len()
        invariant
            k <= libs@.len(),
            all == texts(libs@),
            texts(sorted@) == sorted_libs(all.take(k as int)),
        decreases libs.len() - k,
    {
        let ghost before = texts(sorted@);
        let mut at: usize = sorted.len();
        while at > 0 && comes_before(libs[k].as_str(), sorted[at - 1].as_str())
            invariant
                k < libs@.len(),
                at <= sorted@.len(),
                before == texts(sorted@),
                forall|i: int|
                    at <= i < before.len() ==> lib_before(libs@[k as int]@, #[trigger] before[i]),
            decreases at,
        {
            at = at - 1;
        }
        proof {
            if at > 0 {
                assert(before[at - 1] == sorted@[at - 1]@);
            }
            lemma_placed_at(before, all[k as int], at as int);
            assert(all.take(k + 1).drop_last() =~= all.take(k as int));
        }
        sorted.insert(at, libs[k].clone());
        assert(texts(sorted@) =~= before.insert(at as int, all[k as int]));
        k = k + 1;
    }
    assert(all.take(k as int) =~= all);
    sorted
}

/// One entry of a directory that was read.
pub struct DirEntry {
    pub path: String,
    pub is_dir: bool,
}

impl View for DirEntry {
    type V = (Seq<char>, bool);

    open spec fn view(&self) -> (Seq<char>, bool) {
        (self.path@, self.is_dir)
    }
}

/// How far a search has got, as values: directories still to be read, with
/// their depth, and runtimes found.
#[verifier::ext_equal]
pub struct SearchView {
    pub frontier: Seq<(Seq<char>, usize)>,
    pub found: Seq<Seq<char>>,
}

impl SearchView {
    /// After one entry of a directory at depth `depth`: a directory is put on
    /// the list unless it is too deep, a runtime is found, anything else is
    /// passed over.
    pub open spec fn with_entry(self, depth: usize, entry: (Seq<char>, bool)) -> SearchView {
        if entry.1 {
            if depth + 1 < WHEEL_SEARCH_DEPTH {
                SearchView {
                    frontier: self.frontier.push((entry.0, (depth + 1) as usize)),
                    ..self
                }
            } else {
                self
            }
        } else if runtime_name(file_name(entry.0)) {
            SearchView { found: self.found.push(entry.0), ..self }
        } else {
            self
        }
    }

    /// After several entries of a directory at depth `depth`.
    pub open spec fn with_entries(self, depth: usize, entries: Seq<(Seq<char>, bool)>) -> SearchView
        decreases entries.len(),
    {
        if entries.len() == 0 {
            self
        } else {
            self.with_entries(depth, entries.drop_last()).with_entry(depth, entries.last())
        }
    }
}

/// The views of several entries.
pub open spec fn entry_views(entries: Seq<DirEntry>) -> Seq<(Seq<char>, bool)> {
    Seq::new(entries.len(), |i: int| entries[i]@)
}

/// A search beneath vendor packages for the runtimes that they ship.
pub struct WheelSearch {
    frontier: Vec<(String, usize)>,
    found: Vec<String>,
}

impl View for WheelSearch {
    type V = SearchView;

    closed spec fn view(&self) -> SearchView {
        SearchView {
            frontier: Seq::new(
                self.frontier@.len(),
                |i: int| (self.frontier@[i].0@, self.frontier@[i].1),
            ),
            found: texts(self.found@),
        }
    }
}

impl WheelSearch {
    /// The directory to read next, with its depth; `None` when the search is
    /// over.
    pub fn next_dir(&mut self) -> (r: Option<(String, usize)>)
        ensures
            r is Some <==> old(self)@.frontier.len() > 0,
            r matches Some((dir, depth)) ==> {
                &&& (dir@, depth) == old(self)@.frontier.last()
                &&& final(self)@ == (SearchView {
                    frontier: old(self)@.frontier.drop_last(),
                    ..old(self)@
                })
            },
            r is None ==> final(self)@ == old(self)@,
    {
        let next = self.frontier.pop();
        assert(next is Some ==> self@ =~= (SearchView {
            frontier: old(self)@.frontier.drop_last(),
            ..old(self)@
        }));
        assert(next is None ==> self@ =~= old(self)@);
        next
    }

    /// Takes in the entries of a directory at depth `depth`. A directory that
    /// cannot be read has none.
    pub fn visit(&mut self, depth: usize, entries: &Vec<DirEntry>)
        requires
            depth < WHEEL_SEARCH_DEPTH,
        ensures
            final(self)@ == old(self)@.with_entries(depth, entry_views(entries@)),
    {
        let ghost all = entry_views(entries@);
        let mut k: usize = 0;
        assert(all.take(0) =~= Seq::<(Seq<char>, bool)>::empty());
        while k < entries.len()
            invariant
                depth < WHEEL_SEARCH_DEPTH,
                k <= entries@.len(),
                all == entry_views(entries@),
                self@ == old(self)@.with_entries(depth, all.take(k as int)),
            decreases entries.len() - k,
        {
            let ghost before = self@;
            let entry = &entries[k];
            if entry.is_dir {
                if depth + 1 < WHEEL_SEARCH_DEPTH {
                    self.frontier.push((entry.path.clone(), depth + 1));
                }
            } else if is_runtime_lib(entry.path.as_str()) {
                self.found.push(entry.path.clone());
            }
            proof {
                assert(self@ =~= before.with_entry(depth, all[k as int]));
                assert(all.take(k + 1).drop_last() =~= all.take(k as int));
            }
            k = k + 1;
        }
        assert(all.take(k as int) =~= all);
    }

    /// The runtimes that were found, newest major version first, then by path.
    pub fn finish(self) -> (r: Vec<String>)
        ensures
            texts(r@) == sorted_libs(self@.found),
    {
        sort_libs(self.found)
    }
}

/// The start of a search beneath `roots`.
pub open spec fn search_start(roots: Seq<Seq<char>>) -> SearchView {
    SearchView {
        frontier: roots.map_values(|root: Seq<char>| (root, 0usize)),
        found: Seq::empty(),
    }
}

/// A search for runtimes beneath `roots`, the directories of vendor packages.
pub fn search_wheel_roots(roots: &Vec<String>) -> (r: WheelSearch)
    ensures
        r@ == search_start(texts(roots@)),
{
    let mut frontier: Vec<(String, usize)> = Vec::new();
    while frontier.len() < roots.len()
        invariant
            frontier@.len() <= roots@.len(),
            forall|i: int|
                0 <= i < frontier@.len() ==> (#[trigger] frontier@[i]).0@ == roots@[i]@
                    && frontier@[i].1 == 0,
        decreases roots.len() - frontier.len(),
    {
        frontier.push((roots[frontier.len()].clone(), 0));
    }
    let r = WheelSearch { frontier, found: Vec::new() };
    assert(r@ =~= search_start(texts(roots@)));
    r
}

/// If a key is not less than a second one, and that not than a third, the
/// first is not less than the third.
proof fn lemma_lex_transitive(a: Seq<u32>, b: Seq<u32>, c: Seq<u32>, from: int)
    requires
        0 <= from,
        !lex_less(a, b, from),
        !lex_less(b, c, from),
    ensures
        !lex_less(a, c, from),
    decreases a.len() - from,
{
    if from < a.len() && from < b.len() && from < c.len() && a[from] == b[from] && b[from]
        == c[from] {
        lemma_lex_transitive(a, b, c, from + 1);
    }
}

/// Not both of two keys are less than the other.
proof fn lemma_lex_asymmetric(a: Seq<u32>, b: Seq<u32>, from: int)
    requires
        0 <= from,
        lex_less(a, b, from),
    ensures
        !lex_less(b, a, from),
    decreases a.len() - from,
{
    if from < a.len() && from < b.len() && a[from] == b[from] {
        lemma_lex_asymmetric(a, b, from + 1);
    }
}

/// The order of runtimes is an order.
pub proof fn lemma_lib_order(a: Seq<char>, b: Seq<char>, c: Seq<char>)
    ensures
        !lib_before(a, b) && !lib_before(b, c) ==> !lib_before(a, c),
        lib_before(a, b) ==> !lib_before(b, a),
{
    if !lib_before(a, b) && !lib_before(b, c) && major_of(a) == major_of(b) && major_of(b)
        == major_of(c) {
        lemma_lex_transitive(path_key(a), path_key(b), path_key(c), 0);
    }
    if lib_before(a, b) && major_of(a) == major_of(b) {
        lemma_lex_asymmetric(path_key(a), path_key(b), 0);
    }
}

/// Whether no runtime stands behind one that it comes before.
pub open spec fn in_order(libs: Seq<Seq<char>>) -> bool {
    forall|i: int, j: int|
        0 <= i < j < libs.len() ==> !lib_before(#[trigger] libs[j], #[trigger] libs[i])
}

/// Putting a runtime in its place keeps the order, and adds just that one.
pub proof fn lemma_placed_in_order(sorted: Seq<Seq<char>>, lib: Seq<char>)
    requires
        in_order(sorted),
    ensures
        in_order(placed_in(sorted, lib)),
        placed_in(sorted, lib).to_multiset() == sorted.to_multiset().insert(lib),
        placed_in(sorted, lib).len() == sorted.len() + 1,
        forall|x: Seq<char>| #[trigger]
            placed_in(sorted, lib).contains(x) <==> sorted.contains(x) || x == lib,
    decreases sorted.len(),
{
    broadcast use vstd::seq_lib::group_to_multiset_ensures;

    if sorted.len() > 0 && lib_before(lib, sorted.last()) {
        let rest = sorted.drop_last();
        let last = sorted.last();
        lemma_placed_in_order(rest, lib);
        let placed = placed_in(rest, lib);
        assert forall|i: int, j: int| 0 <= i < j < placed.push(last).len() implies !lib_before(
            #[trigger] placed.push(last)[j],
            #[trigger] placed.push(last)[i],
        ) by {
            if j == placed.len() {
                let x = placed[i];
                assert(placed.contains(x));
                if x == lib {
                    lemma_lib_order(lib, last, last);
                } else {
                    assert(rest.contains(x));
                    let k = choose|k: int| 0 <= k < rest.len() && rest[k] == x;
                    assert(!lib_before(sorted[sorted.len() - 1], sorted[k]));
                }
            }
        }
        assert(sorted =~= rest.push(last));
        assert(placed.push(last).to_multiset() =~= sorted.to_multiset().insert(lib));
        assert forall|x: Seq<char>|
            placed.push(last).contains(x) <==> sorted.contains(x) || x == lib by {
            if placed.push(last).contains(x) {
                let k = choose|k: int| 0 <= k < placed.push(last).len() && placed.push(last)[k]
                    == x;
                if k < placed.len() {
                    assert(placed.contains(placed[k]));
                    if x != lib {
                        let m = choose|m: int| 0 <= m < rest.len() && rest[m] == x;
                        assert(sorted[m] == x);
                    }
                } else {
                    assert(sorted[sorted.len() - 1] == x);
                }
            }
            if sorted.contains(x) || x == lib {
                if x == last {
                    assert(placed.push(last)[placed.len() as int] == x);
                } else {
                    if x != lib {
                        let m = choose|m: int| 0 <= m < sorted.len() && sorted[m] == x;
                        assert(rest[m] == x);
                    }
                    assert(placed.contains(x));
                    let k = choose|k: int| 0 <= k < placed.len() && placed[k] == x;
                    assert(placed.push(last)[k] == x);
                }
            }
        }
    } else {
        let pushed = sorted.push(lib);
        assert forall|i: int, j: int| 0 <= i < j < pushed.len() implies !lib_before(
            #[trigger] pushed[j],
            #[trigger] pushed[i],
        ) by {
            if j == sorted.len() && i < sorted.len() - 1 {
                assert(!lib_before(sorted[sorted.len() - 1], sorted[i]));
                lemma_lib_order(lib, sorted.last(), sorted[i]);
            }
        }
        assert forall|x: Seq<char>| pushed.contains(x) <==> sorted.contains(x) || x == lib by {
            if pushed.contains(x) && x != lib {
                let k = choose|k: int| 0 <= k < pushed.len() && pushed[k] == x;
                assert(sorted[k] == x);
            }
            if sorted.contains(x) {
                let k = choose|k: int| 0 <= k < sorted.len() && sorted[k] == x;
                assert(pushed[k] == x);
            }
            if x == lib {
                assert(pushed[sorted.len() as int] == x);
            }
        }
    }
}

/// Sorting loses nothing, adds nothing, and puts the newest major version
/// first.
pub proof fn lemma_sorted_libs(libs: Seq<Seq<char>>)
    ensures
        in_order(sorted_libs(libs)),
        sorted_libs(libs).to_multiset() == libs.to_multiset(),
        forall|i: int, j: int|
            0 <= i < j < libs.len() ==> major_of(#[trigger] sorted_libs(libs)[i]) >= major_of(
                #[trigger] sorted_libs(libs)[j],
            ),
        sorted_libs(libs).len() == libs.len(),
    decreases libs.len(),
{
    broadcast use vstd::seq_lib::group_to_multiset_ensures;

    if libs.len() > 0 {
        let rest = libs.drop_last();
        lemma_sorted_libs(rest);
        lemma_placed_in_order(sorted_libs(rest), libs.last());
        assert(libs =~= rest.push(libs.last()));
        assert forall|i: int, j: int| 0 <= i < j < libs.len() implies major_of(
            #[trigger] sorted_libs(libs)[i],
        ) >= major_of(#[trigger] sorted_libs(libs)[j]) by {
            assert(!lib_before(sorted_libs(libs)[j], sorted_libs(libs)[i]));
        }
    }
}

/// Whether any two different runtimes among `libs` are told apart by the
/// order, as paths without superfluous slashes and dots are.
pub open spec fn told_apart(libs: Seq<Seq<char>>) -> bool {
    forall|x: Seq<char>, y: Seq<char>|
        #![trigger libs.contains(x), libs.contains(y)]
        libs.contains(x) && libs.contains(y) && x != y ==> lib_before(x, y) || lib_before(y, x)
}

/// There is one way only to put runtimes in order.
proof fn lemma_one_order(a: Seq<Seq<char>>, b: Seq<Seq<char>>)
    requires
        in_order(a),
        in_order(b),
        told_apart(a),
        a.to_multiset() == b.to_multiset(),
    ensures
        a == b,
    decreases a.len(),
{
    broadcast use vstd::seq_lib::group_to_multiset_ensures;

    assert(a.len() == a.to_multiset().len());
    assert(b.len() == b.to_multiset().len());
    if a.len() == 0 {
        assert(a =~= b);
    } else {
        let x = a.last();
        let y = b.last();
        assert(a[a.len() - 1] == x && b[b.len() - 1] == y);
        assert(a.contains(x) && b.contains(y));
        assert(b.to_multiset().contains(y) && a.to_multiset().contains(x));
        assert(a.to_multiset().contains(y) && b.to_multiset().contains(x));
        assert(a.contains(y) && b.contains(x));
        if x != y {
            let i = choose|i: int| 0 <= i < a.len() && a[i] == y;
            let j = choose|j: int| 0 <= j < b.len() && b[j] == x;
            assert(!lib_before(a[a.len() - 1], a[i]));
            assert(!lib_before(b[b.len() - 1], b[j]));
        }
        let a_rest = a.drop_last();
        let b_rest = b.drop_last();
        assert(a =~= a_rest.push(x));
        assert(b =~= b_rest.push(x));
        assert(a_rest.to_multiset() =~= a.to_multiset().remove(x));
        assert(b_rest.to_multiset() =~= b.to_multiset().remove(x));
        assert(told_apart(a_rest)) by {
            assert forall|p: Seq<char>, q: Seq<char>|
                #![trigger a_rest.contains(p), a_rest.contains(q)]
                a_rest.contains(p) && a_rest.contains(q) && p != q implies lib_before(p, q)
                || lib_before(q, p) by {
                let i = choose|i: int| 0 <= i < a_rest.len() && a_rest[i] == p;
                let j = choose|j: int| 0 <= j < a_rest.len() && a_rest[j] == q;
                assert(a[i] == p && a[j] == q);
                assert(a.contains(p) && a.contains(q));
            }
        }
        assert(in_order(a_rest)) by {
            assert forall|i: int, j: int| 0 <= i < j < a_rest.len() implies !lib_before(
                #[trigger] a_rest[j],
                #[trigger] a_rest[i],
            ) by {
                assert(!lib_before(a[j], a[i]));
            }
        }
        assert(in_order(b_rest)) by {
            assert forall|i: int, j: int| 0 <= i < j < b_rest.len() implies !lib_before(
                #[trigger] b_rest[j],
                #[trigger] b_rest[i],
            ) by {
                assert(!lib_before(b[j], b[i]));
            }
        }
        lemma_one_order(a_rest, b_rest);
    }
}

/// The result of a search does not depend on the order in which directories
/// list their entries: the same runtimes, found in any order, come out in the
/// same one.
pub proof fn lemma_search_deterministic(found: Seq<Seq<char>>, other: Seq<Seq<char>>)
    requires
        found.to_multiset() == other.to_multiset(),
        told_apart(found),
    ensures
        sorted_libs(found) == sorted_libs(other),
{
    broadcast use vstd::seq_lib::group_to_multiset_ensures;

    lemma_sorted_libs(found);
    lemma_sorted_libs(other);
    let sorted = sorted_libs(found);
    assert(told_apart(sorted)) by {
        assert forall|p: Seq<char>, q: Seq<char>|
            #![trigger sorted.contains(p), sorted.contains(q)]
            sorted.contains(p) && sorted.contains(q) && p != q implies lib_before(p, q)
            || lib_before(q, p) by {
            assert(sorted.to_multiset().count(p) == found.to_multiset().count(p));
            assert(sorted.to_multiset().count(q) == found.to_multiset().count(q));
            assert(found.contains(p) && found.contains(q));
        }
    }
    lemma_one_order(sorted_libs(found), sorted_libs(other));
}

/// A search never goes deeper than it may: whatever is on its list is at a
/// depth below the limit.
pub proof fn lemma_search_depth(s: SearchView, depth: usize, entries: Seq<(Seq<char>, bool)>)
    requires
        forall|i: int|
            0 <= i < s.frontier.len() ==> (#[trigger] s.frontier[i]).1 < WHEEL_SEARCH_DEPTH,
    ensures
        forall|i: int|
            0 <= i < s.with_entries(depth, entries).frontier.len() ==> (#[trigger] s.with_entries(
                depth,
                entries,
            ).frontier[i]).1 < WHEEL_SEARCH_DEPTH,
    decreases entries.len(),
{
    if entries.len() > 0 {
        let before = s.with_entries(depth, entries.drop_last());
        lemma_search_depth(s, depth, entries.drop_last());
        let after = before.with_entry(depth, entries.last());
        assert forall|i: int| 0 <= i < after.frontier.len() implies (
        #[trigger] after.frontier[i]).1 < WHEEL_SEARCH_DEPTH by {
            if i < before.frontier.len() {
                assert(before.frontier[i].1 < WHEEL_SEARCH_DEPTH);
            }
        }
    }
}

} // verus!
