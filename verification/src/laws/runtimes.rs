//! CUDA runtimes: numbers in text, file names and the versions in them, and the
//! order in which runtimes are tried.

use crate::host_pinning::resolve::{
    after_last, all_digits, decimal_value, file_name, is_digit, is_runtime_lib, lemma_next_index,
    major_of_name, next_index, parse_u32, runtime_name, soname_major, texts, without_plus,
};
use crate::host_pinning::wheels::{
    lemma_sorted_libs, lex_less, lib_before, major_of, name_key, part_key, parts_from, parts_key,
    path_key, sorted_libs, start_key, WheelSearch,
};
use crate::text::{append_decimal, decimal, digit_char, signed_decimal};
use vstd::arithmetic::power::{lemma_pow0, lemma_pow1, lemma_pow_adds, pow};
use vstd::prelude::*;

verus! {

/// What digits stand for: a digit for its value, and digits before others for
/// ten times as much for each that follows.
pub proof fn lemma_decimal_value(first: Seq<char>, then: Seq<char>, c: char)
    requires
        all_digits(first),
        all_digits(then),
        is_digit(c),
    ensures
        decimal_value(Seq::<char>::empty()) == 0,
        decimal_value(seq![c]) == c as int - '0' as int,
        decimal_value(first + then) == decimal_value(first) * pow(10, then.len())
            + decimal_value(then),
    decreases then.len(),
{
    assert(seq![c].drop_last() =~= Seq::<char>::empty());
    assert(decimal_value(seq![c].drop_last()) == 0);
    if then.len() == 0 {
        assert(first + then =~= first);
        lemma_pow0(10);
        assert(decimal_value(first) * 1 == decimal_value(first)) by (nonlinear_arith);
    } else {
        let fewer = then.drop_last();
        assert(all_digits(fewer)) by {
            assert forall|i: int| 0 <= i < fewer.len() implies is_digit(#[trigger] fewer[i]) by {
                assert(is_digit(then[i]));
            }
        }
        assert(is_digit(then[then.len() - 1]));
        lemma_decimal_value(first, fewer, c);
        assert((first + then).drop_last() =~= first + fewer);
        lemma_pow_adds(10, fewer.len(), 1);
        lemma_pow1(10);
        let (v, p) = (decimal_value(first) as int, pow(10, fewer.len()));
        assert(10 * (v * p) == v * (p * 10)) by (nonlinear_arith);
    }
}

/// A number that is written in decimal reads back: its text is digits alone,
/// with no zero before others, and stands for the number. A negative number
/// has a sign before it.
pub proof fn lemma_decimal_reads_back(n: nat, k: int)
    requires
        k < 0,
    ensures
        decimal(n).len() > 0,
        all_digits(decimal(n)),
        decimal_value(decimal(n)) == n,
        decimal(n)[0] == '0' ==> n == 0 && decimal(n).len() == 1,
        signed_decimal(n as int) == decimal(n),
        signed_decimal(k) == seq!['-'] + decimal((-k) as nat),
    decreases n,
{
    if n < 10 {
        let d = digit_char(n as int);
        assert(d as int == 48 + n);
        assert(decimal(n) =~= seq![d]);
        assert(seq![d].drop_last() =~= Seq::<char>::empty());
        assert(decimal_value(seq![d].drop_last()) == 0);
    } else {
        let d = digit_char((n % 10) as int);
        assert(d as int == 48 + n % 10);
        lemma_decimal_reads_back(n / 10, k);
        let fewer = decimal(n / 10);
        assert(decimal(n).drop_last() =~= fewer);
        assert forall|i: int| 0 <= i < decimal(n).len() implies is_digit(
            #[trigger] decimal(n)[i],
        ) by {
            if i < fewer.len() {
                assert(is_digit(fewer[i]));
            }
        }
    }
}

/// [`next_index`] stops at the first place where it can.
proof fn lemma_next_index_at(s: Seq<char>, c: char, from: int, at: int)
    requires
        0 <= from <= at <= s.len(),
        forall|k: int| from <= k < at ==> s[k] != c,
        at < s.len() ==> s[at] == c,
    ensures
        next_index(s, c, from) == at,
    decreases at - from,
{
    if from < at {
        lemma_next_index_at(s, c, from + 1, at);
    }
}

/// [`next_index`] passes over nothing that it looks for.
proof fn lemma_next_index_first(s: Seq<char>, c: char, from: int)
    requires
        0 <= from <= s.len(),
    ensures
        forall|k: int| from <= k < next_index(s, c, from) ==> s[k] != c,
    decreases s.len() - from,
{
    if from < s.len() && s[from] != c {
        lemma_next_index_first(s, c, from + 1);
    }
}

/// [`after_last`] stops behind the last place where it can.
proof fn lemma_after_last_at(s: Seq<char>, c: char, upto: int, at: int)
    requires
        0 <= at <= upto <= s.len(),
        forall|k: int| at <= k < upto ==> s[k] != c,
        at > 0 ==> s[at - 1] == c,
    ensures
        after_last(s, c, upto) == at,
    decreases upto - at,
{
    if upto > at {
        lemma_after_last_at(s, c, upto - 1, at);
    }
}

/// [`after_last`] stays in range, behind what it looks for, and passes over
/// none of it.
proof fn lemma_after_last(s: Seq<char>, c: char, upto: int)
    requires
        0 <= upto <= s.len(),
    ensures
        0 <= after_last(s, c, upto) <= upto,
        after_last(s, c, upto) > 0 ==> s[after_last(s, c, upto) - 1] == c,
        forall|k: int| after_last(s, c, upto) <= k < upto ==> s[k] != c,
    decreases upto,
{
    if upto > 0 && s[upto - 1] != c {
        lemma_after_last(s, c, upto - 1);
    }
}

/// Whether `dir` ends where a file name may begin: it is empty, or ends with a
/// slash.
pub open spec fn before_name(dir: Seq<char>) -> bool {
    dir.len() == 0 || dir.last() == '/'
}

/// The file name of a path is what stands behind its directory.
pub proof fn lemma_file_name(dir: Seq<char>, name: Seq<char>)
    requires
        before_name(dir),
        !name.contains('/'),
    ensures
        file_name(dir + name) == name,
{
    let path = dir + name;
    assert forall|k: int| dir.len() <= k < path.len() implies path[k] != '/' by {
        assert(path[k] == name[k - dir.len()]);
    }
    lemma_after_last_at(path, '/', path.len() as int, dir.len() as int);
    assert(path.skip(dir.len() as int) =~= name);
}

/// Every path has a file name behind its directory.
proof fn lemma_split_path(path: Seq<char>)
    ensures
        before_name(path.take(path.len() - file_name(path).len())),
        !file_name(path).contains('/'),
        path == path.take(path.len() - file_name(path).len()) + file_name(path),
{
    lemma_after_last(path, '/', path.len() as int);
    let at = after_last(path, '/', path.len() as int);
    assert(path.len() - file_name(path).len() == at);
    assert(path =~= path.take(at) + file_name(path));
    if file_name(path).contains('/') {
        let k = choose|k: int| 0 <= k < file_name(path).len() && file_name(path)[k] == '/';
        assert(path[at + k] == '/');
    }
}

/// A runtime is told by its file name: `libcudart.so`, alone or with a dot and
/// anything behind it, in whatever directory.
pub proof fn lemma_runtime_name(dir: Seq<char>, name: Seq<char>, tail: Seq<char>)
    requires
        before_name(dir),
        !tail.contains('/'),
        !name.contains('/'),
    ensures
        runtime_name(file_name(dir + "libcudart.so"@)),
        runtime_name(file_name(dir + "libcudart.so."@ + tail)),
        runtime_name(file_name(dir + name)) ==> name == "libcudart.so"@ || exists|rest: Seq<char>|
            name == #[trigger] ("libcudart.so."@ + rest),
{
    reveal_strlit("libcudart.so");
    reveal_strlit("libcudart.so.");
    lemma_file_name(dir, "libcudart.so"@);
    let versioned = "libcudart.so."@ + tail;
    assert(!versioned.contains('/')) by {
        if versioned.contains('/') {
            let k = choose|k: int| 0 <= k < versioned.len() && versioned[k] == '/';
            assert(k >= 13);
            assert(tail[k - 13] == '/');
        }
    }
    assert(dir + "libcudart.so."@ + tail =~= dir + versioned);
    lemma_file_name(dir, versioned);
    assert("libcudart.so."@ =~= versioned.take(13));
    lemma_file_name(dir, name);
    if "libcudart.so."@.is_prefix_of(name) {
        assert(name =~= "libcudart.so."@ + name.skip(13));
    }
}

/// Whether a path is that of a runtime with a number behind `libcudart.so.`:
/// digits, possibly after a plus sign, and then nothing or a dot and more.
pub open spec fn numbered(
    path: Seq<char>,
    dir: Seq<char>,
    sign: Seq<char>,
    digits: Seq<char>,
    tail: Seq<char>,
) -> bool {
    &&& path == dir + "libcudart.so."@ + sign + digits + tail
    &&& before_name(dir)
    &&& sign == Seq::<char>::empty() || sign == seq!['+']
    &&& digits.len() > 0 && all_digits(digits)
    &&& tail.len() == 0 || tail[0] == '.'
    &&& !tail.contains('/')
}

/// Whether the file name of a path has the number `n` between `libcudart.so.`
/// and the next dot or the end.
pub open spec fn has_number(path: Seq<char>, n: nat) -> bool {
    exists|dir: Seq<char>, sign: Seq<char>, digits: Seq<char>, tail: Seq<char>| #[trigger]
        numbered(path, dir, sign, digits, tail) && decimal_value(digits) == n && n <= u32::MAX
}

/// The major version of a runtime is the number behind `libcudart.so.` in its
/// file name, whatever the directory and whatever follows the next dot.
pub proof fn lemma_major_is_number(
    path: Seq<char>,
    dir: Seq<char>,
    sign: Seq<char>,
    digits: Seq<char>,
    tail: Seq<char>,
)
    requires
        numbered(path, dir, sign, digits, tail),
        decimal_value(digits) <= u32::MAX,
    ensures
        major_of(path) == decimal_value(digits),
        major_of_name(file_name(path)) == Some(decimal_value(digits) as u32),
{
    reveal_strlit("libcudart.so.");
    let name = "libcudart.so."@ + sign + digits + tail;
    let rest = sign + digits + tail;
    let end = sign.len() + digits.len();
    assert forall|k: int| 0 <= k < digits.len() implies #[trigger] digits[k] != '/' && digits[k]
        != '.' && digits[k] != '+' by {
        assert(is_digit(digits[k]));
    }
    assert(!name.contains('/')) by {
        if name.contains('/') {
            let k = choose|k: int| 0 <= k < name.len() && name[k] == '/';
            assert(k >= 13 + sign.len());
            if k < 13 + end {
                assert(digits[k - 13 - sign.len()] == '/');
            } else {
                assert(tail[k - 13 - end] == '/');
            }
        }
    }
    assert(path =~= dir + name);
    lemma_file_name(dir, name);
    assert("libcudart.so."@ =~= name.take(13));
    assert(name.skip(13) =~= rest);
    assert forall|k: int| 0 <= k < end implies rest[k] != '.' by {
        if k >= sign.len() {
            assert(rest[k] == digits[k - sign.len()]);
        }
    }
    lemma_next_index_at(rest, '.', 0, end as int);
    assert(rest.take(end as int) =~= sign + digits);
    if sign.len() == 0 {
        assert(sign + digits =~= digits);
        assert(digits[0] != '+');
    } else {
        assert((sign + digits).skip(1) =~= digits);
    }
    assert(without_plus(sign + digits) == digits);
}

/// A file name with a major version, taken apart.
proof fn lemma_split_name(name: Seq<char>) -> (r: (Seq<char>, Seq<char>, Seq<char>))
    requires
        major_of_name(name) is Some,
        !name.contains('/'),
    ensures
        ({
            let (sign, digits, tail) = r;
            &&& name == "libcudart.so."@ + (sign + digits + tail)
            &&& sign == Seq::<char>::empty() || sign == seq!['+']
            &&& digits.len() > 0 && all_digits(digits)
            &&& tail.len() == 0 || tail[0] == '.'
            &&& !tail.contains('/')
            &&& major_of_name(name) == Some(decimal_value(digits) as u32)
            &&& decimal_value(digits) <= u32::MAX
        }),
{
    reveal_strlit("libcudart.so.");
    let rest = name.skip(13);
    let end = next_index(rest, '.', 0);
    lemma_next_index(rest, '.', 0);
    let number = rest.take(end);
    let digits = without_plus(number);
    let sign = number.take(number.len() - digits.len());
    let tail = rest.skip(end);
    assert(parse_u32(number) is Some);
    assert(sign =~= if number.len() > 0 && number[0] == '+' {
        seq!['+']
    } else {
        Seq::<char>::empty()
    });
    assert(number =~= sign + digits);
    assert(rest =~= number + tail);
    assert(name =~= "libcudart.so."@ + rest);
    if tail.contains('/') {
        let k = choose|k: int| 0 <= k < tail.len() && tail[k] == '/';
        assert(name[13 + end + k] == '/');
    }
    (sign, digits, tail)
}

/// A runtime without such a number has major version zero.
pub proof fn lemma_no_number_no_major(path: Seq<char>)
    requires
        forall|n: nat| !has_number(path, n),
    ensures
        major_of(path) == 0,
{
    if major_of(path) != 0 {
        let name = file_name(path);
        lemma_split_path(path);
        let dir = path.take(path.len() - name.len());
        let (sign, digits, tail) = lemma_split_name(name);
        assert(dir + ("libcudart.so."@ + (sign + digits + tail)) =~= dir + "libcudart.so."@ + sign
            + digits + tail);
        assert(numbered(path, dir, sign, digits, tail));
        assert(has_number(path, decimal_value(digits)));
    }
}

/// A search puts the newest first: the number behind `libcudart.so.` in the
/// file name of a result is at least that of every result behind it, where a
/// name without a number counts as zero.
pub proof fn lemma_newest_first(found: Seq<Seq<char>>, i: int, j: int, n: nat, m: nat)
    requires
        0 <= i < j < found.len(),
        has_number(sorted_libs(found)[j], m),
    ensures
        has_number(sorted_libs(found)[i], n) ==> n >= m,
        (forall|k: nat| !has_number(sorted_libs(found)[i], k)) ==> m == 0,
{
    lemma_sorted_libs(found);
    let (a, b) = (sorted_libs(found)[i], sorted_libs(found)[j]);
    let (d1, s1, g1, t1) = choose|
        dir: Seq<char>,
        sign: Seq<char>,
        digits: Seq<char>,
        tail: Seq<char>,
    | #[trigger]
        numbered(b, dir, sign, digits, tail) && decimal_value(digits) == m && m <= u32::MAX;
    lemma_major_is_number(b, d1, s1, g1, t1);
    if has_number(a, n) {
        let (d0, s0, g0, t0) = choose|
            dir: Seq<char>,
            sign: Seq<char>,
            digits: Seq<char>,
            tail: Seq<char>,
        | #[trigger]
            numbered(a, dir, sign, digits, tail) && decimal_value(digits) == n && n <= u32::MAX;
        lemma_major_is_number(a, d0, s0, g0, t0);
    }
    if forall|k: nat| !has_number(a, k) {
        lemma_no_number_no_major(a);
    }
}

/// Whether a text is a proper name of a directory or a file.
pub open spec fn proper_name(name: Seq<char>) -> bool {
    &&& name.len() > 0
    &&& !name.contains('/')
    &&& name != seq!['.']
    &&& name != seq!['.', '.']
}

/// Whether one name orders before another: at the first character in which they
/// differ it has the lesser one, or it ends there.
pub open spec fn name_before(a: Seq<char>, b: Seq<char>) -> bool {
    exists|k: int|
        {
            &&& 0 <= k <= a.len()
            &&& k < b.len()
            &&& #[trigger] a.take(k) == b.take(k)
            &&& k == a.len() || a[k] < b[k]
        }
}

/// The parts of a path behind a slash follow those before it.
proof fn lemma_parts_of_both(s: Seq<char>, t: Seq<char>, from: int)
    requires
        0 <= from <= s.len(),
    ensures
        parts_from(s + seq!['/'] + t, from) == parts_from(s, from) + parts_from(t, 0),
    decreases s.len() - from,
{
    let path = s + seq!['/'] + t;
    lemma_next_index(s, '/', from);
    lemma_next_index_first(s, '/', from);
    let end = next_index(s, '/', from);
    lemma_next_index_at(path, '/', from, end);
    if end < s.len() {
        lemma_parts_of_both(s, t, end + 1);
        assert(path.subrange(from, end) =~= s.subrange(from, end));
        assert(parts_from(path, from) =~= parts_from(s, from) + parts_from(t, 0));
    } else {
        lemma_parts_behind(s + seq!['/'], t, 0);
        assert(path.subrange(from, end) =~= s.subrange(from, s.len() as int));
        assert(parts_from(path, from) =~= parts_from(s, from) + parts_from(t, 0));
    }
}

/// The parts behind a text are those of what follows it.
proof fn lemma_parts_behind(a: Seq<char>, b: Seq<char>, from: int)
    requires
        0 <= from <= b.len(),
    ensures
        parts_from(a + b, a.len() + from) == parts_from(b, from),
    decreases b.len() - from,
{
    let s = a + b;
    lemma_next_index(b, '/', from);
    lemma_next_index_first(b, '/', from);
    let end = next_index(b, '/', from);
    assert forall|k: int| a.len() + from <= k < a.len() + end implies s[k] != '/' by {
        assert(s[k] == b[k - a.len()]);
    }
    lemma_next_index_at(s, '/', a.len() + from, a.len() + end);
    if end < b.len() {
        lemma_parts_behind(a, b, end + 1);
        assert(s.subrange(a.len() + from, a.len() + end) =~= b.subrange(from, end));
    } else {
        assert(s.subrange(a.len() + from, s.len() as int) =~= b.subrange(from, b.len() as int));
    }
}

/// The keys of parts and others, one after the other.
proof fn lemma_keys_of_both(first: Seq<Seq<char>>, then: Seq<Seq<char>>)
    ensures
        parts_key(first + then) == parts_key(first) + parts_key(then),
    decreases first.len(),
{
    if first.len() == 0 {
        assert(first + then =~= then);
        assert(parts_key(first) + parts_key(then) =~= parts_key(then));
    } else {
        lemma_keys_of_both(first.drop_first(), then);
        assert((first + then).drop_first() =~= first.drop_first() + then);
        assert(parts_key(first + then) =~= parts_key(first) + parts_key(then));
    }
}

/// What is equal decides nothing; the first difference decides.
proof fn lemma_lex_at(a: Seq<u32>, b: Seq<u32>, from: int, at: int)
    requires
        0 <= from <= at <= a.len(),
        at < b.len(),
        forall|k: int| from <= k < at ==> a[k] == b[k],
        at == a.len() || a[at] < b[at],
    ensures
        lex_less(a, b, from),
    decreases at - from,
{
    if from < at {
        lemma_lex_at(a, b, from + 1, at);
    }
}

/// The key of a path of a name in a directory, and of what is beneath it.
proof fn lemma_path_key(dir: Seq<char>, name: Seq<char>, below: Seq<char>)
    requires
        proper_name(name),
        below.len() == 0 || below[0] == '/',
    ensures
        exists|rest: Seq<u32>|
            path_key(dir + seq!['/'] + name + below) == start_key(dir + seq!['/']) + parts_key(
                parts_from(dir, 0),
            ) + name_key(name) + rest,
{
    let path = dir + seq!['/'] + name + below;
    lemma_parts_of_both(dir, name + below, 0);
    assert(path =~= dir + seq!['/'] + (name + below));
    lemma_next_index_at(name, '/', 0, name.len() as int);
    assert(name.subrange(0, name.len() as int) =~= name);
    assert(parts_from(name, 0) =~= seq![name]);
    let first = parts_key(parts_from(dir, 0));
    assert(start_key(path) == start_key(dir + seq!['/']));
    if below.len() == 0 {
        assert(name + below =~= name);
        lemma_keys_of_both(parts_from(dir, 0), seq![name]);
        lemma_one_key(name);
        assert(path_key(path) =~= start_key(dir + seq!['/']) + first + name_key(name)
            + Seq::<u32>::empty());
    } else {
        let deeper = below.skip(1);
        assert(name + below =~= name + seq!['/'] + deeper);
        lemma_parts_of_both(name, deeper, 0);
        lemma_keys_of_both(parts_from(dir, 0), seq![name] + parts_from(deeper, 0));
        lemma_keys_of_both(seq![name], parts_from(deeper, 0));
        lemma_one_key(name);
        assert(path_key(path) =~= start_key(dir + seq!['/']) + first + name_key(name)
            + parts_key(parts_from(deeper, 0)));
    }
}

/// The key of one name.
proof fn lemma_one_key(name: Seq<char>)
    requires
        proper_name(name),
    ensures
        parts_key(seq![name]) == name_key(name),
{
    assert(seq![name].drop_first() =~= Seq::<Seq<char>>::empty());
    assert(parts_key(seq![name].drop_first()) =~= Seq::<u32>::empty());
    assert(part_key(name) == name_key(name));
    assert(parts_key(seq![name]) =~= name_key(name));
}

/// The key of a name has its characters in order.
proof fn lemma_key_at(name: Seq<char>, k: int)
    requires
        0 <= k < name.len(),
    ensures
        name_key(name)[k] == name[k] as int + 4,
        name_key(name)[k] >= 4,
{
    let c: char = name[k];
    lemma_code_point(c);
}

/// A code point and a little more is a 32-bit number.
proof fn lemma_code_point(c: char)
    ensures
        (c as int + 4) as u32 == c as int + 4,
        0 <= c as int,
{
    assert(c as int <= 0x10FFFF);
}

/// Runtimes of one major version come in the order of their paths: of two
/// beneath one directory, the one whose next name orders first, whatever is
/// beneath it.
pub proof fn lemma_paths_in_order(
    dir: Seq<char>,
    a: Seq<char>,
    b: Seq<char>,
    below_a: Seq<char>,
    below_b: Seq<char>,
)
    requires
        proper_name(a),
        proper_name(b),
        name_before(a, b),
        below_a.len() == 0 || below_a[0] == '/',
        below_b.len() == 0 || below_b[0] == '/',
        major_of(dir + seq!['/'] + a + below_a) == major_of(dir + seq!['/'] + b + below_b),
    ensures
        lib_before(dir + seq!['/'] + a + below_a, dir + seq!['/'] + b + below_b),
{
    let p = dir + seq!['/'] + a + below_a;
    let q = dir + seq!['/'] + b + below_b;
    lemma_path_key(dir, a, below_a);
    lemma_path_key(dir, b, below_b);
    let head = start_key(dir + seq!['/']) + parts_key(parts_from(dir, 0));
    let rest_a = choose|rest: Seq<u32>| path_key(p) == head + name_key(a) + rest;
    let rest_b = choose|rest: Seq<u32>| path_key(q) == head + name_key(b) + rest;
    let k = choose|k: int|
        {
            &&& 0 <= k <= a.len()
            &&& k < b.len()
            &&& #[trigger] a.take(k) == b.take(k)
            &&& k == a.len() || a[k] < b[k]
        };
    let at = head.len() + k;
    assert forall|i: int| 0 <= i < at implies path_key(p)[i] == path_key(q)[i] by {
        if i >= head.len() {
            let m = i - head.len();
            assert(a.take(k)[m] == b.take(k)[m]);
            assert(name_key(a)[m] == name_key(b)[m]);
        }
    }
    assert(path_key(p)[at] == name_key(a)[k]);
    assert(path_key(q)[at] == name_key(b)[k]);
    lemma_key_at(b, k);
    if k < a.len() {
        lemma_key_at(a, k);
    }
    lemma_lex_at(path_key(p), path_key(q), 0, at as int);
}

/// The major version that is read from a file name is the number between
/// `libcudart.so.` and the next dot or the end.
pub proof fn lemma_major_read(
    name: &str,
    r: Option<u32>,
    sign: Seq<char>,
    digits: Seq<char>,
    tail: Seq<char>,
)
    requires
        call_ensures(soname_major, (name,), r),
        numbered(name@, Seq::empty(), sign, digits, tail),
    ensures
        decimal_value(digits) <= u32::MAX ==> r == Some(decimal_value(digits) as u32),
{
    if decimal_value(digits) <= u32::MAX {
        lemma_major_is_number(name@, Seq::empty(), sign, digits, tail);
        reveal_strlit("libcudart.so.");
        lemma_split_path(name@);
        assert(!name@.contains('/')) by {
            if name@.contains('/') {
                let k = choose|k: int| 0 <= k < name@.len() && name@[k] == '/';
                if k >= 13 + sign.len() {
                    if k < 13 + sign.len() + digits.len() {
                        assert(is_digit(digits[k - 13 - sign.len()]));
                    } else {
                        assert(tail[k - 13 - sign.len() - digits.len()] == '/');
                    }
                }
            }
        }
        lemma_file_name(Seq::empty(), name@);
        assert(Seq::<char>::empty() + name@ =~= name@);
    }
}

/// What a search yields is what it found, newest first: the number behind
/// `libcudart.so.` in the file name of a result is at least that of every
/// result behind it, where a name without a number counts as zero.
pub proof fn lemma_search_yields_newest_first(
    search: WheelSearch,
    r: Vec<String>,
    i: int,
    j: int,
    n: nat,
    m: nat,
)
    requires
        call_ensures(WheelSearch::finish, (search,), r),
    ensures
        r@.len() == search@.found.len(),
        texts(r@).to_multiset() == search@.found.to_multiset(),
        0 <= i < j < r@.len() && has_number(r@[j]@, m) ==> {
            &&& has_number(r@[i]@, n) ==> n >= m
            &&& (forall|k: nat| !has_number(r@[i]@, k)) ==> m == 0
        },
{
    let sorted = sorted_libs(search@.found);
    lemma_sorted_libs(search@.found);
    assert(texts(r@) == sorted);
    assert(texts(r@).len() == r@.len());
    if 0 <= i < j < r@.len() && has_number(r@[j]@, m) {
        assert(texts(r@)[i] == r@[i]@ && texts(r@)[j] == r@[j]@);
        lemma_newest_first(search@.found, i, j, n, m);
    }
}

/// Whether a path is that of a runtime is told by its file name.
pub proof fn lemma_runtime_told(path: &str, r: bool, dir: Seq<char>, name: Seq<char>)
    requires
        call_ensures(is_runtime_lib, (path,), r),
        path@ == dir + name,
        before_name(dir),
        !name.contains('/'),
    ensures
        r <==> name == "libcudart.so"@ || exists|rest: Seq<char>|
            name == #[trigger] ("libcudart.so."@ + rest),
{
    lemma_file_name(dir, name);
    lemma_runtime_name(dir, name, Seq::empty());
    if exists|rest: Seq<char>| name == #[trigger] ("libcudart.so."@ + rest) {
        let rest = choose|rest: Seq<char>| name == #[trigger] ("libcudart.so."@ + rest);
        assert("libcudart.so."@ =~= name.take("libcudart.so."@.len() as int));
    }
}

/// A number is appended in decimal, and what was there stays.
pub proof fn lemma_decimal_appended(text: &mut String, n: u64, r: ())
    requires
        call_ensures(append_decimal, (text, n), r),
    ensures
        old(text)@.is_prefix_of(final(text)@),
        final(text)@.len() > old(text)@.len(),
        all_digits(final(text)@.skip(old(text)@.len() as int)),
        decimal_value(final(text)@.skip(old(text)@.len() as int)) == n,
{
    lemma_decimal_reads_back(n as nat, -1);
    assert(final(text)@.skip(old(text)@.len() as int) =~= decimal(n as nat));
    assert(old(text)@ =~= final(text)@.take(old(text)@.len() as int));
}

/// Spelling does not count in the order of paths: a doubled slash, and a dot
/// between slashes, are as if they were not there.
pub proof fn lemma_path_spelling(dir: Seq<char>, rest: Seq<char>)
    requires
        dir.len() > 0,
    ensures
        path_key(dir + seq!['/'] + (seq!['/'] + rest)) == path_key(dir + seq!['/'] + rest),
        path_key(dir + seq!['/'] + (seq!['.'] + seq!['/'] + rest)) == path_key(
            dir + seq!['/'] + rest,
        ),
{
    let none = Seq::<char>::empty();
    let dot = seq!['.'];
    let tail = parts_from(rest, 0);
    lemma_parts_of_both(dir, rest, 0);
    lemma_parts_of_both(dir, seq!['/'] + rest, 0);
    lemma_parts_of_both(dir, dot + seq!['/'] + rest, 0);
    lemma_parts_of_both(none, rest, 0);
    lemma_parts_of_both(dot, rest, 0);
    assert(none + seq!['/'] + rest =~= seq!['/'] + rest);
    lemma_next_index_at(none, '/', 0, 0);
    lemma_next_index_at(dot, '/', 0, 1);
    assert(none.subrange(0, 0) =~= none);
    assert(dot.subrange(0, 1) =~= dot);
    assert(parts_from(none, 0) =~= seq![none]);
    assert(parts_from(dot, 0) =~= seq![dot]);
    lemma_keys_of_both(parts_from(dir, 0), tail);
    lemma_keys_of_both(parts_from(dir, 0), seq![none] + tail);
    lemma_keys_of_both(parts_from(dir, 0), seq![dot] + tail);
    assert((seq![none] + tail).drop_first() =~= tail);
    assert((seq![dot] + tail).drop_first() =~= tail);
    assert(part_key(none) + parts_key(tail) =~= parts_key(tail));
    assert(part_key(dot) + parts_key(tail) =~= parts_key(tail));
    let short = dir + seq!['/'] + rest;
    let long = dir + seq!['/'] + (seq!['/'] + rest);
    let dotted = dir + seq!['/'] + (dot + seq!['/'] + rest);
    assert(start_key(long) == start_key(short));
    assert(start_key(dotted) == start_key(short));
}

/// Of two runtimes of one major version, one whose path goes on with the parent
/// directory comes before one whose path goes on with a name.
pub proof fn lemma_parent_first(
    dir: Seq<char>,
    rest: Seq<char>,
    name: Seq<char>,
    below: Seq<char>,
)
    requires
        dir.len() > 0,
        proper_name(name),
        below.len() == 0 || below[0] == '/',
        major_of(dir + seq!['/'] + (seq!['.', '.'] + seq!['/'] + rest)) == major_of(
            dir + seq!['/'] + name + below,
        ),
    ensures
        lib_before(
            dir + seq!['/'] + (seq!['.', '.'] + seq!['/'] + rest),
            dir + seq!['/'] + name + below,
        ),
{
    let up = seq!['.', '.'];
    let p = dir + seq!['/'] + (up + seq!['/'] + rest);
    let q = dir + seq!['/'] + name + below;
    let tail = parts_from(rest, 0);
    let head = start_key(dir + seq!['/']) + parts_key(parts_from(dir, 0));
    lemma_parts_of_both(dir, up + seq!['/'] + rest, 0);
    lemma_parts_of_both(up, rest, 0);
    lemma_next_index_at(up, '/', 0, 2);
    assert(up.subrange(0, 2) =~= up);
    assert(parts_from(up, 0) =~= seq![up]);
    lemma_keys_of_both(parts_from(dir, 0), seq![up] + tail);
    assert((seq![up] + tail).drop_first() =~= tail);
    assert(start_key(p) == start_key(dir + seq!['/']));
    assert(up.len() == 2);
    assert(part_key(up) == seq![3u32]);
    assert(path_key(p) =~= head + seq![3u32] + parts_key(tail));
    lemma_path_key(dir, name, below);
    let rest_q = choose|r: Seq<u32>| path_key(q) == head + name_key(name) + r;
    lemma_key_at(name, 0);
    let at = head.len() as int;
    assert(path_key(p)[at] == 3);
    assert(path_key(q)[at] == name_key(name)[0]);
    assert forall|k: int| 0 <= k < at implies path_key(p)[k] == path_key(q)[k] by {
        assert(path_key(p)[k] == head[k]);
    }
    lemma_lex_at(path_key(p), path_key(q), 0, at);
}

/// Of two runtimes of one major version, one with an absolute path comes before
/// one whose path begins with a name.
pub proof fn lemma_absolute_first(p: Seq<char>, name: Seq<char>, rest: Seq<char>)
    requires
        p.len() > 0 && p[0] == '/',
        proper_name(name),
        major_of(p) == major_of(name + seq!['/'] + rest),
    ensures
        lib_before(p, name + seq!['/'] + rest),
{
    let q = name + seq!['/'] + rest;
    let tail = parts_from(rest, 0);
    lemma_parts_of_both(name, rest, 0);
    assert forall|k: int| 0 <= k < name.len() implies name[k] != '/' by {
        assert(name.contains(name[k]));
    }
    lemma_next_index_at(name, '/', 0, name.len() as int);
    assert(name.subrange(0, name.len() as int) =~= name);
    assert(parts_from(name, 0) =~= seq![name]);
    lemma_keys_of_both(seq![name], tail);
    lemma_one_key(name);
    lemma_key_at(name, 0);
    if name.len() == 1 {
        assert(name[0] != '.') by {
            if name[0] == '.' {
                assert(name =~= seq!['.']);
            }
        }
    }
    assert(q[0] == name[0]);
    if name.len() > 1 {
        assert(q[1] == name[1]);
    }
    assert(start_key(q) =~= Seq::<u32>::empty());
    assert(path_key(q) =~= name_key(name) + parts_key(tail));
    assert(path_key(q)[0] == name_key(name)[0]);
    assert(path_key(p)[0] == 1);
    lemma_lex_at(path_key(p), path_key(q), 0, 0);
}

} // verus!
