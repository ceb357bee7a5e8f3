//! What errors tell: the names, numbers and reasons in them.

use crate::host_pinning::register::{error_name, PinPhase, PinRun};
use crate::host_pinning::resolve::{
    is_digit, probed_text, rung_lines, rung_report, texts, LadderWalk, Rung,
};
use crate::host_pinning::PinError;
use crate::laws::runtimes::lemma_decimal_reads_back;
use crate::text::{decimal, signed_decimal};
use vstd::prelude::*;

verus! {

/// A CUDA error has the name that the runtime gives it. Without one its text
/// ends with its code, and errors of different codes have different texts.
pub proof fn lemma_error_named(
    name: Option<String>,
    code: i32,
    r: String,
    other_code: i32,
    other: String,
)
    requires
        call_ensures(error_name, (name, code), r),
        call_ensures(error_name, (None::<String>, other_code), other),
    ensures
        name matches Some(n) ==> r@ == n@,
        name is None ==> signed_decimal(code as int).is_suffix_of(r@),
        name is None && r@ == other@ ==> code == other_code,
{
    if name is None {
        let head = "unrecognised CUDA error "@;
        let n = head.len() as int;
        assert(r@.skip(n) =~= signed_decimal(code as int));
        assert(other@.skip(n) =~= signed_decimal(other_code as int));
        assert(signed_decimal(code as int) =~= r@.subrange(
            r@.len() - signed_decimal(code as int).len(),
            r@.len() as int,
        ));
        if r@ == other@ {
            lemma_signed_apart(code as int, other_code as int);
        }
    }
}

/// Different numbers are written differently.
proof fn lemma_signed_apart(a: int, b: int)
    requires
        signed_decimal(a) == signed_decimal(b),
    ensures
        a == b,
{
    let m = if a < 0 {
        (-a) as nat
    } else {
        a as nat
    };
    let n = if b < 0 {
        (-b) as nat
    } else {
        b as nat
    };
    lemma_decimal_reads_back(m, -1);
    lemma_decimal_reads_back(n, -1);
    assert(is_digit(decimal(m)[0]));
    assert(is_digit(decimal(n)[0]));
    if a < 0 {
        assert(signed_decimal(a)[0] == '-');
        assert(signed_decimal(a).skip(1) =~= decimal(m));
    }
    if b < 0 {
        assert(signed_decimal(b)[0] == '-');
        assert(signed_decimal(b).skip(1) =~= decimal(n));
    }
}

/// A run that failed reports the region that was rejected, by its place and its
/// bytes, with the code and its name. A run that did not fail reports nothing.
pub proof fn lemma_rejection_reported(
    run: &PinRun,
    name: Option<String>,
    failed: usize,
    code: i32,
    r: Option<PinError>,
    text: String,
)
    requires
        call_ensures(PinRun::error, (run, name), r),
        call_ensures(error_name, (name, code), text),
        run.phase_view() == (PinPhase::Failed { failed, code }),
    ensures
        r matches Some(PinError::Registration { name: n, code: c, region_index, len })
            && region_index == failed && c == code && len == run.region_seq()[failed as int].len
            && n@ == text@,
{
}

/// The message of a rejected registration names the error, its code, the place
/// of the region and its bytes, in this order.
pub proof fn lemma_rejection_message(
    error: &PinError,
    name: String,
    code: i32,
    region_index: usize,
    len: usize,
    r: String,
)
    requires
        *error == (PinError::Registration { name, code, region_index, len }),
        call_ensures(PinError::message, (error,), r),
    ensures
        ({
            let first = signed_decimal(code as int);
            let second = decimal(region_index as nat);
            let third = decimal(len as nat);
            let name_at = 54int;
            let code_at = name_at + name@.len() + 2;
            let index_at = code_at + first.len() + 17;
            let len_at = index_at + second.len() + 2;
            &&& r@.subrange(name_at, name_at + name@.len()) == name@
            &&& r@.subrange(code_at, code_at + first.len()) == first
            &&& r@.subrange(index_at, index_at + second.len()) == second
            &&& r@.subrange(len_at, len_at + third.len()) == third
            &&& r@[len_at + third.len()] == ' '
        }),
{
    reveal_strlit("pin_host_memory=True but cudaHostRegister failed with ");
    reveal_strlit(" (");
    reveal_strlit(") on ring buffer ");
    reveal_strlit(
        " bytes). Registrations made before the failure have been rolled back. A usable CUDA device must be visible to this process; construct the Server after CUDA is initialised.",
    );
    let first = signed_decimal(code as int);
    let second = decimal(region_index as nat);
    let third = decimal(len as nat);
    let code_at = 54int + name@.len() + 2;
    let index_at = code_at + first.len() + 17;
    let len_at = index_at + second.len() + 2;
    assert(r@ == error.text());
    assert(r@.subrange(54, 54int + name@.len()) =~= name@);
    assert(r@.subrange(code_at, code_at + first.len()) =~= first);
    assert(r@.subrange(index_at, index_at + second.len()) =~= second);
    assert(r@.subrange(len_at, len_at + third.len()) =~= third);
}

/// A walk keeps the reasons in the order of the candidates.
pub proof fn lemma_reason_kept(walk: &mut LadderWalk, reason: String, i: int)
    requires
        call_ensures(LadderWalk::failed, (walk, reason), ()),
        0 <= i < old(walk).reason_texts().len(),
    ensures
        final(walk).reason_texts().len() == old(walk).reason_texts().len() + 1,
        final(walk).reason_texts()[i] == old(walk).reason_texts()[i],
        final(walk).reason_texts().last() == reason@,
        final(walk).ladder_view() == old(walk).ladder_view(),
        final(walk).root_texts() == old(walk).root_texts(),
{
}

/// The lines on a rung have one for each of its candidates.
proof fn lemma_line_on_rung(
    ladder: Seq<(Seq<char>, Rung)>,
    reasons: Seq<Seq<char>>,
    i: int,
)
    requires
        0 <= i < ladder.len(),
    ensures
        rung_lines(ladder[i].1, ladder, reasons).contains(probed_text(ladder[i], reasons[i])),
    decreases ladder.len(),
{
    let rung = ladder[i].1;
    let rest = ladder.drop_last();
    let before = rung_lines(rung, rest, reasons);
    let after = rung_lines(rung, ladder, reasons);
    let line = probed_text(ladder[i], reasons[i]);
    if i == ladder.len() - 1 {
        assert(after[before.len() as int] == line);
    } else {
        assert(rest[i] == ladder[i]);
        lemma_line_on_rung(rest, reasons, i);
        let k = choose|k: int| 0 <= k < before.len() && before[k] == line;
        assert(after[k] == line);
    }
}

/// When nothing opens, the error has a line for every candidate: its name, the
/// name of its rung, and the reason why it did not open.
pub proof fn lemma_every_candidate_reported(walk: LadderWalk, r: PinError, i: int)
    requires
        call_ensures(LadderWalk::into_error, (walk,), r),
        walk.reason_texts().len() == walk.ladder_view().len(),
        0 <= i < walk.ladder_view().len(),
    ensures
        r matches PinError::RuntimeUnavailable { probed } && texts(probed@).contains(
            walk.ladder_view()[i].0 + " ["@ + walk.ladder_view()[i].1.label_text() + "]: "@
                + walk.reason_texts()[i],
        ),
{
    let (ladder, reasons, roots) = (walk.ladder_view(), walk.reason_texts(), walk.root_texts());
    let line = probed_text(ladder[i], reasons[i]);
    lemma_line_on_rung(ladder, reasons, i);
    let lines = rung_lines(ladder[i].1, ladder, reasons);
    let one = rung_report(Rung::AlreadyLoaded, ladder, reasons, roots);
    let two = rung_report(Rung::InstalledWheel, ladder, reasons, roots);
    let three = rung_report(Rung::Soname, ladder, reasons, roots);
    let all = one + two + three;
    let k = choose|k: int| 0 <= k < lines.len() && lines[k] == line;
    assert(rung_report(ladder[i].1, ladder, reasons, roots) == lines);
    let at = match ladder[i].1 {
        Rung::AlreadyLoaded => k,
        Rung::InstalledWheel => one.len() + k,
        Rung::Soname => one.len() + two.len() + k,
    };
    assert(all[at] == line);
    assert(line == ladder[i].0 + " ["@ + ladder[i].1.label_text() + "]: "@ + reasons[i]);
}

} // verus!
