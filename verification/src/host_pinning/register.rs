//! Page-locking host memory, and rolling back cleanly when part of it fails.

use crate::host_pinning::{PinError, Region, CUDA_SUCCESS};
use crate::text::{append_signed, signed_decimal};
use vstd::prelude::*;
use vstd::string::*;

verus! {

/// The flag that makes a registration valid in every CUDA context of the
/// process, those created later included. Pinning needs no device on that
/// account.
pub const CUDA_HOST_REGISTER_PORTABLE: u32 = 1;

/// How far a pinning run has got.
#[derive(Debug, Clone, Copy, PartialEq, Eq, Structural)]
pub enum PinPhase {
    /// The runtime is being initialised.
    Starting,
    /// The region at this place is being registered.
    Registering { at: usize },
    /// The region at this place is being unregistered, after another one was
    /// rejected.
    RollingBack { at: usize, failed: usize, code: i32 },
    /// Every region is locked.
    Pinned,
    /// A region was rejected, and none is locked.
    Failed { failed: usize, code: i32 },
}

/// The call to make next.
#[derive(Debug, Clone, Copy, PartialEq, Eq, Structural)]
pub enum PinAction {
    /// Force the runtime to initialise, by freeing a null pointer. What it
    /// returns does not matter.
    Initialise,
    /// Register a region.
    Register { index: usize },
    /// Unregister a region. What it returns does not matter.
    Unregister { index: usize },
    /// Nothing more.
    Finish,
}

/// The first region from `from` on and before `upto` that is not empty. There
/// is nothing to lock in an empty one.
pub open spec fn next_region(regions: Seq<Region>, from: int, upto: int) -> Option<int>
    decreases upto - from,
{
    if from >= upto {
        None
    } else if regions[from].len > 0 {
        Some(from)
    } else {
        next_region(regions, from + 1, upto)
    }
}

/// The phase when the regions from `from` on are left to be registered.
pub open spec fn register_from(regions: Seq<Region>, from: int) -> PinPhase {
    match next_region(regions, from, regions.len() as int) {
        Some(i) => PinPhase::Registering { at: i as usize },
        None => PinPhase::Pinned,
    }
}

/// The phase when the regions from `from` on, up to the rejected one, are left
/// to be unregistered.
pub open spec fn roll_back_from(
    regions: Seq<Region>,
    from: int,
    failed: usize,
    code: i32,
) -> PinPhase {
    match next_region(regions, from, failed as int) {
        Some(i) => PinPhase::RollingBack { at: i as usize, failed, code },
        None => PinPhase::Failed { failed, code },
    }
}

/// The phase after the call of `phase` returned `code`.
pub open spec fn pin_next(regions: Seq<Region>, phase: PinPhase, code: i32) -> PinPhase {
    match phase {
        PinPhase::Starting => register_from(regions, 0),
        PinPhase::Registering { at } => if code == CUDA_SUCCESS {
            register_from(regions, at + 1)
        } else {
            roll_back_from(regions, 0, at, code)
        },
        PinPhase::RollingBack { at, failed, code: first } => roll_back_from(
            regions,
            at + 1,
            failed,
            first,
        ),
        PinPhase::Pinned => phase,
        PinPhase::Failed { failed: _, code: _ } => phase,
    }
}

/// The call that a phase asks for.
pub open spec fn pin_action(phase: PinPhase) -> PinAction {
    match phase {
        PinPhase::Starting => PinAction::Initialise,
        PinPhase::Registering { at } => PinAction::Register { index: at },
        PinPhase::RollingBack { at, failed: _, code: _ } => PinAction::Unregister { index: at },
        PinPhase::Pinned => PinAction::Finish,
        PinPhase::Failed { failed: _, code: _ } => PinAction::Finish,
    }
}

/// The regions that are locked before the call of a phase is made.
pub open spec fn locked(regions: Seq<Region>, phase: PinPhase) -> Set<int> {
    match phase {
        PinPhase::Starting => Set::empty(),
        PinPhase::Registering { at } => Set::new(|i: int| 0 <= i < at && regions[i].len > 0),
        PinPhase::RollingBack { at, failed, code: _ } => Set::new(
            |i: int| at <= i < failed && regions[i].len > 0,
        ),
        PinPhase::Pinned => Set::new(|i: int| 0 <= i < regions.len() && regions[i].len > 0),
        PinPhase::Failed { failed: _, code: _ } => Set::empty(),
    }
}

/// Whether a phase makes sense for the given regions.
pub open spec fn phase_ok(regions: Seq<Region>, phase: PinPhase) -> bool {
    match phase {
        PinPhase::Starting => true,
        PinPhase::Registering { at } => at < regions.len() && regions[at as int].len > 0,
        PinPhase::RollingBack { at, failed, code } => at < failed < regions.len()
            && regions[at as int].len > 0 && regions[failed as int].len > 0 && code
            != CUDA_SUCCESS,
        PinPhase::Pinned => true,
        PinPhase::Failed { failed, code } => failed < regions.len() && regions[failed as int].len
            > 0 && code != CUDA_SUCCESS,
    }
}

/// What [`next_region`] finds is in range and not empty, and what it passes
/// over is empty.
pub(crate) proof fn lemma_next_region(regions: Seq<Region>, from: int, upto: int)
    requires
        0 <= from,
        upto <= regions.len(),
    ensures
        next_region(regions, from, upto) matches Some(i) ==> {
            &&& from <= i < upto
            &&& regions[i].len > 0
            &&& forall|k: int| from <= k < i ==> (#[trigger] regions[k]).len == 0
        },
        next_region(regions, from, upto) is None ==> forall|k: int|
            from <= k < upto ==> (#[trigger] regions[k]).len == 0,
    decreases upto - from,
{
    if from < upto && regions[from].len == 0 {
        lemma_next_region(regions, from + 1, upto);
    }
}

/// Every call keeps account of what is locked: a registration that succeeds
/// adds its region, one that fails adds nothing, and an unregistration takes
/// its region away. Only what is locked is ever unregistered, and only what is
/// not is registered.
pub proof fn lemma_pin_accounts(regions: Seq<Region>, phase: PinPhase, code: i32)
    requires
        phase_ok(regions, phase),
        regions.len() <= usize::MAX,
    ensures
        phase_ok(regions, pin_next(regions, phase, code)),
        locked(regions, pin_next(regions, phase, code)) == match pin_action(phase) {
            PinAction::Initialise => locked(regions, phase),
            PinAction::Register { index } => if code == CUDA_SUCCESS {
                locked(regions, phase).insert(index as int)
            } else {
                locked(regions, phase)
            },
            PinAction::Unregister { index } => locked(regions, phase).remove(index as int),
            PinAction::Finish => locked(regions, phase),
        },
        pin_action(phase) matches PinAction::Register { index } ==> !locked(
            regions,
            phase,
        ).contains(index as int),
        pin_action(phase) matches PinAction::Unregister { index } ==> locked(
            regions,
            phase,
        ).contains(index as int),
{
    let n = regions.len() as int;
    match phase {
        PinPhase::Starting => {
            lemma_next_region(regions, 0, n);
        },
        PinPhase::Registering { at } => {
            lemma_next_region(regions, at + 1, n);
            lemma_next_region(regions, 0, at as int);
        },
        PinPhase::RollingBack { at, failed, code: _ } => {
            lemma_next_region(regions, at + 1, failed as int);
        },
        PinPhase::Pinned => {},
        PinPhase::Failed { failed: _, code: _ } => {},
    }
    assert(locked(regions, pin_next(regions, phase, code)) =~= match pin_action(phase) {
        PinAction::Initialise => locked(regions, phase),
        PinAction::Register { index } => if code == CUDA_SUCCESS {
            locked(regions, phase).insert(index as int)
        } else {
            locked(regions, phase)
        },
        PinAction::Unregister { index } => locked(regions, phase).remove(index as int),
        PinAction::Finish => locked(regions, phase),
    });
}

/// The phase after the calls of a run returned `codes`.
pub open spec fn pin_after(regions: Seq<Region>, codes: Seq<i32>) -> PinPhase
    decreases codes.len(),
{
    if codes.len() == 0 {
        PinPhase::Starting
    } else {
        pin_next(regions, pin_after(regions, codes.drop_last()), codes.last())
    }
}

/// All or nothing: a run that has come to its end has either locked every
/// region that is not empty, or none.
pub proof fn lemma_all_or_nothing(regions: Seq<Region>, codes: Seq<i32>)
    requires
        regions.len() <= usize::MAX,
    ensures
        phase_ok(regions, pin_after(regions, codes)),
        pin_after(regions, codes) is Pinned ==> forall|i: int|
            0 <= i < regions.len() && (#[trigger] regions[i]).len > 0 ==> locked(
                regions,
                pin_after(regions, codes),
            ).contains(i),
        pin_after(regions, codes) is Failed ==> locked(regions, pin_after(regions, codes))
            == Set::<int>::empty(),
    decreases codes.len(),
{
    if codes.len() > 0 {
        lemma_all_or_nothing(regions, codes.drop_last());
        lemma_pin_accounts(regions, pin_after(regions, codes.drop_last()), codes.last());
    }
}

/// A run that locks every region, or leaves none of them locked.
pub struct PinRun {
    regions: Vec<Region>,
    phase: PinPhase,
}

impl PinRun {
    pub closed spec fn region_seq(&self) -> Seq<Region> {
        self.regions@
    }

    pub closed spec fn phase_view(&self) -> PinPhase {
        self.phase
    }

    pub closed spec fn wf(&self) -> bool {
        phase_ok(self.regions@, self.phase)
    }

    /// The phase of a run makes sense for its regions.
    pub proof fn lemma_phase(&self)
        requires
            self.wf(),
        ensures
            phase_ok(self.region_seq(), self.phase_view()),
    {
    }

    /// The call to make next.
    pub fn action(&self) -> (r: PinAction)
        ensures
            r == pin_action(self.phase_view()),
    {
        match self.phase {
            PinPhase::Starting => PinAction::Initialise,
            PinPhase::Registering { at } => PinAction::Register { index: at },
            PinPhase::RollingBack { at, failed: _, code: _ } => PinAction::Unregister { index: at },
            PinPhase::Pinned => PinAction::Finish,
            PinPhase::Failed { failed: _, code: _ } => PinAction::Finish,
        }
    }

    pub fn phase(&self) -> (r: PinPhase)
        ensures
            r == self.phase_view(),
    {
        self.phase
    }

    /// One of the regions.
    pub fn region(&self, index: usize) -> (r: Region)
        requires
            index < self.region_seq().len(),
        ensures
            r == self.region_seq()[index as int],
    {
        self.regions[index]
    }

    /// The first region from `from` on and before `upto` that is not empty.
    fn find_region(&self, from: usize, upto: usize) -> (r: Option<usize>)
        requires
            upto <= self.regions@.len(),
        ensures
            r is Some <==> next_region(self.regions@, from as int, upto as int) is Some,
            r matches Some(i) ==> next_region(self.regions@, from as int, upto as int) == Some(
                i as int,
            ),
    {
        let mut i: usize = from;
        while i < upto
            invariant
                from <= i,
                upto <= self.regions@.len(),
                next_region(self.regions@, from as int, upto as int) == next_region(
                    self.regions@,
                    i as int,
                    upto as int,
                ),
            decreases upto - i,
        {
            if self.regions[i].len > 0 {
                return Some(i);
            }
            i = i + 1;
        }
        None
    }

    /// Goes on after the call of [`PinRun::action`] returned `code`. The regions
    /// registered before a rejected one are unregistered, from the first on.
    pub fn advance(&mut self, code: i32)
        requires
            old(self).wf(),
        ensures
            final(self).wf(),
            final(self).region_seq() == old(self).region_seq(),
            final(self).phase_view() == pin_next(
                old(self).region_seq(),
                old(self).phase_view(),
                code,
            ),
    {
        let n: usize = self.regions.len();
        proof {
            lemma_pin_accounts(self.regions@, self.phase, code);
        }
        self.phase = match self.phase {
            PinPhase::Starting => match self.find_region(0, n) {
                Some(at) => PinPhase::Registering { at },
                None => PinPhase::Pinned,
            },
            PinPhase::Registering { at } => {
                if code == CUDA_SUCCESS {
                    match self.find_region(at + 1, n) {
                        Some(next) => PinPhase::Registering { at: next },
                        None => PinPhase::Pinned,
                    }
                } else {
                    match self.find_region(0, at) {
                        Some(first) => PinPhase::RollingBack { at: first, failed: at, code },
                        None => PinPhase::Failed { failed: at, code },
                    }
                }
            },
            PinPhase::RollingBack { at, failed, code: rejected } => match self.find_region(
                at + 1,
                failed,
            ) {
                Some(next) => PinPhase::RollingBack { at: next, failed, code: rejected },
                None => PinPhase::Failed { failed, code: rejected },
            },
            PinPhase::Pinned => PinPhase::Pinned,
            PinPhase::Failed { failed, code: rejected } => PinPhase::Failed {
                failed,
                code: rejected,
            },
        };
    }

    /// The error of a run that failed; `name` is what the runtime calls the
    /// code, if it has a name for it.
    pub fn error(&self, name: Option<String>) -> (r: Option<PinError>)
        requires
            self.wf(),
        ensures
            r is Some <==> self.phase_view() is Failed,
            self.phase_view() matches PinPhase::Failed { failed, code } ==> {
                &&& r matches Some(
                    PinError::Registration { name: n, code: c, region_index, len },
                )
                &&& c == code
                &&& region_index == failed
                &&& len == self.region_seq()[failed as int].len
                &&& n@ == error_name_text(name, code)
            },
    {
        match self.phase {
            PinPhase::Failed { failed, code } => Some(
                PinError::Registration {
                    name: error_name(name, code),
                    code,
                    region_index: failed,
                    len: self.regions[failed].len,
                },
            ),
            _ => None,
        }
    }

    /// The regions that are locked, in order: what has to be unregistered
    /// before the memory is freed.
    pub fn to_release(&self) -> (r: Vec<usize>)
        requires
            self.wf(),
        ensures
            self.phase_view() is Pinned ==> r@ == unpin_order_of(self.region_seq()),
            self.phase_view() is Failed || self.phase_view() is Starting ==> r@.len() == 0,
            forall|k: int|
                0 <= k < r@.len() ==> locked(self.region_seq(), self.phase_view()).contains(
                    #[trigger] r@[k] as int,
                ),
            forall|i: int| #[trigger]
                locked(self.region_seq(), self.phase_view()).contains(i) ==> r@.contains(
                    i as usize,
                ),
            forall|k: int, l: int| 0 <= k < l < r@.len() ==> #[trigger] r@[k] < #[trigger] r@[l],
    {
        let n: usize = self.regions.len();
        let (from, upto): (usize, usize) = match self.phase {
            PinPhase::Starting => (0, 0),
            PinPhase::Registering { at } => (0, at),
            PinPhase::RollingBack { at, failed, code: _ } => (at, failed),
            PinPhase::Pinned => (0, n),
            PinPhase::Failed { failed: _, code: _ } => (0, 0),
        };
        nonempty_between(&self.regions, from, upto)
    }
}

/// Begins a run that page-locks every region, or leaves none of them locked.
pub fn pin_all(regions: Vec<Region>) -> (r: PinRun)
    ensures
        r.wf(),
        r.region_seq() == regions@,
        r.phase_view() == PinPhase::Starting,
{
    PinRun { regions, phase: PinPhase::Starting }
}

/// The places of the regions that are not empty, before `upto`.
pub open spec fn nonempty_places(regions: Seq<Region>, from: int, upto: int) -> Seq<usize>
    decreases upto - from,
{
    if upto <= from {
        Seq::empty()
    } else if regions[upto - 1].len > 0 {
        nonempty_places(regions, from, upto - 1).push((upto - 1) as usize)
    } else {
        nonempty_places(regions, from, upto - 1)
    }
}

/// The order in which locked regions are unregistered: all that are not empty,
/// from the first on.
pub open spec fn unpin_order_of(regions: Seq<Region>) -> Seq<usize> {
    nonempty_places(regions, 0, regions.len() as int)
}

/// The places of the regions from `from` on and before `upto` that are not
/// empty.
fn nonempty_between(regions: &Vec<Region>, from: usize, upto: usize) -> (r: Vec<usize>)
    requires
        from <= upto <= regions@.len(),
    ensures
        r@ == nonempty_places(regions@, from as int, upto as int),
        forall|k: int|
            0 <= k < r@.len() ==> from <= #[trigger] r@[k] < upto && regions@[r@[k] as int].len
                > 0,
        forall|i: int|
            from <= i < upto && (#[trigger] regions@[i]).len > 0 ==> r@.contains(i as usize),
        forall|k: int, l: int| 0 <= k < l < r@.len() ==> #[trigger] r@[k] < #[trigger] r@[l],
{
    let mut places: Vec<usize> = Vec::new();
    let mut i: usize = from;
    while i < upto
        invariant
            from <= i <= upto <= regions@.len(),
            places@ == nonempty_places(regions@, from as int, i as int),
            forall|k: int|
                0 <= k < places@.len() ==> from <= #[trigger] places@[k] < i
                    && regions@[places@[k] as int].len > 0,
            forall|m: int|
                from <= m < i && (#[trigger] regions@[m]).len > 0 ==> places@.contains(m as usize),
            forall|k: int, l: int|
                0 <= k < l < places@.len() ==> #[trigger] places@[k] < #[trigger] places@[l],
        decreases upto - i,
    {
        let ghost before = places@;
        if regions[i].len > 0 {
            places.push(i);
            assert(places@[before.len() as int] == i);
            assert forall|m: int| from <= m < i + 1 && (#[trigger] regions@[m]).len > 0 implies
                places@.contains(m as usize) by {
                if m < i {
                    let k = choose|k: int| 0 <= k < before.len() && before[k] == m as usize;
                    assert(places@[k] == m as usize);
                }
            }
        }
        i = i + 1;
    }
    places
}

/// The reverse of [`pin_all`]: the places of the regions to unregister, in
/// order, before the memory is freed.
pub fn unpin_all(regions: &Vec<Region>) -> (r: Vec<usize>)
    ensures
        r@ == unpin_order_of(regions@),
{
    nonempty_between(regions, 0, regions.len())
}

/// What a CUDA error is called, if the runtime has a name for it.
pub open spec fn error_name_text(name: Option<String>, code: i32) -> Seq<char> {
    match name {
        Some(n) => n@,
        None => "unrecognised CUDA error "@ + signed_decimal(code as int),
    }
}

/// A CUDA error as its symbol (`cudaErrorInvalidValue`), so that it can be
/// looked up rather than decoded from a number.
pub fn error_name(name: Option<String>, code: i32) -> (r: String)
    ensures
        r@ == error_name_text(name, code),
{
    match name {
        Some(n) => n,
        None => {
            let mut text: String = "unrecognised CUDA error ".to_owned();
            append_signed(&mut text, code);
            text
        },
    }
}

} // verus!
