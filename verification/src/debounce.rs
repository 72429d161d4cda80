//! Debouncing of raw camera readings.

use vstd::prelude::*;

verus! {

/// The abstract state of a [`Debouncer`].
pub struct DebouncerModel {
    /// The committed state.
    pub state: bool,
    /// The reading that is currently building a streak, if any.
    pub pending: Option<bool>,
    /// The length of the current streak.
    pub count: nat,
    /// The streak length that commits a change.
    pub threshold: nat,
}

impl DebouncerModel {
    /// What every debouncer satisfies between calls.
    pub open spec fn wf(self) -> bool {
        &&& self.threshold >= 1
        &&& self.count < self.threshold
        &&& (self.pending is None <==> self.count == 0)
        &&& self.pending != Some(self.state)
    }

    /// A debouncer with no streak in progress.
    pub open spec fn settled(self) -> bool {
        self.pending is None
    }
}

/// One reading fed to the debouncer: the next model and the reported change.
pub open spec fn observe_step(d: DebouncerModel, reading: bool) -> (DebouncerModel, Option<bool>) {
    if reading == d.state {
        (DebouncerModel { pending: None, count: 0, ..d }, None)
    } else {
        let count: nat = if d.pending == Some(reading) { d.count + 1 } else { 1 };
        if count >= d.threshold {
            (DebouncerModel { state: reading, pending: None, count: 0, ..d }, Some(reading))
        } else {
            (DebouncerModel { pending: Some(reading), count: count, ..d }, None)
        }
    }
}

/// The model after feeding `readings` in order.
pub open spec fn observe_all(d: DebouncerModel, readings: Seq<bool>) -> DebouncerModel
    decreases readings.len(),
{
    if readings.len() == 0 {
        d
    } else {
        observe_step(observe_all(d, readings.drop_last()), readings.last()).0
    }
}

/// The changes reported while feeding `readings` in order.
pub open spec fn reports_all(d: DebouncerModel, readings: Seq<bool>) -> Seq<Option<bool>>
    decreases readings.len(),
{
    if readings.len() == 0 {
        Seq::empty()
    } else {
        reports_all(d, readings.drop_last()).push(
            observe_step(observe_all(d, readings.drop_last()), readings.last()).1,
        )
    }
}

/// `n` copies of the same reading.
pub open spec fn repeated(reading: bool, n: nat) -> Seq<bool> {
    Seq::new(n, |i: int| reading)
}

/// Every reading keeps a debouncer well formed and keeps its threshold.
pub proof fn lemma_observe_keeps_wf(d: DebouncerModel, reading: bool)
    requires
        d.wf(),
    ensures
        observe_step(d, reading).0.wf(),
        observe_step(d, reading).0.threshold == d.threshold,
{
}

/// A change is reported exactly when the committed state changes, and the
/// report carries the new state.
pub proof fn lemma_report_is_the_change(d: DebouncerModel, reading: bool)
    requires
        d.wf(),
    ensures
        observe_step(d, reading).1 == (if observe_step(d, reading).0.state != d.state {
            Some(observe_step(d, reading).0.state)
        } else {
            None
        }),
{
}

/// A reading that agrees with the committed state clears any streak and
/// reports nothing.
pub proof fn lemma_agreeing_reading_settles(d: DebouncerModel)
    requires
        d.wf(),
    ensures
        observe_step(d, d.state).0.settled(),
        observe_step(d, d.state).0.state == d.state,
        observe_step(d, d.state).1 is None,
{
}

/// With a threshold of one every change is committed at once.
pub proof fn lemma_threshold_one_commits_at_once(d: DebouncerModel, reading: bool)
    requires
        d.wf(),
        d.threshold == 1,
        reading != d.state,
    ensures
        observe_step(d, reading).0.state == reading,
        observe_step(d, reading).1 == Some(reading),
{
}

proof fn lemma_streak(d: DebouncerModel, reading: bool, k: nat)
    requires
        d.wf(),
    ensures
        observe_all(d, repeated(reading, k)).wf(),
        observe_all(d, repeated(reading, k)).threshold == d.threshold,
        k >= 1 ==> (observe_all(d, repeated(reading, k)).state == reading || (observe_all(
            d,
            repeated(reading, k),
        ).pending == Some(reading) && observe_all(d, repeated(reading, k)).count >= k)),
    decreases k,
{
    if k > 0 {
        let prev = (k - 1) as nat;
        lemma_streak(d, reading, prev);
        assert(repeated(reading, k).drop_last() =~= repeated(reading, prev));
        lemma_observe_keeps_wf(observe_all(d, repeated(reading, prev)), reading);
    } else {
        assert(repeated(reading, k) =~= Seq::<bool>::empty());
    }
}

/// A change that is read `threshold` times in a row (or more) is committed,
/// whatever streak was in progress before.
pub proof fn lemma_sustained_change_commits(d: DebouncerModel, reading: bool, n: nat)
    requires
        d.wf(),
        n >= d.threshold,
    ensures
        observe_all(d, repeated(reading, n)).state == reading,
{
    lemma_streak(d, reading, n);
}

proof fn lemma_flicker(d: DebouncerModel, reading: bool, k: nat)
    requires
        d.wf(),
        d.settled(),
        reading != d.state,
        k < d.threshold,
    ensures
        observe_all(d, repeated(reading, k)).state == d.state,
        observe_all(d, repeated(reading, k)).threshold == d.threshold,
        k >= 1 ==> observe_all(d, repeated(reading, k)).pending == Some(reading),
        observe_all(d, repeated(reading, k)).count == k,
        forall|i: int|
            0 <= i < k ==> #[trigger] reports_all(d, repeated(reading, k))[i] is None,
        reports_all(d, repeated(reading, k)).len() == k,
    decreases k,
{
    if k > 0 {
        let prev = (k - 1) as nat;
        lemma_flicker(d, reading, prev);
        assert(repeated(reading, k).drop_last() =~= repeated(reading, prev));
    } else {
        assert(repeated(reading, k) =~= Seq::<bool>::empty());
    }
}

/// From a settled debouncer, a change read fewer than `threshold` times in a
/// row is neither committed nor reported.
pub proof fn lemma_short_flicker_is_ignored(d: DebouncerModel, reading: bool, n: nat)
    requires
        d.wf(),
        d.settled(),
        n < d.threshold,
    ensures
        observe_all(d, repeated(reading, n)).state == d.state,
        forall|i: int| 0 <= i < n ==> #[trigger] reports_all(d, repeated(reading, n))[i] is None,
{
    if reading != d.state {
        lemma_flicker(d, reading, n);
    } else {
        lemma_agreeing_run(d, n);
    }
}

proof fn lemma_agreeing_run(d: DebouncerModel, k: nat)
    requires
        d.wf(),
    ensures
        observe_all(d, repeated(d.state, k)).state == d.state,
        observe_all(d, repeated(d.state, k)).wf(),
        reports_all(d, repeated(d.state, k)).len() == k,
        forall|i: int| 0 <= i < k ==> #[trigger] reports_all(d, repeated(d.state, k))[i] is None,
    decreases k,
{
    if k > 0 {
        let prev = (k - 1) as nat;
        lemma_agreeing_run(d, prev);
        assert(repeated(d.state, k).drop_last() =~= repeated(d.state, prev));
    } else {
        assert(repeated(d.state, k) =~= Seq::<bool>::empty());
    }
}

/// The committed state after a history of reports: the most recent reported
/// change, or `initial` when none was reported.
pub open spec fn last_change(initial: bool, reports: Seq<Option<bool>>) -> bool
    decreases reports.len(),
{
    if reports.len() == 0 {
        initial
    } else {
        match reports.last() {
            Some(b) => b,
            None => last_change(initial, reports.drop_last()),
        }
    }
}

/// How many of the last readings of `rs`, counted back from the end, equal `b`.
pub open spec fn trailing_run(rs: Seq<bool>, b: bool) -> nat
    decreases rs.len(),
{
    if rs.len() > 0 && rs.last() == b {
        trailing_run(rs.drop_last(), b) + 1
    } else {
        0
    }
}

/// Whether there are at least `k` readings and the last `k` of them all equal `b`.
pub open spec fn last_readings_agree(rs: Seq<bool>, k: nat, b: bool) -> bool {
    &&& k <= rs.len()
    &&& forall|i: int| rs.len() - k <= i < rs.len() ==> #[trigger] rs[i] == b
}

/// Over any history of readings a debouncer stays well formed, keeps its
/// threshold and reports once per reading; so `observe` never overflows or
/// panics, whatever the threshold and the readings.
pub proof fn lemma_history_keeps_wf(d: DebouncerModel, readings: Seq<bool>)
    requires
        d.wf(),
    ensures
        observe_all(d, readings).wf(),
        observe_all(d, readings).threshold == d.threshold,
        reports_all(d, readings).len() == readings.len(),
    decreases readings.len(),
{
    if readings.len() > 0 {
        lemma_history_keeps_wf(d, readings.drop_last());
        lemma_observe_keeps_wf(observe_all(d, readings.drop_last()), readings.last());
    }
}

/// Over any history, the committed state is the most recently reported
/// change, or the initial state when no change was reported.
pub proof fn lemma_state_is_last_change(d: DebouncerModel, readings: Seq<bool>)
    requires
        d.wf(),
    ensures
        observe_all(d, readings).state == last_change(d.state, reports_all(d, readings)),
    decreases readings.len(),
{
    if readings.len() > 0 {
        let prev = readings.drop_last();
        lemma_state_is_last_change(d, prev);
        lemma_history_keeps_wf(d, prev);
        lemma_report_is_the_change(observe_all(d, prev), readings.last());
        assert(reports_all(d, readings).drop_last() =~= reports_all(d, prev));
    }
}

/// The run of equal readings at the end is at least `k` long exactly when
/// the last `k` readings agree.
pub proof fn lemma_trailing_run_agree(rs: Seq<bool>, k: nat, b: bool)
    ensures
        trailing_run(rs, b) >= k <==> last_readings_agree(rs, k, b),
    decreases rs.len(),
{
    if rs.len() > 0 && k > 0 {
        let prev = rs.drop_last();
        lemma_trailing_run_agree(prev, (k - 1) as nat, b);
        if rs.last() == b {
            if last_readings_agree(prev, (k - 1) as nat, b) {
                assert forall|i: int| rs.len() - k <= i < rs.len() implies #[trigger] rs[i] == b by {
                    if i < rs.len() - 1 {
                        assert(rs[i] == prev[i]);
                    }
                }
            }
            if last_readings_agree(rs, k, b) {
                assert forall|i: int| prev.len() - (k - 1) <= i < prev.len() implies #[trigger] prev[i]
                    == b by {
                    assert(rs[i] == prev[i]);
                }
            }
        } else {
            assert(!(rs[rs.len() - 1] == b));
        }
    }
}

proof fn lemma_streak_count(d: DebouncerModel, readings: Seq<bool>)
    requires
        d.wf(),
        d.settled(),
    ensures
        observe_all(d, readings).count == trailing_run(
            readings,
            !observe_all(d, readings).state,
        ),
    decreases readings.len(),
{
    if readings.len() > 0 {
        let prev = readings.drop_last();
        lemma_streak_count(d, prev);
        lemma_history_keeps_wf(d, prev);
    }
}

/// From a settled debouncer (such as a new one), a reading reports a change
/// exactly when it differs from the committed state and the last `threshold`
/// readings, this one included, all agree with it; otherwise it reports
/// nothing.
pub proof fn lemma_report_exactly_when_readings_agree(d: DebouncerModel, readings: Seq<bool>)
    requires
        d.wf(),
        d.settled(),
        readings.len() > 0,
    ensures
        reports_all(d, readings).last() == (if readings.last() != observe_all(
            d,
            readings.drop_last(),
        ).state && last_readings_agree(readings, d.threshold, readings.last()) {
            Some(readings.last())
        } else {
            None
        }),
{
    let prev = readings.drop_last();
    lemma_streak_count(d, prev);
    lemma_history_keeps_wf(d, prev);
    lemma_trailing_run_agree(readings, d.threshold, readings.last());
}

proof fn lemma_streak_reports(d: DebouncerModel, b: bool, k: nat)
    requires
        d.wf(),
    ensures
        reports_all(d, repeated(b, k)).len() == k,
        d.state == b ==> observe_all(d, repeated(b, k)).state == b && forall|i: int|
            0 <= i < k ==> #[trigger] reports_all(d, repeated(b, k))[i] is None,
        d.state != b ==> {
            ||| observe_all(d, repeated(b, k)).state == b && exists|j: int|
                0 <= j < k && #[trigger] reports_all(d, repeated(b, k))[j] == Some(b) && forall|
                    i: int,
                |
                    0 <= i < k && i != j ==> #[trigger] reports_all(d, repeated(b, k))[i] is None
            ||| observe_all(d, repeated(b, k)).state != b && observe_all(d, repeated(b, k)).count
                >= k && forall|i: int|
                0 <= i < k ==> #[trigger] reports_all(d, repeated(b, k))[i] is None
        },
    decreases k,
{
    if k == 0 {
        assert(repeated(b, k) =~= Seq::<bool>::empty());
    } else {
        let pk = (k - 1) as nat;
        lemma_streak_reports(d, b, pk);
        lemma_history_keeps_wf(d, repeated(b, pk));
        assert(repeated(b, k).drop_last() =~= repeated(b, pk));
        let prev_reports = reports_all(d, repeated(b, pk));
        let reps = reports_all(d, repeated(b, k));
        assert(reps == prev_reports.push(
            observe_step(observe_all(d, repeated(b, pk)), b).1,
        ));
        assert forall|i: int| 0 <= i < pk implies #[trigger] reps[i] == prev_reports[i] by {}
        if d.state != b {
            let m = observe_all(d, repeated(b, pk));
            if m.state == b {
                let j = choose|j: int|
                    0 <= j < pk && #[trigger] prev_reports[j] == Some(b) && forall|i: int|
                        0 <= i < pk && i != j ==> #[trigger] prev_reports[i] is None;
                assert(reps[j] == Some(b));
                assert forall|i: int| 0 <= i < k && i != j implies #[trigger] reps[i] is None by {
                    if i < pk {
                        assert(reps[i] == prev_reports[i]);
                    }
                }
            } else {
                if observe_all(d, repeated(b, k)).state == b {
                    assert(reps[pk as int] == Some(b));
                    assert forall|i: int| 0 <= i < k && i != pk implies #[trigger] reps[i] is None by {
                        assert(reps[i] == prev_reports[i]);
                    }
                }
            }
        }
    }
}

/// After `threshold` (or more) consecutive equal readings `b`, from any
/// history, the committed state is `b`; exactly one of those readings
/// reported the change when the state was not `b` before, and none did when
/// it already was.
pub proof fn lemma_sustained_change_reported_once(d: DebouncerModel, b: bool, n: nat)
    requires
        d.wf(),
        n >= d.threshold,
    ensures
        observe_all(d, repeated(b, n)).state == b,
        d.state == b ==> forall|i: int| 0 <= i < n ==> #[trigger] reports_all(d, repeated(b, n))[i] is None,
        d.state != b ==> exists|j: int|
            0 <= j < n && #[trigger] reports_all(d, repeated(b, n))[j] == Some(b) && forall|i: int|
                0 <= i < n && i != j ==> #[trigger] reports_all(d, repeated(b, n))[i] is None,
{
    lemma_streak_reports(d, b, n);
    lemma_history_keeps_wf(d, repeated(b, n));
}

/// Confirms a state change only after it has been observed for a number of
/// consecutive readings, smoothing out single-poll flicker.
#[derive(Debug)]
pub struct Debouncer {
    state: bool,
    pending: Option<bool>,
    pending_count: u32,
    threshold: u32,
}

impl View for Debouncer {
    type V = DebouncerModel;

    closed spec fn view(&self) -> DebouncerModel {
        DebouncerModel {
            state: self.state,
            pending: self.pending,
            count: self.pending_count as nat,
            threshold: self.threshold as nat,
        }
    }
}

impl Debouncer {
    #[verifier::type_invariant]
    spec fn inv(self) -> bool {
        self@.wf()
    }

    /// Create a debouncer starting from a known state. A `threshold` of 1
    /// commits every change immediately; 0 is taken as 1.
    pub fn new(initial: bool, threshold: u32) -> (d: Self)
        ensures
            d@.state == initial,
            d@.pending is None,
            d@.count == 0,
            d@.threshold == if threshold == 0 { 1 } else { threshold as nat },
    {
        let threshold = if threshold < 1 { 1 } else { threshold };
        Debouncer { state: initial, pending: None, pending_count: 0, threshold }
    }

    /// The currently committed (debounced) state.
    pub fn state(&self) -> (s: bool)
        ensures
            s == self@.state,
            self@.wf(),
    {
        proof {
            use_type_invariant(self);
        }
        self.state
    }

    /// Feed one raw reading. Returns `Some(new_state)` when a change is
    /// committed, `None` while unchanged or still settling.
    pub fn observe(&mut self, reading: bool) -> (change: Option<bool>)
        ensures
            old(self)@.wf(),
            final(self)@ == observe_step(old(self)@, reading).0,
            change == observe_step(old(self)@, reading).1,
    {
        proof {
            use_type_invariant(&*self);
        }
        let threshold = self.threshold;
        if reading == self.state {
            *self = Debouncer { state: reading, pending: None, pending_count: 0, threshold };
            return None;
        }
        let count: u32 = if self.pending == Some(reading) {
            self.pending_count + 1
        } else {
            1
        };
        if count >= threshold {
            *self = Debouncer { state: reading, pending: None, pending_count: 0, threshold };
            Some(reading)
        } else {
            let state = self.state;
            *self = Debouncer { state, pending: Some(reading), pending_count: count, threshold };
            None
        }
    }
}

} // verus!
