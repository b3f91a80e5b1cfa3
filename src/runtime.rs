use vstd::prelude::*;

verus! {

/// Identity of a signal: its index in the store.
pub type SignalId = usize;

/// Identity of a computation: its index in the tracker.
pub type ComputationId = usize;

/// Whether `x` occurs in `v`.
fn contains_id(v: &Vec<usize>, x: usize) -> (r: bool)
    ensures
        r == v@.contains(x),
{
    let mut i: usize = 0;
    while i < v.len()
        invariant
            0 <= i <= v@.len(),
            forall|j: int| 0 <= j < i ==> v@[j] != x,
        decreases v@.len() - i,
    {
        if v[i] == x {
            return true;
        }
        i = i + 1;
    }
    false
}

/// `v` without the occurrences of `x`.
fn without_id(v: &Vec<usize>, x: usize) -> (r: Vec<usize>)
    ensures
        forall|y: usize| r@.contains(y) == (v@.contains(y) && y != x),
{
    let mut r: Vec<usize> = Vec::new();
    let mut i: usize = 0;
    while i < v.len()
        invariant
            0 <= i <= v@.len(),
            forall|y: usize| r@.contains(y) == (v@.subrange(0, i as int).contains(y) && y != x),
        decreases v@.len() - i,
    {
        let ghost r0 = r@;
        if v[i] != x {
            r.push(v[i]);
        }
        proof {
            assert(v@.subrange(0, i + 1) =~= v@.subrange(0, i as int).push(v@[i as int]));
            assert forall|y: usize| r@.contains(y) == (v@.subrange(0, i + 1).contains(y) && y != x) by {
                if v@[i as int] != x {
                    assert(r@ =~= r0.push(v@[i as int]));
                    if r0.contains(y) {
                        let j = choose|j: int| 0 <= j < r0.len() && r0[j] == y;
                        assert(r@[j] == y);
                    }
                    if y == v@[i as int] {
                        assert(r@[r0.len() as int] == y);
                    }
                }
                let s0 = v@.subrange(0, i as int);
                if s0.contains(y) {
                    let j = choose|j: int| 0 <= j < s0.len() && s0[j] == y;
                    assert(v@.subrange(0, i + 1)[j] == y);
                }
                if y == v@[i as int] {
                    assert(v@.subrange(0, i + 1)[i as int] == y);
                }
            }
        }
        i = i + 1;
    }
    assert(v@.subrange(0, v@.len() as int) =~= v@);
    r
}

/// Conditions under which an operation of the runtime is refused.
#[derive(Debug, Clone, Copy, PartialEq, Eq, Structural)]
pub enum ReactiveError {
    /// The signal or computation was disposed, or never existed.
    UseAfterDispose,
    /// The computation is on the stack of active runs.
    Running,
    /// No run is open.
    NotRunning,
    /// No batch is open.
    NotBatching,
}

/// A derived value: the computation that produces it and the signal it
/// writes its result to, which other computations read.
#[derive(Debug, Clone, Copy, PartialEq, Eq, Structural)]
pub struct Memo {
    pub computation: ComputationId,
    pub output: SignalId,
}

/// The signal store together with the dependency tracker and scheduler.
///
/// Signal values are `i64`, and a write is skipped when the new value is
/// equal as an integer to the current one.  A memo's computation is recorded
/// as the writer of its output signal, and a pass never runs a computation
/// while a memo whose output it reads is still scheduled; ties are broken by
/// the smallest identity.  Only a cycle of memos can force a stale read.  A
/// computation whose body fails is closed with `end_run` like any other: its
/// old edges were removed when the run opened, and the next write to what
/// it did read schedules it again.
pub struct Runtime {
    values: Vec<i64>,
    signal_live: Vec<bool>,
    writer: Vec<Option<ComputationId>>,
    deps: Vec<Vec<SignalId>>,
    comp_live: Vec<bool>,
    dirty: Vec<bool>,
    ran: Vec<bool>,
    deferred: Vec<bool>,
    stack: Vec<ComputationId>,
    batch_depth: usize,
    deferrals: u64,
}

impl Runtime {
    /// How many signals were created, disposed ones included.
    pub closed spec fn num_signals(&self) -> nat {
        self.values@.len()
    }

    /// How many computations were created, disposed ones included.
    pub closed spec fn num_computations(&self) -> nat {
        self.comp_live@.len()
    }

    /// The current value of signal `s`.
    pub closed spec fn value(&self, s: int) -> i64 {
        self.values@[s]
    }

    /// Signal `s` exists and was not disposed.
    pub closed spec fn signal_live(&self, s: int) -> bool {
        0 <= s < self.num_signals() && self.signal_live@[s]
    }

    /// The memo computation that writes signal `s`, if `s` is a memo's output.
    pub closed spec fn writer_of(&self, s: int) -> Option<ComputationId> {
        self.writer@[s]
    }

    /// Computation `c` reads the output of another scheduled memo, so it
    /// would see a stale value if it ran now.
    pub open spec fn blocked(&self, c: int) -> bool {
        exists|s: int|
            #[trigger] self.reads(c, s) && self.writer_of(s) is Some && self.writer_of(s)->0 != c
                && self.pending(self.writer_of(s)->0 as int)
    }

    /// Computation `c` exists and was not disposed.
    pub closed spec fn comp_live(&self, c: int) -> bool {
        0 <= c < self.num_computations() && self.comp_live@[c]
    }

    /// Computation `c` read signal `s` on its latest run: the edge `s -> c`.
    pub closed spec fn reads(&self, c: int, s: int) -> bool {
        0 <= c < self.deps@.len() && 0 <= s <= usize::MAX && self.deps@[c]@.contains(s as SignalId)
    }

    /// The signals that computation `c` read on its latest run.
    pub closed spec fn dependencies(&self, c: int) -> Set<int> {
        Set::new(|s: int| self.reads(c, s))
    }

    /// Computation `c` is scheduled to run in the current pass.
    pub closed spec fn pending(&self, c: int) -> bool {
        0 <= c < self.dirty@.len() && self.dirty@[c]
    }

    /// Computation `c` has started a run in the current pass.
    pub closed spec fn ran(&self, c: int) -> bool {
        0 <= c < self.ran@.len() && self.ran@[c]
    }

    /// A re-trigger of computation `c` waits for the next pass.
    pub closed spec fn deferred(&self, c: int) -> bool {
        0 <= c < self.deferred@.len() && self.deferred@[c]
    }

    /// The stack of active runs, innermost last.
    pub closed spec fn active(&self) -> Seq<ComputationId> {
        self.stack@
    }

    /// How many batches are open.
    pub closed spec fn batch_depth_spec(&self) -> nat {
        self.batch_depth as nat
    }

    /// How many passes began with deferred re-triggers.
    pub closed spec fn deferrals_spec(&self) -> nat {
        self.deferrals as nat
    }

    /// Computation `c` is on the stack of active runs.
    pub open spec fn running(&self, c: int) -> bool {
        exists|i: int| 0 <= i < self.active().len() && self.active()[i] == c
    }

    /// No run is open, no batch is open, and nothing is scheduled.
    pub open spec fn quiescent(&self) -> bool {
        &&& self.active().len() == 0
        &&& self.batch_depth_spec() == 0
        &&& forall|c: int| !self.pending(c) && !self.ran(c) && !self.deferred(c)
    }

    pub closed spec fn wf(&self) -> bool {
        &&& self.signal_live@.len() == self.values@.len()
        &&& self.writer@.len() == self.values@.len()
        &&& forall|s: int| 0 <= s < self.writer@.len() && #[trigger] self.writer@[s] is Some
            ==> self.writer@[s]->0 < self.comp_live@.len()
        &&& self.deps@.len() == self.comp_live@.len()
        &&& self.dirty@.len() == self.comp_live@.len()
        &&& self.ran@.len() == self.comp_live@.len()
        &&& self.deferred@.len() == self.comp_live@.len()
        &&& forall|c: int, s: int| #[trigger] self.reads(c, s)
            ==> self.comp_live(c) && self.signal_live(s)
        &&& forall|c: int| #[trigger] self.pending(c) ==> self.comp_live(c)
        &&& forall|c: int| #[trigger] self.deferred(c) ==> self.comp_live(c)
        &&& forall|i: int| 0 <= i < self.stack@.len()
            ==> self.comp_live(#[trigger] self.stack@[i] as int)
    }

    /// The signals hold the same values and liveness in `a` and `b`.
    pub open spec fn same_signals(a: &Runtime, b: &Runtime) -> bool {
        &&& b.num_signals() == a.num_signals()
        &&& forall|t: int| #[trigger] b.signal_live(t) == a.signal_live(t)
        &&& forall|t: int| 0 <= t < a.num_signals() ==> #[trigger] b.value(t) == a.value(t)
        &&& forall|t: int| 0 <= t < a.num_signals() ==> #[trigger] b.writer_of(t) == a.writer_of(t)
    }

    /// The computations have the same edges, liveness and schedule in `a` and `b`.
    pub open spec fn same_computations(a: &Runtime, b: &Runtime) -> bool {
        &&& b.num_computations() == a.num_computations()
        &&& forall|c: int| #[trigger] b.comp_live(c) == a.comp_live(c)
        &&& forall|c: int, t: int| #[trigger] b.reads(c, t) == a.reads(c, t)
        &&& forall|c: int| #[trigger] b.pending(c) == a.pending(c)
        &&& forall|c: int| #[trigger] b.ran(c) == a.ran(c)
        &&& forall|c: int| #[trigger] b.deferred(c) == a.deferred(c)
    }

    /// The run stack, the batch depth and the deferral count agree in `a` and `b`.
    pub open spec fn same_control(a: &Runtime, b: &Runtime) -> bool {
        &&& b.active() == a.active()
        &&& b.batch_depth_spec() == a.batch_depth_spec()
        &&& b.deferrals_spec() == a.deferrals_spec()
    }

    /// `b` is `a` after writing `v` to the live signal `s`.
    pub open spec fn wrote(a: &Runtime, b: &Runtime, s: int, v: i64) -> bool {
        &&& b.num_signals() == a.num_signals()
        &&& forall|t: int| b.signal_live(t) == a.signal_live(t)
        &&& forall|t: int| 0 <= t < a.num_signals()
            ==> #[trigger] b.value(t) == if t == s { v } else { a.value(t) }
        &&& forall|t: int| 0 <= t < a.num_signals() ==> #[trigger] b.writer_of(t) == a.writer_of(t)
        &&& b.num_computations() == a.num_computations()
        &&& forall|c: int| b.comp_live(c) == a.comp_live(c)
        &&& forall|c: int, t: int| b.reads(c, t) == a.reads(c, t)
        &&& forall|c: int| b.ran(c) == a.ran(c)
        &&& b.active() == a.active()
        &&& b.batch_depth_spec() == a.batch_depth_spec()
        &&& b.deferrals_spec() == a.deferrals_spec()
        &&& if a.value(s) == v {
            forall|c: int| b.pending(c) == a.pending(c) && b.deferred(c) == a.deferred(c)
        } else {
            &&& forall|c: int| #[trigger] b.pending(c)
                == (a.pending(c) || (a.reads(c, s) && !a.ran(c)))
            &&& forall|c: int| #[trigger] b.deferred(c)
                == (a.deferred(c) || (a.reads(c, s) && a.ran(c)))
        }
    }

    /// Well-formedness carries over to a state whose signals only grew and
    /// whose computations and run stack are the same.
    proof fn lemma_wf_frame(a: Runtime, b: Runtime)
        requires
            a.wf(),
            b.values@.len() >= a.values@.len(),
            b.signal_live@.len() == b.values@.len(),
            forall|t: int| 0 <= t < a.values@.len() ==> b.signal_live@[t] == a.signal_live@[t],
            b.writer@.len() == b.values@.len(),
            forall|t: int| 0 <= t < b.writer@.len() ==> #[trigger] b.writer@[t] == if t < a.values@.len() {
                a.writer@[t]
            } else {
                None
            },
            b.deps@ == a.deps@,
            b.comp_live@ == a.comp_live@,
            b.dirty@ == a.dirty@,
            b.ran@.len() == a.ran@.len(),
            b.deferred@ == a.deferred@,
            b.stack@ == a.stack@,
        ensures
            b.wf(),
    {
        assert forall|s: int| 0 <= s < b.writer@.len() && #[trigger] b.writer@[s] is Some
            implies b.writer@[s]->0 < b.comp_live@.len() by {
            assert(a.writer@[s] is Some);
        }
        assert forall|c: int, t: int| #[trigger] b.reads(c, t)
            implies b.comp_live(c) && b.signal_live(t) by {
            assert(a.reads(c, t));
        }
        assert forall|c: int| #[trigger] b.pending(c) implies b.comp_live(c) by {
            assert(a.pending(c));
        }
        assert forall|c: int| #[trigger] b.deferred(c) implies b.comp_live(c) by {
            assert(a.deferred(c));
        }
        assert forall|i: int| 0 <= i < b.stack@.len()
            implies b.comp_live(#[trigger] b.stack@[i] as int) by {
            assert(a.comp_live(a.stack@[i] as int));
        }
    }

    /// `b` is `a` after reading signal `s`: the only change is the edge from
    /// a live `s` to the innermost running computation.
    pub open spec fn tracked_read(a: &Runtime, b: &Runtime, s: int) -> bool {
        &&& Runtime::same_signals(a, b)
        &&& Runtime::same_control(a, b)
        &&& b.num_computations() == a.num_computations()
        &&& forall|c: int| b.comp_live(c) == a.comp_live(c)
        &&& forall|c: int| b.pending(c) == a.pending(c)
        &&& forall|c: int| b.ran(c) == a.ran(c)
        &&& forall|c: int| b.deferred(c) == a.deferred(c)
        &&& forall|c: int, t: int| #[trigger] b.reads(c, t) == (a.reads(c, t) || (
            a.signal_live(s) && a.active().len() > 0 && c == a.active().last() && t == s))
    }

    /// `b` is `a` after the end-of-pass step, taken when no run is open.
    /// While a computation is still scheduled nothing changes.  Otherwise the
    /// pass is over: the per-pass visited marks are cleared, and the deferred
    /// re-triggers are scheduled as the next pass, which counts as one
    /// deferral.  The run stack is left to the caller's contract.
    pub open spec fn settled(a: &Runtime, b: &Runtime) -> bool {
        &&& Runtime::same_signals(a, b)
        &&& b.num_computations() == a.num_computations()
        &&& forall|c: int| b.comp_live(c) == a.comp_live(c)
        &&& forall|c: int, t: int| b.reads(c, t) == a.reads(c, t)
        &&& b.batch_depth_spec() == a.batch_depth_spec()
        &&& if exists|c: int| a.pending(c) {
            &&& forall|c: int| #[trigger] b.pending(c) == a.pending(c)
            &&& forall|c: int| #[trigger] b.ran(c) == a.ran(c)
            &&& forall|c: int| #[trigger] b.deferred(c) == a.deferred(c)
            &&& b.deferrals_spec() == a.deferrals_spec()
        } else {
            &&& forall|c: int| #[trigger] b.pending(c) == a.deferred(c)
            &&& forall|c: int| !#[trigger] b.ran(c)
            &&& forall|c: int| !#[trigger] b.deferred(c)
            &&& b.deferrals_spec() == if (exists|c: int| a.deferred(c)) && a.deferrals_spec()
                < u64::MAX {
                a.deferrals_spec() + 1
            } else {
                a.deferrals_spec()
            }
        }
    }

    /// The end-of-pass step reads no part of a state but its signals, its
    /// computations, its batch depth and its deferral count.
    proof fn lemma_settled_from_equal(a: &Runtime, m: &Runtime, b: &Runtime)
        requires
            Runtime::same_signals(a, m),
            Runtime::same_computations(a, m),
            a.batch_depth == m.batch_depth,
            a.deferrals == m.deferrals,
            Runtime::settled(m, b),
        ensures
            Runtime::settled(a, b),
    {
        assert forall|c: int| a.pending(c) == m.pending(c) && a.ran(c) == m.ran(c)
            && a.deferred(c) == m.deferred(c) && a.comp_live(c) == m.comp_live(c) by {}
        assert forall|c: int, t: int| a.reads(c, t) == m.reads(c, t) by {}
        if exists|c: int| a.pending(c) {
            let c = choose|c: int| a.pending(c);
            assert(m.pending(c));
        } else {
            assert(!exists|c: int| m.pending(c));
            if exists|c: int| a.deferred(c) {
                let c = choose|c: int| a.deferred(c);
                assert(m.deferred(c));
            } else {
                assert(!exists|c: int| m.deferred(c));
            }
        }
    }

    /// Well-formedness carries over to a state with the same signals, the
    /// same live computations and the same writers, when each edge, each
    /// schedule mark and each run on the stack that is new refers to a live
    /// computation.
    proof fn lemma_wf_keep_live(a: Runtime, b: Runtime)
        requires
            a.wf(),
            b.values@.len() == a.values@.len(),
            b.signal_live@ == a.signal_live@,
            b.writer@ == a.writer@,
            b.comp_live@ == a.comp_live@,
            b.deps@.len() == a.deps@.len(),
            b.dirty@.len() == a.dirty@.len(),
            b.ran@.len() == a.ran@.len(),
            b.deferred@.len() == a.deferred@.len(),
            forall|c: int, t: int| #[trigger] b.reads(c, t) ==> a.reads(c, t) || (a.comp_live(c)
                && a.signal_live(t)),
            forall|c: int| #[trigger] b.pending(c) ==> a.pending(c) || a.deferred(c) || a.comp_live(c),
            forall|c: int| #[trigger] b.deferred(c) ==> a.deferred(c) || a.comp_live(c),
            forall|i: int| 0 <= i < b.stack@.len() ==> (i < a.stack@.len() && #[trigger] b.stack@[i]
                == a.stack@[i]) || a.comp_live(b.stack@[i] as int),
        ensures
            b.wf(),
    {
        assert forall|c: int, t: int| #[trigger] b.reads(c, t)
            implies b.comp_live(c) && b.signal_live(t) by {
            if a.reads(c, t) {
            }
        }
        assert forall|c: int| #[trigger] b.pending(c) implies b.comp_live(c) by {
            if a.pending(c) {
            }
            if a.deferred(c) {
            }
        }
        assert forall|c: int| #[trigger] b.deferred(c) implies b.comp_live(c) by {
            if a.deferred(c) {
            }
        }
        assert forall|i: int| 0 <= i < b.stack@.len()
            implies b.comp_live(#[trigger] b.stack@[i] as int) by {
            if i < a.stack@.len() && b.stack@[i] == a.stack@[i] {
                assert(a.comp_live(a.stack@[i] as int));
            }
        }
    }

    /// Recording the writer of a signal keeps well-formedness, when the
    /// writer is an existing computation.
    proof fn lemma_wf_writer_set(a: Runtime, b: Runtime, s: int, w: ComputationId)
        requires
            a.wf(),
            0 <= s < a.values@.len(),
            w < a.comp_live@.len(),
            b.writer@ == a.writer@.update(s, Some(w)),
            b.values@ == a.values@,
            b.signal_live@ == a.signal_live@,
            b.deps@ == a.deps@,
            b.comp_live@ == a.comp_live@,
            b.dirty@ == a.dirty@,
            b.ran@ == a.ran@,
            b.deferred@ == a.deferred@,
            b.stack@ == a.stack@,
        ensures
            b.wf(),
    {
        assert forall|t: int| 0 <= t < b.writer@.len() && #[trigger] b.writer@[t] is Some
            implies b.writer@[t]->0 < b.comp_live@.len() by {
            if t != s {
                assert(a.writer@[t] is Some);
            }
        }
        assert forall|c: int, t: int| #[trigger] b.reads(c, t)
            implies b.comp_live(c) && b.signal_live(t) by {
            assert(a.reads(c, t));
        }
        assert forall|c: int| #[trigger] b.pending(c) implies b.comp_live(c) by {
            assert(a.pending(c));
        }
        assert forall|c: int| #[trigger] b.deferred(c) implies b.comp_live(c) by {
            assert(a.deferred(c));
        }
        assert forall|i: int| 0 <= i < b.stack@.len()
            implies b.comp_live(#[trigger] b.stack@[i] as int) by {
            assert(a.comp_live(a.stack@[i] as int));
        }
    }

    /// An empty runtime.
    pub fn new() -> (r: Runtime)
        ensures
            r.wf(),
            r.quiescent(),
            r.num_signals() == 0,
            r.num_computations() == 0,
            r.deferrals_spec() == 0,
            forall|s: int| !#[trigger] r.signal_live(s),
            forall|c: int| !#[trigger] r.comp_live(c),
            forall|c: int, s: int| !#[trigger] r.reads(c, s),
    {
        Runtime {
            values: Vec::new(),
            signal_live: Vec::new(),
            writer: Vec::new(),
            deps: Vec::new(),
            comp_live: Vec::new(),
            dirty: Vec::new(),
            ran: Vec::new(),
            deferred: Vec::new(),
            stack: Vec::new(),
            batch_depth: 0,
            deferrals: 0,
        }
    }

    /// Allocates a new signal holding `initial`.
    pub fn create(&mut self, initial: i64) -> (s: SignalId)
        requires
            old(self).wf(),
        ensures
            final(self).wf(),
            s == old(self).num_signals(),
            final(self).num_signals() == s + 1,
            final(self).signal_live(s as int),
            final(self).value(s as int) == initial,
            forall|t: int| 0 <= t < s ==> #[trigger] final(self).value(t) == old(self).value(t),
            forall|t: int| 0 <= t < s ==> #[trigger] final(self).writer_of(t) == old(self).writer_of(t),
            final(self).writer_of(s as int) is None,
            forall|t: int| t != s ==> #[trigger] final(self).signal_live(t) == old(self).signal_live(t),
            Runtime::same_computations(old(self), final(self)),
            Runtime::same_control(old(self), final(self)),
    {
        let s = self.values.len();
        self.values.push(initial);
        self.signal_live.push(true);
        self.writer.push(None);
        proof {
            Runtime::lemma_wf_frame(*old(self), *self);
        }
        s
    }

    fn is_live_signal(&self, s: SignalId) -> (r: bool)
        requires
            self.wf(),
        ensures
            r == self.signal_live(s as int),
    {
        s < self.values.len() && self.signal_live[s]
    }

    /// Writes `v` to signal `s`.  An equal value changes nothing; a new value
    /// schedules every computation that read `s` on its latest run, or defers
    /// it to the next pass when it has already run in this one.
    pub fn write(&mut self, s: SignalId, v: i64) -> (r: Result<(), ReactiveError>)
        requires
            old(self).wf(),
        ensures
            final(self).wf(),
            old(self).signal_live(s as int) ==> r is Ok && Runtime::wrote(
                old(self),
                final(self),
                s as int,
                v,
            ),
            !old(self).signal_live(s as int) ==> r == Err::<(), ReactiveError>(
                ReactiveError::UseAfterDispose,
            ) && *final(self) == *old(self),
    {
        if !self.is_live_signal(s) {
            return Err(ReactiveError::UseAfterDispose);
        }
        if self.values[s] == v {
            return Ok(());
        }
        self.values.set(s, v);
        let n = self.deps.len();
        let mut c: usize = 0;
        while c < n
            invariant
                n == self.deps@.len(),
                n == self.dirty@.len(),
                n == self.deferred@.len(),
                0 <= c <= n,
                old(self).wf(),
                self.values@ == old(self).values@.update(s as int, v),
                self.signal_live@ == old(self).signal_live@,
                self.writer@ == old(self).writer@,
                self.deps@ == old(self).deps@,
                self.comp_live@ == old(self).comp_live@,
                self.ran@ == old(self).ran@,
                Runtime::same_control(old(self), self),
                old(self).signal_live(s as int),
                forall|d: int| 0 <= d < c ==> #[trigger] self.dirty@[d] == (old(self).dirty@[d] || (
                    old(self).deps@[d]@.contains(s) && !old(self).ran@[d])),
                forall|d: int| 0 <= d < c ==> #[trigger] self.deferred@[d] == (old(self).deferred@[d]
                    || (old(self).deps@[d]@.contains(s) && old(self).ran@[d])),
                forall|d: int| c <= d < n ==> #[trigger] self.dirty@[d] == old(self).dirty@[d],
                forall|d: int| c <= d < n ==> #[trigger] self.deferred@[d] == old(self).deferred@[d],
            decreases n - c,
        {
            if contains_id(&self.deps[c], s) {
                if self.ran[c] {
                    self.deferred.set(c, true);
                } else {
                    self.dirty.set(c, true);
                }
            }
            c = c + 1;
        }
        proof {
            assert forall|c: int| #[trigger] self.pending(c) == (old(self).pending(c) || (old(
                self,
            ).reads(c, s as int) && !old(self).ran(c))) by {
                if 0 <= c < n {
                    assert(self.dirty@[c] == (old(self).dirty@[c] || (old(self).deps@[c]@.contains(s)
                        && !old(self).ran@[c])));
                }
            }
            assert forall|c: int| #[trigger] self.deferred(c) == (old(self).deferred(c) || (old(
                self,
            ).reads(c, s as int) && old(self).ran(c))) by {
                if 0 <= c < n {
                    assert(self.deferred@[c] == (old(self).deferred@[c] || (old(self).deps@[c]@.contains(s)
                        && old(self).ran@[c])));
                }
            }
            Runtime::lemma_wf_keep_live(*old(self), *self);
        }
        assert(forall|t: int|
            0 <= t < self.num_signals() ==> self.value(t) == if t == s {
                v
            } else {
                old(self).value(t)
            });
        Ok(())
    }

    /// Replaces the value of signal `s` by `f` of it, without recording an
    /// edge, then writes it as `write` does.
    pub fn update<F: Fn(i64) -> i64>(&mut self, s: SignalId, f: F) -> (r: Result<
        (),
        ReactiveError,
    >)
        requires
            old(self).wf(),
            forall|x: i64| f.requires((x,)),
        ensures
            final(self).wf(),
            !old(self).signal_live(s as int) ==> r == Err::<(), ReactiveError>(
                ReactiveError::UseAfterDispose,
            ) && *final(self) == *old(self),
            old(self).signal_live(s as int) ==> r is Ok && exists|v: i64|
                f.ensures((old(self).value(s as int),), v) && Runtime::wrote(
                    old(self),
                    final(self),
                    s as int,
                    v,
                ),
    {
        if !self.is_live_signal(s) {
            return Err(ReactiveError::UseAfterDispose);
        }
        let v = f(self.values[s]);
        self.write(s, v)
    }

    /// Allocates a derived value: a signal holding `initial` and the
    /// computation that will write it.
    pub fn create_memo(&mut self, initial: i64) -> (m: Memo)
        requires
            old(self).wf(),
        ensures
            final(self).wf(),
            m.output == old(self).num_signals(),
            m.computation == old(self).num_computations(),
            final(self).num_signals() == old(self).num_signals() + 1,
            final(self).num_computations() == old(self).num_computations() + 1,
            final(self).signal_live(m.output as int),
            final(self).value(m.output as int) == initial,
            final(self).comp_live(m.computation as int),
            !final(self).pending(m.computation as int),
            final(self).dependencies(m.computation as int) == Set::<int>::empty(),
            forall|t: int| !#[trigger] final(self).reads(m.computation as int, t),
            forall|t: int| 0 <= t < m.output ==> #[trigger] final(self).value(t) == old(self).value(t),
            forall|t: int| 0 <= t < m.output ==> #[trigger] final(self).writer_of(t) == old(self).writer_of(t),
            final(self).writer_of(m.output as int) == Some(m.computation),
            forall|t: int| t != m.output ==> #[trigger] final(self).signal_live(t) == old(self).signal_live(t),
            forall|c: int| c != m.computation ==> #[trigger] final(self).comp_live(c) == old(self).comp_live(c),
            forall|c: int| c != m.computation ==> #[trigger] final(self).pending(c) == old(self).pending(c),
            forall|c: int| #[trigger] final(self).ran(c) == old(self).ran(c),
            forall|c: int| #[trigger] final(self).deferred(c) == old(self).deferred(c),
            forall|c: int, t: int| #[trigger] final(self).reads(c, t) == old(self).reads(c, t),
            Runtime::same_control(old(self), final(self)),
    {
        let output = self.create(initial);
        let computation = self.create_computation();
        let ghost mid = *self;
        self.writer.set(output, Some(computation));
        proof {
            Runtime::lemma_wf_writer_set(mid, *self, output as int, computation);
            assert(mid.signal_live(output as int) && mid.value(output as int) == initial);
            assert(Runtime::same_computations(&mid, self));
            assert(self.signal_live(output as int) == mid.signal_live(output as int));
            assert(self.value(output as int) == mid.value(output as int));
            assert forall|u: int| 0 <= u < output implies #[trigger] self.value(u) == old(self).value(u) by {
                assert(self.value(u) == mid.value(u));
            }
            assert forall|u: int| 0 <= u < output implies #[trigger] self.writer_of(u) == old(self).writer_of(u) by {
                assert(self.writer_of(u) == mid.writer_of(u));
            }
            assert forall|u: int| u != output implies #[trigger] self.signal_live(u) == old(self).signal_live(u) by {
                assert(self.signal_live(u) == mid.signal_live(u));
            }
        }
        Memo { computation, output }
    }

    /// Reads signal `s`.  While a run is open, the edge from `s` to the
    /// innermost running computation is recorded.
    pub fn read(&mut self, s: SignalId) -> (r: Result<i64, ReactiveError>)
        requires
            old(self).wf(),
        ensures
            final(self).wf(),
            !old(self).signal_live(s as int) ==> r == Err::<i64, ReactiveError>(
                ReactiveError::UseAfterDispose,
            ) && *final(self) == *old(self),
            old(self).signal_live(s as int) ==> r == Ok::<i64, ReactiveError>(old(self).value(s as int)),
            Runtime::tracked_read(old(self), final(self), s as int),
    {
        if !self.is_live_signal(s) {
            return Err(ReactiveError::UseAfterDispose);
        }
        let v = self.values[s];
        let k = self.stack.len();
        if k > 0 {
            let top = self.stack[k - 1];
            proof {
                assert(self.comp_live(self.stack@[k - 1] as int));
            }
            if !contains_id(&self.deps[top], s) {
                self.deps[top].push(s);
                proof {
                    assert forall|c: int, t: int| #[trigger] self.reads(c, t) == (old(self).reads(c, t) || (c == top && t == s)) by {
                        if c == top && 0 <= t <= usize::MAX {
                            assert(self.deps@[c]@ == old(self).deps@[c]@.push(s));
                            if t != s {
                                assert(self.deps@[c]@.contains(t as usize) ==> old(self).deps@[c]@.contains(t as usize));
                            }
                            if old(self).deps@[c]@.contains(t as usize) {
                                let j = choose|j: int| 0 <= j < old(self).deps@[c]@.len() && old(self).deps@[c]@[j] == t as usize;
                                assert(self.deps@[c]@[j] == t as usize);
                            }
                            if t == s {
                                assert(self.deps@[c]@[self.deps@[c]@.len() - 1] == s);
                            }
                        }
                    }
                    Runtime::lemma_wf_keep_live(*old(self), *self);
                }
            }
        }
        Ok(v)
    }

    /// Allocates a computation with no dependencies and nothing scheduled.
    /// Its first run is opened by the caller.
    pub fn create_computation(&mut self) -> (c: ComputationId)
        requires
            old(self).wf(),
        ensures
            final(self).wf(),
            c == old(self).num_computations(),
            final(self).num_computations() == c + 1,
            final(self).comp_live(c as int),
            !final(self).pending(c as int),
            !final(self).ran(c as int),
            !final(self).deferred(c as int),
            final(self).dependencies(c as int) == Set::<int>::empty(),
            forall|t: int| !#[trigger] final(self).reads(c as int, t),
            forall|d: int| d != c ==> #[trigger] final(self).comp_live(d) == old(self).comp_live(d),
            forall|d: int| d != c ==> #[trigger] final(self).pending(d) == old(self).pending(d),
            forall|d: int| d != c ==> #[trigger] final(self).ran(d) == old(self).ran(d),
            forall|d: int| d != c ==> #[trigger] final(self).deferred(d) == old(self).deferred(d),
            forall|d: int, t: int| #[trigger] final(self).reads(d, t) == old(self).reads(d, t),
            Runtime::same_signals(old(self), final(self)),
            Runtime::same_control(old(self), final(self)),
    {
        let c = self.comp_live.len();
        self.deps.push(Vec::new());
        self.comp_live.push(true);
        self.dirty.push(false);
        self.ran.push(false);
        self.deferred.push(false);
        proof {
            assert forall|d: int, t: int| #[trigger] self.reads(d, t) == old(self).reads(d, t) by {
                if d == c {
                    assert(self.deps@[d]@ =~= Seq::<usize>::empty());
                }
            }
            assert(self.dependencies(c as int) =~= Set::<int>::empty());
            assert forall|d: int, t: int| #[trigger] self.reads(d, t)
                implies self.comp_live(d) && self.signal_live(t) by {
                assert(old(self).reads(d, t));
            }
            assert forall|d: int| #[trigger] self.pending(d) implies self.comp_live(d) by {
                assert(old(self).pending(d));
            }
            assert forall|d: int| #[trigger] self.deferred(d) implies self.comp_live(d) by {
                assert(old(self).deferred(d));
            }
            assert forall|i: int| 0 <= i < self.stack@.len()
                implies self.comp_live(#[trigger] self.stack@[i] as int) by {
                assert(old(self).comp_live(old(self).stack@[i] as int));
            }
        }
        c
    }

    /// Opens a run of computation `c`: it becomes the innermost active
    /// computation, its previous edges are removed, and it counts as run in
    /// the current pass.
    pub fn begin_run(&mut self, c: ComputationId) -> (r: Result<(), ReactiveError>)
        requires
            old(self).wf(),
        ensures
            final(self).wf(),
            !old(self).comp_live(c as int) ==> r == Err::<(), ReactiveError>(
                ReactiveError::UseAfterDispose,
            ) && *final(self) == *old(self),
            old(self).comp_live(c as int) && old(self).running(c as int) ==> r == Err::<
                (),
                ReactiveError,
            >(ReactiveError::Running) && *final(self) == *old(self),
            old(self).comp_live(c as int) && !old(self).running(c as int) ==> {
                &&& r is Ok
                &&& final(self).active() == old(self).active().push(c)
                &&& final(self).dependencies(c as int) == Set::<int>::empty()
                &&& forall|t: int| !#[trigger] final(self).reads(c as int, t)
                &&& forall|d: int, t: int| d != c ==> #[trigger] final(self).reads(d, t) == old(self).reads(d, t)
                &&& !final(self).pending(c as int)
                &&& final(self).ran(c as int)
                &&& forall|d: int| d != c ==> #[trigger] final(self).pending(d) == old(self).pending(d)
                &&& forall|d: int| d != c ==> #[trigger] final(self).ran(d) == old(self).ran(d)
                &&& forall|d: int| #[trigger] final(self).deferred(d) == old(self).deferred(d)
                &&& Runtime::same_signals(old(self), final(self))
                &&& final(self).num_computations() == old(self).num_computations()
                &&& forall|d: int| final(self).comp_live(d) == old(self).comp_live(d)
                &&& final(self).batch_depth_spec() == old(self).batch_depth_spec()
                &&& final(self).deferrals_spec() == old(self).deferrals_spec()
            },
    {
        if !(c < self.comp_live.len() && self.comp_live[c]) {
            return Err(ReactiveError::UseAfterDispose);
        }
        if contains_id(&self.stack, c) {
            return Err(ReactiveError::Running);
        }
        self.deps.set(c, Vec::new());
        self.dirty.set(c, false);
        self.ran.set(c, true);
        self.stack.push(c);
        proof {
            assert(self.dependencies(c as int) =~= Set::<int>::empty());
            Runtime::lemma_wf_keep_live(*old(self), *self);
        }
        Ok(())
    }

    /// Whether computation `c` reads the output of another scheduled memo.
    fn is_blocked(&self, c: ComputationId) -> (r: bool)
        requires
            self.wf(),
            c < self.deps@.len(),
        ensures
            r == self.blocked(c as int),
    {
        let d = &self.deps[c];
        let mut i: usize = 0;
        while i < d.len()
            invariant
                self.wf(),
                c < self.deps@.len(),
                d@ == self.deps@[c as int]@,
                0 <= i <= d@.len(),
                forall|j: int| 0 <= j < i ==> !(self.writer_of(#[trigger] d@[j] as int) is Some
                    && self.writer_of(d@[j] as int)->0 != c
                    && self.pending(self.writer_of(d@[j] as int)->0 as int)),
            decreases d@.len() - i,
        {
            let s = d[i];
            proof {
                assert(d@.contains(s));
                assert(self.reads(c as int, s as int));
            }
            match self.writer[s] {
                Some(w) => {
                    if w != c && self.dirty[w] {
                        proof {
                            assert(self.reads(c as int, s as int));
                        }
                        return true;
                    }
                },
                None => {},
            }
            i = i + 1;
        }
        proof {
            if self.blocked(c as int) {
                let s = choose|s: int|
                    #[trigger] self.reads(c as int, s) && self.writer_of(s) is Some
                        && self.writer_of(s)->0 != c
                        && self.pending(self.writer_of(s)->0 as int);
                let j = choose|j: int| 0 <= j < d@.len() && d@[j] == s as usize;
                assert(d@[j] as int == s);
            }
        }
        false
    }

    /// Which computation a pass runs next: the smallest scheduled one that
    /// reads no output of another scheduled memo, so that it sees no stale
    /// upstream value; when every scheduled one does, which only a cycle of
    /// memos allows, the smallest scheduled one.
    pub open spec fn next_choice(&self, r: Option<ComputationId>) -> bool {
        &&& r is None ==> forall|c: int| !#[trigger] self.pending(c)
        &&& r is Some ==> {
            &&& self.pending(r->0 as int)
            &&& if self.blocked(r->0 as int) {
                &&& forall|c: int| #[trigger] self.pending(c) ==> self.blocked(c)
                &&& forall|c: int| 0 <= c < r->0 ==> !#[trigger] self.pending(c)
            } else {
                forall|c: int| 0 <= c < r->0 ==> #[trigger] self.pending(c) ==> self.blocked(c)
            }
        }
    }

    /// The computation a pass runs next, if any is scheduled.
    fn first_pending(&self) -> (r: Option<ComputationId>)
        requires
            self.wf(),
        ensures
            self.next_choice(r),
    {
        let mut c: usize = 0;
        while c < self.dirty.len()
            invariant
                self.wf(),
                0 <= c <= self.dirty@.len(),
                forall|d: int| 0 <= d < c ==> #[trigger] self.pending(d) ==> self.blocked(d),
            decreases self.dirty@.len() - c,
        {
            if self.dirty[c] && !self.is_blocked(c) {
                return Some(c);
            }
            c = c + 1;
        }
        let mut c: usize = 0;
        while c < self.dirty.len()
            invariant
                self.wf(),
                0 <= c <= self.dirty@.len(),
                forall|d: int| #[trigger] self.pending(d) ==> self.blocked(d),
                forall|d: int| 0 <= d < c ==> !#[trigger] self.pending(d),
            decreases self.dirty@.len() - c,
        {
            if self.dirty[c] {
                return Some(c);
            }
            c = c + 1;
        }
        None
    }

    /// The end-of-pass step.
    fn settle(&mut self)
        requires
            old(self).wf(),
        ensures
            final(self).wf(),
            Runtime::settled(old(self), final(self)),
            final(self).active() == old(self).active(),
    {
        if self.first_pending().is_some() {
            return;
        }
        let n = self.dirty.len();
        let mut any = false;
        let mut c: usize = 0;
        while c < n
            invariant
                0 <= c <= n,
                n == self.dirty@.len(),
                n == self.ran@.len(),
                n == self.deferred@.len(),
                n == old(self).dirty@.len(),
                old(self).wf(),
                forall|d: int| !old(self).pending(d),
                self.values@ == old(self).values@,
                self.signal_live@ == old(self).signal_live@,
                self.writer@ == old(self).writer@,
                self.deps@ == old(self).deps@,
                self.comp_live@ == old(self).comp_live@,
                self.stack@ == old(self).stack@,
                self.batch_depth == old(self).batch_depth,
                self.deferrals == old(self).deferrals,
                any == exists|d: int| 0 <= d < c && old(self).deferred(d),
                forall|d: int| 0 <= d < c ==> #[trigger] self.dirty@[d] == old(self).deferred@[d],
                forall|d: int| 0 <= d < c ==> !#[trigger] self.ran@[d],
                forall|d: int| 0 <= d < c ==> !#[trigger] self.deferred@[d],
                forall|d: int| c <= d < n ==> #[trigger] self.dirty@[d] == old(self).dirty@[d],
                forall|d: int| c <= d < n ==> #[trigger] self.ran@[d] == old(self).ran@[d],
                forall|d: int| c <= d < n ==> #[trigger] self.deferred@[d] == old(self).deferred@[d],
            decreases n - c,
        {
            let f = self.deferred[c];
            proof {
                assert(f == old(self).deferred(c as int));
            }
            if f {
                any = true;
            }
            assert(any == exists|d: int| 0 <= d < c + 1 && old(self).deferred(d)) by {
                if !any {
                    assert forall|d: int| 0 <= d < c + 1 implies !old(self).deferred(d) by {
                        if d < c {
                            assert(!(0 <= d < c && old(self).deferred(d)));
                        }
                    }
                }
            }
            self.dirty.set(c, f);
            self.ran.set(c, false);
            self.deferred.set(c, false);
            c = c + 1;
        }
        if any && self.deferrals < u64::MAX {
            self.deferrals = self.deferrals + 1;
        }
        proof {
            assert(!exists|d: int| old(self).pending(d));
            assert(any == exists|d: int| old(self).deferred(d));
            assert forall|d: int| #[trigger] self.pending(d) == old(self).deferred(d) by {
                if 0 <= d < n {
                    assert(self.dirty@[d] == old(self).deferred@[d]);
                }
            }
            assert forall|d: int| !#[trigger] self.ran(d) by {
                if 0 <= d < n {
                    assert(!self.ran@[d]);
                }
            }
            assert forall|d: int| !#[trigger] self.deferred(d) by {
                if 0 <= d < n {
                    assert(!self.deferred@[d]);
                }
            }
            Runtime::lemma_wf_keep_live(*old(self), *self);
        }
    }

    /// Closes the innermost open run and returns its computation.  When the
    /// last open run closes, the end-of-pass step follows.
    pub fn end_run(&mut self) -> (r: Result<ComputationId, ReactiveError>)
        requires
            old(self).wf(),
        ensures
            final(self).wf(),
            old(self).active().len() == 0 ==> r == Err::<ComputationId, ReactiveError>(
                ReactiveError::NotRunning,
            ) && *final(self) == *old(self),
            old(self).active().len() > 0 ==> {
                &&& r == Ok::<ComputationId, ReactiveError>(old(self).active().last())
                &&& Runtime::same_signals(old(self), final(self))
                &&& forall|c: int, t: int| #[trigger] final(self).reads(c, t) == old(self).reads(c, t)
                &&& forall|c: int| #[trigger] final(self).comp_live(c) == old(self).comp_live(c)
                &&& final(self).active() == old(self).active().drop_last()
                &&& if final(self).active().len() == 0 {
                    Runtime::settled(old(self), final(self))
                } else {
                    Runtime::same_signals(old(self), final(self))
                        && Runtime::same_computations(old(self), final(self))
                        && final(self).batch_depth_spec() == old(self).batch_depth_spec()
                        && final(self).deferrals_spec() == old(self).deferrals_spec()
                }
            },
    {
        let k = self.stack.len();
        if k == 0 {
            return Err(ReactiveError::NotRunning);
        }
        let c = self.stack.pop().unwrap();
        proof {
            Runtime::lemma_wf_keep_live(*old(self), *self);
        }
        if k == 1 {
            let ghost popped = *self;
            self.settle();
            proof {
                Runtime::lemma_settled_from_equal(old(self), &popped, self);
            }
        }
        Ok(c)
    }

    /// The computation to run next, as `next_choice` says, once no run and no
    /// batch is open.  When nothing is scheduled the end-of-pass step
    /// runs first, so deferred re-triggers come back as a new pass.
    pub fn next_pending(&mut self) -> (r: Option<ComputationId>)
        requires
            old(self).wf(),
        ensures
            final(self).wf(),
            old(self).active().len() > 0 || old(self).batch_depth_spec() > 0 ==> r is None
                && *final(self) == *old(self),
            old(self).active().len() == 0 && old(self).batch_depth_spec() == 0 ==> {
                &&& Runtime::settled(old(self), final(self))
                &&& final(self).active() == old(self).active()
                &&& final(self).next_choice(r)
            },
    {
        if self.stack.len() > 0 || self.batch_depth > 0 {
            return None;
        }
        self.settle();
        self.first_pending()
    }

    /// Opens a batch: until it closes, writes only schedule computations.
    pub fn batch_begin(&mut self)
        requires
            old(self).wf(),
            old(self).batch_depth_spec() < usize::MAX,
        ensures
            final(self).wf(),
            final(self).batch_depth_spec() == old(self).batch_depth_spec() + 1,
            Runtime::same_signals(old(self), final(self)),
            Runtime::same_computations(old(self), final(self)),
            final(self).active() == old(self).active(),
            final(self).deferrals_spec() == old(self).deferrals_spec(),
    {
        self.batch_depth = self.batch_depth + 1;
        proof {
            Runtime::lemma_wf_frame(*old(self), *self);
        }
    }

    /// Closes the innermost batch.  The writes made in it are then flushed
    /// as one pass by the caller's `next_pending` loop.
    pub fn batch_end(&mut self) -> (r: Result<(), ReactiveError>)
        requires
            old(self).wf(),
        ensures
            final(self).wf(),
            old(self).batch_depth_spec() == 0 ==> r == Err::<(), ReactiveError>(
                ReactiveError::NotBatching,
            ) && *final(self) == *old(self),
            old(self).batch_depth_spec() > 0 ==> r is Ok && final(self).batch_depth_spec()
                == old(self).batch_depth_spec() - 1,
            Runtime::same_signals(old(self), final(self)),
            Runtime::same_computations(old(self), final(self)),
            final(self).active() == old(self).active(),
            final(self).deferrals_spec() == old(self).deferrals_spec(),
    {
        if self.batch_depth == 0 {
            return Err(ReactiveError::NotBatching);
        }
        self.batch_depth = self.batch_depth - 1;
        proof {
            Runtime::lemma_wf_frame(*old(self), *self);
        }
        Ok(())
    }

    /// Disposes signal `s`: it can no longer be read or written, and every
    /// edge from it is removed.
    pub fn dispose_signal(&mut self, s: SignalId) -> (r: Result<(), ReactiveError>)
        requires
            old(self).wf(),
        ensures
            final(self).wf(),
            !old(self).signal_live(s as int) ==> r == Err::<(), ReactiveError>(
                ReactiveError::UseAfterDispose,
            ) && *final(self) == *old(self),
            old(self).signal_live(s as int) ==> r is Ok,
            final(self).num_signals() == old(self).num_signals(),
            forall|t: int| #[trigger] final(self).signal_live(t) == (old(self).signal_live(t) && t != s),
            forall|t: int| 0 <= t < old(self).num_signals() ==> #[trigger] final(self).value(t) == old(self).value(t),
            forall|t: int| 0 <= t < old(self).num_signals() ==> #[trigger] final(self).writer_of(t) == old(self).writer_of(t),
            forall|c: int, t: int| #[trigger] final(self).reads(c, t) == (old(self).reads(c, t) && t != s),
            final(self).num_computations() == old(self).num_computations(),
            forall|c: int| final(self).comp_live(c) == old(self).comp_live(c),
            forall|c: int| final(self).pending(c) == old(self).pending(c),
            forall|c: int| final(self).ran(c) == old(self).ran(c),
            forall|c: int| final(self).deferred(c) == old(self).deferred(c),
            Runtime::same_control(old(self), final(self)),
    {
        if !self.is_live_signal(s) {
            return Err(ReactiveError::UseAfterDispose);
        }
        self.signal_live.set(s, false);
        let n = self.deps.len();
        let mut c: usize = 0;
        while c < n
            invariant
                0 <= c <= n,
                n == self.deps@.len(),
                n == old(self).deps@.len(),
                old(self).wf(),
                self.values@ == old(self).values@,
                self.signal_live@ == old(self).signal_live@.update(s as int, false),
                self.writer@ == old(self).writer@,
                self.comp_live@ == old(self).comp_live@,
                self.dirty@ == old(self).dirty@,
                self.ran@ == old(self).ran@,
                self.deferred@ == old(self).deferred@,
                Runtime::same_control(old(self), self),
                forall|d: int, y: usize| 0 <= d < c ==> #[trigger] self.deps@[d]@.contains(y)
                    == (old(self).deps@[d]@.contains(y) && y != s),
                forall|d: int| c <= d < n ==> #[trigger] self.deps@[d] == old(self).deps@[d],
            decreases n - c,
        {
            let kept = without_id(&self.deps[c], s);
            self.deps.set(c, kept);
            c = c + 1;
        }
        proof {
            assert forall|c: int, t: int| #[trigger] self.reads(c, t) == (old(self).reads(c, t) && t != s) by {
                if 0 <= c < n && 0 <= t <= usize::MAX {
                    assert(self.deps@[c]@.contains(t as usize) == (old(self).deps@[c]@.contains(t as usize) && t as usize != s));
                }
            }
            assert forall|c: int, t: int| #[trigger] self.reads(c, t)
                implies self.comp_live(c) && self.signal_live(t) by {
                assert(old(self).reads(c, t));
            }
            assert forall|c: int| #[trigger] self.pending(c) implies self.comp_live(c) by {
                assert(old(self).pending(c));
            }
            assert forall|c: int| #[trigger] self.deferred(c) implies self.comp_live(c) by {
                assert(old(self).deferred(c));
            }
            assert forall|i: int| 0 <= i < self.stack@.len()
                implies self.comp_live(#[trigger] self.stack@[i] as int) by {
                assert(old(self).comp_live(old(self).stack@[i] as int));
            }
        }
        Ok(())
    }

    /// Disposes computation `c`, which must not be running: it loses every
    /// edge and leaves the schedule, so no later write reaches it.
    pub fn dispose_computation(&mut self, c: ComputationId) -> (r: Result<(), ReactiveError>)
        requires
            old(self).wf(),
        ensures
            final(self).wf(),
            !old(self).comp_live(c as int) ==> r == Err::<(), ReactiveError>(
                ReactiveError::UseAfterDispose,
            ) && *final(self) == *old(self),
            old(self).comp_live(c as int) && old(self).running(c as int) ==> r == Err::<
                (),
                ReactiveError,
            >(ReactiveError::Running) && *final(self) == *old(self),
            old(self).comp_live(c as int) && !old(self).running(c as int) ==> {
                &&& r is Ok
                &&& !final(self).comp_live(c as int)
                &&& !final(self).pending(c as int)
                &&& !final(self).ran(c as int)
                &&& !final(self).deferred(c as int)
                &&& final(self).dependencies(c as int) == Set::<int>::empty()
                &&& forall|t: int| !#[trigger] final(self).reads(c as int, t)
            },
            final(self).num_computations() == old(self).num_computations(),
            forall|d: int| d != c ==> #[trigger] final(self).comp_live(d) == old(self).comp_live(d),
            forall|d: int| d != c ==> #[trigger] final(self).pending(d) == old(self).pending(d),
            forall|d: int| d != c ==> #[trigger] final(self).ran(d) == old(self).ran(d),
            forall|d: int| d != c ==> #[trigger] final(self).deferred(d) == old(self).deferred(d),
            forall|d: int, t: int| d != c ==> #[trigger] final(self).reads(d, t) == old(self).reads(d, t),
            Runtime::same_signals(old(self), final(self)),
            Runtime::same_control(old(self), final(self)),
    {
        if !(c < self.comp_live.len() && self.comp_live[c]) {
            return Err(ReactiveError::UseAfterDispose);
        }
        if contains_id(&self.stack, c) {
            proof {
                let k = choose|k: int| 0 <= k < self.stack@.len() && self.stack@[k] == c;
                assert(self.active()[k] == c);
            }
            return Err(ReactiveError::Running);
        }
        self.deps.set(c, Vec::new());
        self.comp_live.set(c, false);
        self.dirty.set(c, false);
        self.ran.set(c, false);
        self.deferred.set(c, false);
        proof {
            assert(self.dependencies(c as int) =~= Set::<int>::empty());
            assert forall|d: int, t: int| #[trigger] self.reads(d, t)
                implies self.comp_live(d) && self.signal_live(t) by {
                assert(old(self).reads(d, t));
            }
            assert forall|d: int| #[trigger] self.pending(d) implies self.comp_live(d) by {
                assert(old(self).pending(d));
            }
            assert forall|d: int| #[trigger] self.deferred(d) implies self.comp_live(d) by {
                assert(old(self).deferred(d));
            }
            assert forall|i: int| 0 <= i < self.stack@.len()
                implies self.comp_live(#[trigger] self.stack@[i] as int) by {
                assert(old(self).comp_live(old(self).stack@[i] as int));
                assert(old(self).stack@[i] != c);
            }
        }
        Ok(())
    }
    /// The value of signal `s`, without recording an edge.
    pub fn peek(&self, s: SignalId) -> (r: Option<i64>)
        requires
            self.wf(),
        ensures
            r == if self.signal_live(s as int) {
                Some(self.value(s as int))
            } else {
                None::<i64>
            },
    {
        if self.is_live_signal(s) {
            Some(self.values[s])
        } else {
            None
        }
    }

    /// Whether computation `c` is scheduled in the current pass.
    pub fn is_pending(&self, c: ComputationId) -> (r: bool)
        requires
            self.wf(),
        ensures
            r == self.pending(c as int),
    {
        c < self.dirty.len() && self.dirty[c]
    }

    /// The signals that computation `c` read on its latest run, each once.
    pub fn dependencies_of(&self, c: ComputationId) -> (r: Vec<SignalId>)
        requires
            self.wf(),
        ensures
            forall|t: int| 0 <= t <= usize::MAX ==> r@.contains(t as SignalId) == self.reads(c as int, t),
    {
        let mut r: Vec<SignalId> = Vec::new();
        if c < self.deps.len() {
            let d = &self.deps[c];
            let mut i: usize = 0;
            while i < d.len()
                invariant
                    0 <= i <= d@.len(),
                    r@ == d@.subrange(0, i as int),
                decreases d@.len() - i,
            {
                r.push(d[i]);
                i = i + 1;
                assert(r@ =~= d@.subrange(0, i as int));
            }
            assert(r@ =~= d@);
        }
        r
    }

    /// How many passes began with deferred re-triggers; a count that keeps
    /// growing shows a computation that re-triggers itself every pass.
    pub fn deferral_count(&self) -> (r: u64)
        ensures
            r == self.deferrals_spec(),
    {
        self.deferrals
    }

    /// How many batches are open.
    pub fn batch_depth(&self) -> (r: usize)
        ensures
            r == self.batch_depth_spec(),
    {
        self.batch_depth
    }
}

/// What every well-formed runtime satisfies: live identities are in range,
/// an edge joins a live computation to a live signal, and only live
/// computations are scheduled, deferred or running.
pub proof fn lemma_wf_facts(rt: Runtime)
    requires
        rt.wf(),
    ensures
        forall|s: int| #[trigger] rt.signal_live(s) ==> 0 <= s < rt.num_signals(),
        forall|c: int| #[trigger] rt.comp_live(c) ==> 0 <= c < rt.num_computations(),
        forall|c: int, s: int| #[trigger] rt.reads(c, s) ==> rt.comp_live(c) && rt.signal_live(s),
        forall|c: int| #[trigger] rt.pending(c) ==> rt.comp_live(c),
        forall|c: int| #[trigger] rt.deferred(c) ==> rt.comp_live(c),
        forall|i: int| 0 <= i < rt.active().len() ==> rt.comp_live(#[trigger] rt.active()[i] as int),
{
}

/// A write that changes a signal's value, made when nothing is scheduled,
/// schedules exactly the computations that read that signal on their latest
/// run, each once, and defers none.
pub proof fn lemma_write_schedules_direct_dependents(a: Runtime, b: Runtime, s: int, v: i64)
    requires
        a.wf(),
        a.quiescent(),
        a.signal_live(s),
        a.value(s) != v,
        Runtime::wrote(&a, &b, s, v),
    ensures
        forall|c: int| #[trigger] b.pending(c) == a.reads(c, s),
        forall|c: int| !#[trigger] b.deferred(c),
{
    assert forall|c: int| #[trigger] b.pending(c) == a.reads(c, s) by {
        assert(!a.pending(c) && !a.ran(c));
    }
    assert forall|c: int| !#[trigger] b.deferred(c) by {
        assert(!a.deferred(c) && !a.ran(c));
    }
}

/// Once a computation has started its run in the current pass, no write
/// schedules it again in that pass: a re-trigger is deferred to the next one.
pub proof fn lemma_no_second_run_in_a_pass(a: Runtime, b: Runtime, c: int, s: int, v: i64)
    requires
        a.wf(),
        a.ran(c),
        !a.pending(c),
        Runtime::wrote(&a, &b, s, v),
    ensures
        !b.pending(c),
        b.ran(c),
        b.deferred(c) == (a.deferred(c) || (a.value(s) != v && a.reads(c, s))),
{
}

/// Writing the value a signal already holds changes nothing at all in the
/// schedule, and no value.
pub proof fn lemma_equal_write_is_silent(a: Runtime, b: Runtime, s: int)
    requires
        a.wf(),
        a.signal_live(s),
        Runtime::wrote(&a, &b, s, a.value(s)),
    ensures
        forall|c: int| #[trigger] b.pending(c) == a.pending(c),
        forall|c: int| #[trigger] b.deferred(c) == a.deferred(c),
        forall|t: int| 0 <= t < a.num_signals() ==> #[trigger] b.value(t) == a.value(t),
{
}

/// Two writes in one batch, to two signals that a computation both read,
/// schedule that computation once, and by the time the batch closes both
/// new values are in place.
pub proof fn lemma_batched_writes_schedule_once(
    a: Runtime,
    b: Runtime,
    d: Runtime,
    c: int,
    x: int,
    vx: i64,
    y: int,
    vy: i64,
)
    requires
        a.wf(),
        a.quiescent(),
        x != y,
        a.signal_live(x),
        a.signal_live(y),
        a.value(x) != vx,
        a.value(y) != vy,
        a.reads(c, x),
        a.reads(c, y),
        Runtime::wrote(&a, &b, x, vx),
        Runtime::wrote(&b, &d, y, vy),
    ensures
        d.pending(c),
        !d.deferred(c),
        !d.ran(c),
        d.value(x) == vx,
        d.value(y) == vy,
{
    assert(!a.pending(c) && !a.ran(c) && !a.deferred(c));
    assert(b.reads(c, y));
}

/// A disposed computation is read by no signal, and no write schedules it.
pub proof fn lemma_disposed_computation_never_runs(a: Runtime, b: Runtime, c: int, s: int, v: i64)
    requires
        a.wf(),
        !a.comp_live(c),
        Runtime::wrote(&a, &b, s, v),
    ensures
        forall|t: int| !#[trigger] a.reads(c, t),
        !b.pending(c),
        !b.deferred(c),
{
    assert forall|t: int| !#[trigger] a.reads(c, t) by {
        if a.reads(c, t) {
            assert(a.comp_live(c));
        }
    }
    assert(!a.pending(c));
    assert(!a.deferred(c));
}

/// A read made while a computation runs nested inside an outer one is
/// recorded for the inner one only; a later write to that signal therefore
/// leaves the outer computation's schedule as it was.
pub proof fn lemma_nested_read_goes_to_innermost(
    a: Runtime,
    b: Runtime,
    d: Runtime,
    outer: int,
    inner: int,
    s: int,
    v: i64,
)
    requires
        a.wf(),
        a.active().len() >= 2,
        a.active()[a.active().len() - 2] == outer,
        a.active().last() == inner,
        outer != inner,
        a.signal_live(s),
        !a.reads(outer, s),
        Runtime::tracked_read(&a, &b, s),
        Runtime::wrote(&b, &d, s, v),
    ensures
        b.reads(inner, s),
        !b.reads(outer, s),
        d.pending(outer) == b.pending(outer),
        d.deferred(outer) == b.deferred(outer),
{
}

/// From the opening of a run of computation `c` on, through any sequence of
/// steps, the dependencies of `c` are exactly the live signals read while
/// `c` was the innermost running computation.  A step is either a read of
/// `sigs[i]` or any other operation that leaves the edges of `c` as they
/// were: opening or closing a nested run of another computation, the end of
/// the run itself, writes, batches and the end-of-pass step all do.
pub proof fn lemma_dependencies_are_reads_of_last_run(
    states: Seq<Runtime>,
    is_read: Seq<bool>,
    sigs: Seq<int>,
    c: int,
)
    requires
        states.len() == sigs.len() + 1,
        is_read.len() == sigs.len(),
        forall|t: int| !#[trigger] states[0].reads(c, t),
        forall|i: int| 0 <= i < sigs.len() && #[trigger] is_read[i] ==> Runtime::tracked_read(
            &states[i],
            &states[i + 1],
            sigs[i],
        ),
        forall|i: int, t: int| 0 <= i < sigs.len() && !#[trigger] is_read[i] ==> #[trigger] states[i + 1].reads(c, t)
            == states[i].reads(c, t),
    ensures
        states.last().dependencies(c) == Set::new(
            |t: int|
                exists|i: int|
                    0 <= i < sigs.len() && is_read[i] && states[i].signal_live(sigs[i])
                        && states[i].active().len() > 0 && states[i].active().last() == c && sigs[i]
                        == t,
        ),
    decreases sigs.len(),
{
    let n = sigs.len();
    let target = Set::new(
        |t: int|
            exists|i: int|
                0 <= i < n && is_read[i] && states[i].signal_live(sigs[i]) && states[i].active().len()
                    > 0 && states[i].active().last() == c && sigs[i] == t,
    );
    if n == 0 {
        assert(target =~= Set::<int>::empty());
        assert(states.last().dependencies(c) =~= Set::<int>::empty());
    } else {
        let ps = states.drop_last();
        let pk = is_read.drop_last();
        let pg = sigs.drop_last();
        assert forall|i: int| 0 <= i < pg.len() && #[trigger] pk[i] implies Runtime::tracked_read(
            &ps[i],
            &ps[i + 1],
            pg[i],
        ) by {
            assert(is_read[i]);
        }
        assert forall|i: int, t: int| 0 <= i < pg.len() && !#[trigger] pk[i] implies #[trigger] ps[i + 1].reads(c, t)
            == ps[i].reads(c, t) by {
            assert(!is_read[i]);
            assert(states[i + 1].reads(c, t) == states[i].reads(c, t));
        }
        lemma_dependencies_are_reads_of_last_run(ps, pk, pg, c);
        let prev = states[n - 1];
        let last = states[n as int];
        assert(ps.last() == prev);
        assert forall|t: int| last.dependencies(c).contains(t) == target.contains(t) by {
            if is_read[n - 1] {
                assert(Runtime::tracked_read(&prev, &last, sigs[n - 1]));
                assert(last.reads(c, t) == (prev.reads(c, t) || (prev.signal_live(sigs[n - 1])
                    && prev.active().len() > 0 && c == prev.active().last() && t == sigs[n - 1])));
            } else {
                assert(!is_read[n - 1]);
                assert(states[(n - 1) + 1].reads(c, t) == states[n - 1].reads(c, t));
                assert(last.reads(c, t) == prev.reads(c, t));
            }
            assert(prev.dependencies(c).contains(t) == prev.reads(c, t));
            if prev.reads(c, t) {
                let i = choose|i: int|
                    0 <= i < pg.len() && pk[i] && ps[i].signal_live(pg[i]) && ps[i].active().len() > 0
                        && ps[i].active().last() == c && pg[i] == t;
                assert(states[i] == ps[i] && sigs[i] == pg[i] && is_read[i] == pk[i]);
            }
            if target.contains(t) {
                let i = choose|i: int|
                    0 <= i < n && is_read[i] && states[i].signal_live(sigs[i]) && states[i].active().len()
                        > 0 && states[i].active().last() == c && sigs[i] == t;
                if i < n - 1 {
                    assert(ps[i] == states[i] && pg[i] == sigs[i] && pk[i] == is_read[i]);
                    assert(prev.dependencies(c).contains(t));
                }
            }
        }
        assert(last.dependencies(c) =~= target);
    }
}

/// Over any sequence of writes made when no computation has run in the
/// current pass, inside one batch or before the scheduled computations are
/// run: a computation ends up scheduled, exactly once and with nothing
/// deferred, if and only if it was scheduled before or some write changed a
/// signal it reads; a disposed computation never ends up scheduled.
pub proof fn lemma_writes_schedule_each_dependent_once(
    states: Seq<Runtime>,
    sigs: Seq<int>,
    vals: Seq<i64>,
    c: int,
)
    requires
        states.len() == sigs.len() + 1,
        vals.len() == sigs.len(),
        states[0].wf(),
        !states[0].ran(c),
        !states[0].deferred(c),
        forall|i: int| 0 <= i < sigs.len() ==> Runtime::wrote(
            &#[trigger] states[i],
            &states[i + 1],
            sigs[i],
            vals[i],
        ),
    ensures
        states.last().pending(c) == (states[0].pending(c) || exists|i: int|
            0 <= i < sigs.len() && #[trigger] states[i].value(sigs[i]) != vals[i]
                && states[0].reads(c, sigs[i])),
        !states.last().deferred(c),
        !states.last().ran(c),
        forall|t: int| #[trigger] states.last().reads(c, t) == states[0].reads(c, t),
        !states[0].comp_live(c) ==> !states.last().pending(c),
    decreases sigs.len(),
{
    let n = sigs.len();
    if n == 0 {
        if !states[0].comp_live(c) {
            lemma_wf_facts(states[0]);
        }
    } else {
        let ps = states.drop_last();
        let pg = sigs.drop_last();
        let pv = vals.drop_last();
        assert forall|i: int| 0 <= i < pg.len() implies Runtime::wrote(
            &#[trigger] ps[i],
            &ps[i + 1],
            pg[i],
            pv[i],
        ) by {
            assert(Runtime::wrote(&states[i], &states[i + 1], sigs[i], vals[i]));
        }
        lemma_writes_schedule_each_dependent_once(ps, pg, pv, c);
        let prev = states[n - 1];
        let last = states[n as int];
        assert(ps.last() == prev);
        assert(Runtime::wrote(&states[n - 1], &states[(n - 1) + 1], sigs[n - 1], vals[n - 1]));
        assert forall|t: int| #[trigger] last.reads(c, t) == states[0].reads(c, t) by {
            assert(prev.reads(c, t) == states[0].reads(c, t));
        }
        let before = exists|i: int|
            0 <= i < pg.len() && #[trigger] ps[i].value(pg[i]) != pv[i] && states[0].reads(c, pg[i]);
        let after = exists|i: int|
            0 <= i < n && #[trigger] states[i].value(sigs[i]) != vals[i] && states[0].reads(c, sigs[i]);
        if before {
            let i = choose|i: int|
                0 <= i < pg.len() && #[trigger] ps[i].value(pg[i]) != pv[i] && states[0].reads(c, pg[i]);
            assert(states[i] == ps[i] && sigs[i] == pg[i] && vals[i] == pv[i]);
        }
        if after {
            let i = choose|i: int|
                0 <= i < n && #[trigger] states[i].value(sigs[i]) != vals[i] && states[0].reads(c, sigs[i]);
            if i < n - 1 {
                assert(states[i] == ps[i] && sigs[i] == pg[i] && vals[i] == pv[i]);
            } else {
                assert(prev.reads(c, sigs[n - 1]));
            }
        }
        if prev.value(sigs[n - 1]) != vals[n - 1] && prev.reads(c, sigs[n - 1]) {
            assert(states[0].reads(c, sigs[n - 1]));
            assert(states[n - 1].value(sigs[n - 1]) != vals[n - 1]);
        }
        if !states[0].comp_live(c) {
            lemma_wf_facts(states[0]);
        }
    }
}

} // verus!
