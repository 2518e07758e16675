use vstd::prelude::*;

verus! {

/// What a worker is doing, as its manager sees it.
#[derive(Debug)]
pub enum WorkerState<U> {
    Idle,
    Busy,
    /// The worker's loop ended with a value.
    Finished(U),
    /// The worker's loop failed or its thread panicked.
    Dead,
}

impl<U> WorkerState<U> {
    /// A worker whose thread still runs its loop.
    pub open spec fn spec_is_live(&self) -> bool {
        self is Idle || self is Busy
    }

    pub fn is_live(&self) -> (r: bool)
        ensures
            r == self.spec_is_live(),
    {
        match self {
            WorkerState::Idle => true,
            WorkerState::Busy => true,
            _ => false,
        }
    }

    pub fn is_idle(&self) -> (r: bool)
        ensures
            r == self is Idle,
    {
        match self {
            WorkerState::Idle => true,
            _ => false,
        }
    }
}

/// How many of `s` are live.
pub open spec fn live_count<U>(s: Seq<WorkerState<U>>) -> nat
    decreases s.len(),
{
    if s.len() == 0 {
        0
    } else {
        live_count(s.drop_last()) + if s.last().spec_is_live() {
            1nat
        } else {
            0nat
        }
    }
}

/// The indices of the live workers of `s`, in order.
pub open spec fn live_indices<U>(s: Seq<WorkerState<U>>) -> Seq<usize>
    decreases s.len(),
{
    if s.len() == 0 {
        seq![]
    } else if s.last().spec_is_live() {
        live_indices(s.drop_last()).push((s.len() - 1) as usize)
    } else {
        live_indices(s.drop_last())
    }
}

/// How many workers the manager starts so that `worker_count` are live.
pub open spec fn missing_count(worker_count: nat, live: nat) -> nat {
    if live >= worker_count {
        0
    } else {
        (worker_count - live) as nat
    }
}

/// The workers after a manager step: the live ones kept in order, then as many
/// new idle workers as are missing.
pub open spec fn after_manager_step<U>(worker_count: nat, s: Seq<WorkerState<U>>) -> Seq<WorkerState<U>> {
    live_indices(s).map_values(|i: usize| s[i as int]) + Seq::new(
        missing_count(worker_count, live_count(s)),
        |k: int| WorkerState::<U>::Idle,
    )
}

proof fn lemma_live_indices<U>(s: Seq<WorkerState<U>>)
    requires
        s.len() <= usize::MAX,
    ensures
        live_indices(s).len() == live_count(s),
        forall|k: int|
            0 <= k < live_indices(s).len() ==> (#[trigger] live_indices(s)[k]) < s.len() && s[live_indices(
                s,
            )[k] as int].spec_is_live(),
    decreases s.len(),
{
    if s.len() > 0 {
        lemma_live_indices(s.drop_last());
        let p = live_indices(s.drop_last());
        assert forall|k: int| 0 <= k < p.len() implies s[p[k] as int] == s.drop_last()[p[k] as int] by {}
        if s.last().spec_is_live() {
            assert(live_indices(s) == p.push((s.len() - 1) as usize));
            assert(live_indices(s)[p.len() as int] == (s.len() - 1) as usize);
        }
    }
}

proof fn lemma_all_live_count<U>(s: Seq<WorkerState<U>>)
    requires
        forall|k: int| 0 <= k < s.len() ==> (#[trigger] s[k]).spec_is_live(),
    ensures
        live_count(s) == s.len(),
    decreases s.len(),
{
    if s.len() > 0 {
        lemma_all_live_count(s.drop_last());
    }
}

/// Restarting dead workers keeps the pool at its size: after a manager step,
/// whichever workers died or finished, exactly `worker_count` workers are live.
pub proof fn lemma_manager_step_restores_count<U>(worker_count: nat, s: Seq<WorkerState<U>>)
    requires
        live_count(s) <= worker_count,
        s.len() <= usize::MAX,
    ensures
        live_count(after_manager_step(worker_count, s)) == worker_count,
        after_manager_step(worker_count, s).len() == worker_count,
{
    lemma_live_indices(s);
    let t = after_manager_step(worker_count, s);
    assert forall|k: int| 0 <= k < t.len() implies (#[trigger] t[k]).spec_is_live() by {
        if k < live_indices(s).len() {
            assert(t[k] == s[live_indices(s)[k] as int]);
        }
    }
    lemma_all_live_count(t);
}

/// The indices of the live workers among `states`: those the manager keeps.
pub fn live_workers<U>(states: &Vec<WorkerState<U>>) -> (r: Vec<usize>)
    ensures
        r@ == live_indices(states@),
{
    let mut out: Vec<usize> = Vec::new();
    let mut i: usize = 0;
    while i < states.len()
        invariant
            i <= states@.len(),
            out@ == live_indices(states@.subrange(0, i as int)),
        decreases states@.len() - i,
    {
        let ghost pre = states@.subrange(0, i as int);
        let ghost next = states@.subrange(0, i + 1);
        assert(next.drop_last() =~= pre);
        assert(live_indices(pre) =~= live_indices(next.drop_last()));
        if states[i].is_live() {
            out.push(i);
        }
        i = i + 1;
    }
    assert(states@.subrange(0, states@.len() as int) =~= states@);
    out
}

/// How many workers to start so that `worker_count` are live, of `states`.
pub fn build_missing_workers<U>(worker_count: usize, states: &Vec<WorkerState<U>>) -> (r: usize)
    ensures
        r == missing_count(worker_count as nat, live_count(states@)),
{
    let live = live_workers(states);
    let n = states.len();
    proof {
        lemma_live_indices(states@);
    }
    if live.len() >= worker_count {
        0
    } else {
        worker_count - live.len()
    }
}

/// The first idle worker of `states`, which gets the next item; `None` where
/// all are busy or gone, and the item is dropped.
pub fn select_idle_worker<U>(states: &Vec<WorkerState<U>>) -> (r: Option<usize>)
    ensures
        r is None <==> forall|k: int| 0 <= k < states@.len() ==> !(#[trigger] states@[k] is Idle),
        r is Some ==> r->Some_0 < states@.len() && states@[r->Some_0 as int] is Idle && forall|k: int|
            0 <= k < r->Some_0 ==> !(#[trigger] states@[k] is Idle),
{
    let mut i: usize = 0;
    while i < states.len()
        invariant
            i <= states@.len(),
            forall|k: int| 0 <= k < i ==> !(#[trigger] states@[k] is Idle),
        decreases states@.len() - i,
    {
        if states[i].is_idle() {
            return Some(i);
        }
        i = i + 1;
    }
    None
}

} // verus!
