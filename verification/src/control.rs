//! One turn of the control loop: how each kind of input changes the target
//! or the observed state, and the plan that follows. The loop itself — the
//! channels, timers and the runtime connection — lives with the caller.

use crate::config::Target;
use crate::plan::{Plan, diff, plan_of};
use crate::state::{ContainerEvent, ContainerEventV, ContainerInfo, PodSandboxInfo, PodStatusV,
    State, ingest_spec, observe_spec};
use crate::strmap::lemma_take_step;
use vstd::prelude::*;

verus! {

/// The state after a batch of events is applied in batch order.
pub open spec fn observe_all(
    s: Map<Seq<char>, PodStatusV>,
    es: Seq<ContainerEventV>,
) -> Map<Seq<char>, PodStatusV>
    decreases es.len(),
{
    if es.len() == 0 {
        s
    } else {
        observe_spec(observe_all(s, es.drop_last()), es.last())
    }
}

/// One input the control loop reacts to: a batch of streamed events, a new
/// target, or a fresh list snapshot.
pub enum LoopInput {
    Events(Vec<ContainerEvent>),
    NewTarget(Target),
    Refresh(Vec<ContainerInfo>, Vec<PodSandboxInfo>),
}

/// Applies one input and plans the next work: events are observed in batch
/// order, a new target replaces the old one, a snapshot replaces the state;
/// then the plan for the new picture is computed. An empty batch of events
/// changes nothing and plans nothing.
pub fn control_step(state: &mut State, target: &mut Target, input: LoopInput) -> (r: Option<Plan>)
    ensures
        input matches LoopInput::NewTarget(t) ==> {
            &&& final(target)@ == t@
            &&& final(state)@ == old(state)@
            &&& (r matches Some(p) && p@ == plan_of(t@, old(state)@))
        },
        input matches LoopInput::Refresh(cs, ps) ==> {
            &&& final(target)@ == old(target)@
            &&& final(state)@ == ingest_spec(cs.deep_view(), ps.deep_view())
            &&& (r matches Some(p) && p@ == plan_of(old(target)@, final(state)@))
        },
        input matches LoopInput::Events(es) ==> {
            &&& final(target)@ == old(target)@
            &&& (es@.len() == 0 ==> final(state)@ == old(state)@ && r is None)
            &&& (es@.len() > 0 ==> final(state)@ == observe_all(old(state)@, es.deep_view()))
            &&& (es@.len() > 0 ==> (r matches Some(p) && p@ == plan_of(
                old(target)@,
                observe_all(old(state)@, es.deep_view()),
            )))
        },
{
    match input {
        LoopInput::Events(mut es) => {
            if es.len() == 0 {
                None
            } else {
                let ghost full = es.deep_view();
                let ghost orig = state@;
                let mut k: usize = 0;
                let n = es.len();
                while k < n
                    invariant
                        k <= n,
                        n == full.len(),
                        es@.len() == n - k,
                        es.deep_view() =~= full.skip(k as int),
                        state@ == observe_all(orig, full.take(k as int)),
                        target@ == old(target)@,
                    decreases n - k,
                {
                    let ghost es_before = es.deep_view();
                    let ghost ev0 = es@;
                    let e = es.remove(0);
                    proof {
                        lemma_take_step(full, k as int);
                        assert(es_before[0] == full.skip(k as int)[0]);
                        assert(e@ == full[k as int]);
                        assert(es@ =~= ev0.subrange(1, ev0.len() as int));
                        assert forall|jj: int| 0 <= jj < es.deep_view().len() implies es.deep_view()[jj]
                            == full.skip(k + 1)[jj] by {
                            assert(es@[jj] == ev0[jj + 1]);
                            assert(es_before[jj + 1] == full.skip(k as int)[jj + 1]);
                        }
                        assert(es.deep_view() =~= full.skip(k + 1));
                    }
                    state.observe(e);
                    k = k + 1;
                }
                proof {
                    assert(full.take(n as int) =~= full);
                }
                Some(diff(&*target, &*state))
            }
        },
        LoopInput::NewTarget(t) => {
            *target = t;
            Some(diff(&*target, &*state))
        },
        LoopInput::Refresh(cs, ps) => {
            state.ingest(cs, ps);
            Some(diff(&*target, &*state))
        },
    }
}

} // verus!
