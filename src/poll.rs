//! The decisions of one polling cycle: which (device, parameter) pairs are
//! queried, in which order, and which sample each reply gives.
use vstd::prelude::*;
use crate::config::{Device, Mib};
use crate::value::{SnmpValue, normalize, normalized};

verus! {

/// One stored measurement: a value for a (parameter, device) pair at a time
/// in whole seconds since the epoch.
#[derive(Debug, Clone, Copy, PartialEq, Eq, Structural)]
pub struct Sample {
    pub parameter: u32,
    pub object: u32,
    pub start: u64,
    pub data: i64,
}

/// One query of a cycle: the index of the device and of its parameter.
#[derive(Debug, Clone, Copy, PartialEq, Eq, Structural)]
pub struct PollTarget {
    pub device: usize,
    pub mib: usize,
}

/// How one query ended. A reply carries its first binding's value and the
/// wall-clock second at which it came.
#[derive(Debug, Clone, Copy, PartialEq, Eq, Structural)]
pub enum PollOutcome {
    SessionFailed,
    RequestFailed,
    NoBinding,
    Reply(SnmpValue, u64),
}

/// The queries of one device, in parameter order.
pub open spec fn device_plan(i: int, d: Device) -> Seq<PollTarget> {
    Seq::new(d.mibs@.len(), |j: int| PollTarget { device: i as usize, mib: j as usize })
}

/// The queries of a cycle: every device in order, each of its parameters in order.
pub open spec fn cycle_plan(devs: Seq<Device>) -> Seq<PollTarget>
    decreases devs.len(),
{
    if devs.len() == 0 {
        Seq::empty()
    } else {
        cycle_plan(devs.drop_last()) + device_plan(devs.len() - 1, devs.last())
    }
}

/// The sample, if any, that one query gives.
pub open spec fn sample_of(d: Device, m: Mib, o: PollOutcome) -> Option<Sample> {
    match o {
        PollOutcome::Reply(v, now) => Some(
            Sample { parameter: m.id, object: d.id, start: now, data: normalized(v) as i64 },
        ),
        _ => None,
    }
}

/// The samples that a sequence of per-query results holds, in order.
pub open spec fn present(s: Seq<Option<Sample>>) -> Seq<Sample>
    decreases s.len(),
{
    if s.len() == 0 {
        Seq::empty()
    } else {
        present(s.drop_last()) + match s.last() {
            Some(x) => seq![x],
            None => Seq::empty(),
        }
    }
}

/// The target is a parameter of a device of `devs`.
pub open spec fn valid_target(devs: Seq<Device>, t: PollTarget) -> bool {
    t.device < devs.len() && t.mib < devs[t.device as int].mibs@.len()
}

/// What each query of a cycle gives.
pub open spec fn cycle_results(
    devs: Seq<Device>,
    plan: Seq<PollTarget>,
    outcomes: Seq<PollOutcome>,
) -> Seq<Option<Sample>> {
    Seq::new(
        plan.len(),
        |k: int|
            sample_of(
                devs[plan[k].device as int],
                devs[plan[k].device as int].mibs@[plan[k].mib as int],
                outcomes[k],
            ),
    )
}

/// Lists the queries of one cycle.
pub fn poll_plan(devices: &Vec<Device>) -> (r: Vec<PollTarget>)
    ensures
        r@ == cycle_plan(devices@),
{
    let mut r: Vec<PollTarget> = Vec::new();
    let mut i: usize = 0;
    while i < devices.len()
        invariant
            0 <= i <= devices@.len(),
            r@ == cycle_plan(devices@.take(i as int)),
        decreases devices@.len() - i,
    {
        assert(devices@.take(i + 1).drop_last() =~= devices@.take(i as int));
        let ghost before = r@;
        let mut j: usize = 0;
        while j < devices[i].mibs.len()
            invariant
                0 <= i < devices@.len(),
                0 <= j <= devices@[i as int].mibs@.len(),
                r@ == before + device_plan(i as int, devices@[i as int]).take(j as int),
            decreases devices@[i as int].mibs@.len() - j,
        {
            r.push(PollTarget { device: i, mib: j });
            assert(device_plan(i as int, devices@[i as int]).take(j + 1) =~= device_plan(
                i as int,
                devices@[i as int],
            ).take(j as int).push(PollTarget { device: i, mib: j }));
            j = j + 1;
        }
        assert(device_plan(i as int, devices@[i as int]).take(j as int) =~= device_plan(
            i as int,
            devices@[i as int],
        ));
        i = i + 1;
    }
    assert(devices@.take(i as int) =~= devices@);
    r
}

/// The sample that one query gives: a reply is normalized and keyed by the
/// parameter, the device and the reply's second; a failed query gives none.
pub fn sample_for(device: &Device, mib: &Mib, outcome: &PollOutcome) -> (r: Option<Sample>)
    ensures
        r == sample_of(*device, *mib, *outcome),
{
    match outcome {
        PollOutcome::Reply(v, now) => {
            let data = normalize(v);
            Some(Sample { parameter: mib.id, object: device.id, start: *now, data })
        },
        _ => None,
    }
}

/// The samples of one cycle, in query order: one for every query that
/// replied, whatever became of the others.
pub fn cycle_samples(
    devices: &Vec<Device>,
    plan: &Vec<PollTarget>,
    outcomes: &Vec<PollOutcome>,
) -> (r: Vec<Sample>)
    requires
        outcomes@.len() == plan@.len(),
        forall|k: int| 0 <= k < plan@.len() ==> valid_target(devices@, #[trigger] plan@[k]),
    ensures
        r@ == present(cycle_results(devices@, plan@, outcomes@)),
{
    let ghost all = cycle_results(devices@, plan@, outcomes@);
    let mut r: Vec<Sample> = Vec::new();
    let mut k: usize = 0;
    while k < plan.len()
        invariant
            0 <= k <= plan@.len(),
            outcomes@.len() == plan@.len(),
            forall|m: int| 0 <= m < plan@.len() ==> valid_target(devices@, #[trigger] plan@[m]),
            all == cycle_results(devices@, plan@, outcomes@),
            r@ == present(all.take(k as int)),
        decreases plan@.len() - k,
    {
        let t = plan[k];
        assert(valid_target(devices@, plan@[k as int]));
        let s = sample_for(&devices[t.device], &devices[t.device].mibs[t.mib], &outcomes[k]);
        assert(all.take(k + 1).drop_last() =~= all.take(k as int));
        assert(s == all[k as int]);
        match s {
            Some(x) => r.push(x),
            None => {},
        }
        k = k + 1;
    }
    assert(all.take(k as int) =~= all);
    r
}

proof fn lemma_present_append(a: Seq<Option<Sample>>, b: Seq<Option<Sample>>)
    ensures
        present(a + b) == present(a) + present(b),
    decreases b.len(),
{
    if b.len() == 0 {
        assert(a + b =~= a);
        assert(present(a) + present(b) =~= present(a));
    } else {
        assert((a + b).drop_last() =~= a + b.drop_last());
        lemma_present_append(a, b.drop_last());
        assert(present(a + b) =~= present(a) + present(b));
    }
}

/// A failed query costs only its own sample: the cycle still gives the
/// samples of every query before it and after it, on the same or another
/// device.
pub proof fn lemma_failure_skips_only_itself(
    devs: Seq<Device>,
    plan: Seq<PollTarget>,
    outcomes: Seq<PollOutcome>,
    k: int,
)
    requires
        outcomes.len() == plan.len(),
        0 <= k < plan.len(),
        !(outcomes[k] is Reply),
    ensures
        present(cycle_results(devs, plan, outcomes)) == present(
            cycle_results(devs, plan, outcomes).take(k),
        ) + present(cycle_results(devs, plan, outcomes).skip(k + 1)),
{
    let all = cycle_results(devs, plan, outcomes);
    assert(all[k] is None);
    assert(all =~= all.take(k) + seq![all[k]] + all.skip(k + 1));
    lemma_present_append(all.take(k) + seq![all[k]], all.skip(k + 1));
    lemma_present_append(all.take(k), seq![all[k]]);
    let one = seq![all[k]];
    assert(one.drop_last() =~= Seq::<Option<Sample>>::empty());
    assert(present(one.drop_last()) =~= Seq::<Sample>::empty());
    assert(present(one) =~= Seq::<Sample>::empty());
    assert(present(all.take(k)) + present(seq![all[k]]) =~= present(all.take(k)));
}

/// Every query of the plan names an existing parameter of an existing device.
pub proof fn lemma_plan_covers_all(devs: Seq<Device>)
    requires
        devs.len() <= usize::MAX,
        forall|i: int| 0 <= i < devs.len() ==> (#[trigger] devs[i]).mibs@.len() <= usize::MAX,
    ensures
        forall|k: int| 0 <= k < cycle_plan(devs).len() ==> valid_target(devs, #[trigger] cycle_plan(devs)[k]),
    decreases devs.len(),
{
    if devs.len() > 0 {
        lemma_plan_covers_all(devs.drop_last());
        let a = cycle_plan(devs.drop_last());
        let b = device_plan(devs.len() - 1, devs.last());
        assert forall|k: int| 0 <= k < cycle_plan(devs).len() implies valid_target(devs, #[trigger] cycle_plan(devs)[k]) by {
            if k < a.len() {
                assert(cycle_plan(devs)[k] == a[k]);
                assert(valid_target(devs.drop_last(), a[k]));
                assert(devs.drop_last()[a[k].device as int] == devs[a[k].device as int]);
            } else {
                assert(cycle_plan(devs)[k] == b[k - a.len()]);
                assert(devs.last() == devs[devs.len() - 1]);
            }
        }
    }
}

} // verus!
