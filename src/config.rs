//! The registry of polled devices and their parameters, and the rule that
//! gives every device and every parameter a stable non-zero identifier.
use vstd::prelude::*;

verus! {

/// One polled network endpoint.
#[derive(Debug, Default)]
pub struct Device {
    pub id: u32,
    pub ip: String,
    pub community: String,
    pub mibs: Vec<Mib>,
}

/// One monitored parameter of a device; reports are divided by `devision`.
#[derive(Debug)]
pub struct Mib {
    pub id: u32,
    pub name: String,
    pub units: String,
    pub oid: Vec<u32>,
    pub devision: i64,
}

impl Default for Mib {
    fn default() -> (r: Self)
        ensures
            r.id == 0,
            r.name@.len() == 0,
            r.units@.len() == 0,
            r.oid@.len() == 0,
            r.devision == 1,
    {
        Mib { id: 0, name: String::new(), units: String::new(), oid: Vec::new(), devision: 1 }
    }
}

/// The device list and the polling interval in seconds.
pub struct Config {
    pub devices: Vec<Device>,
    pub loop_time: usize,
}

/// The polling interval, in seconds, unless one is given.
pub const DEFAULT_LOOP_TIME: usize = 60;

/// The largest element of `s`, or 0 when `s` is empty.
pub open spec fn seq_max(s: Seq<u32>) -> nat
    decreases s.len(),
{
    if s.len() == 0 {
        0
    } else {
        let m = seq_max(s.drop_last());
        if s.last() as nat > m {
            s.last() as nat
        } else {
            m
        }
    }
}

/// How many elements of `s` are zero.
pub open spec fn count_zeros(s: Seq<u32>) -> nat
    decreases s.len(),
{
    if s.len() == 0 {
        0
    } else {
        count_zeros(s.drop_last()) + if s.last() == 0 {
            1nat
        } else {
            0nat
        }
    }
}

/// The identifier that position `k` of `s` ends up with: a non-zero one is
/// kept, the zeros get `max + 1, max + 2, ...` in order.
pub open spec fn assigned_id(s: Seq<u32>, k: int) -> int {
    if s[k] != 0 {
        s[k] as int
    } else {
        (seq_max(s) + count_zeros(s.take(k)) + 1) as int
    }
}

/// Identifier assignment over one identifier space.
pub open spec fn assign_ids(s: Seq<u32>) -> Seq<u32> {
    Seq::new(s.len(), |k: int| assigned_id(s, k) as u32)
}

/// The new identifiers fit in `u32`.
pub open spec fn ids_fit(s: Seq<u32>) -> bool {
    seq_max(s) + count_zeros(s) <= u32::MAX
}

/// The identifiers of the devices, in order.
pub open spec fn device_ids(devs: Seq<Device>) -> Seq<u32> {
    devs.map_values(|d: Device| d.id)
}

/// The identifiers of one device's parameters, in order.
pub open spec fn own_mib_ids(d: Device) -> Seq<u32> {
    d.mibs@.map_values(|m: Mib| m.id)
}

/// The identifiers of all parameters, device after device.
pub open spec fn mib_ids(devs: Seq<Device>) -> Seq<u32>
    decreases devs.len(),
{
    if devs.len() == 0 {
        Seq::empty()
    } else {
        mib_ids(devs.drop_last()) + own_mib_ids(devs.last())
    }
}

/// Two parameters that differ at most in their identifier.
pub open spec fn same_mib_but_id(a: Mib, b: Mib) -> bool {
    a.name == b.name && a.units == b.units && a.oid == b.oid && a.devision == b.devision
}

/// `a` holds the identifiers that numbering gave `b`: none is zero, and
/// every non-zero one of `b` is kept.
pub open spec fn ids_kept(a: Device, b: Device) -> bool {
    &&& a.id != 0
    &&& b.id != 0 ==> a.id == b.id
    &&& forall|m: int|
        0 <= m < a.mibs@.len() ==> (#[trigger] a.mibs@[m]).id != 0 && (b.mibs@[m].id != 0
            ==> a.mibs@[m].id == b.mibs@[m].id)
}

/// Two devices that differ at most in their own and their parameters' identifiers.
pub open spec fn same_device_but_ids(a: Device, b: Device) -> bool {
    &&& a.ip == b.ip
    &&& a.community == b.community
    &&& a.mibs@.len() == b.mibs@.len()
    &&& forall|j: int| 0 <= j < a.mibs@.len() ==> same_mib_but_id(#[trigger] a.mibs@[j], b.mibs@[j])
}

proof fn lemma_seq_max_bound(s: Seq<u32>)
    ensures
        seq_max(s) <= u32::MAX,
        forall|k: int| 0 <= k < s.len() ==> s[k] <= seq_max(s),
    decreases s.len(),
{
    if s.len() > 0 {
        lemma_seq_max_bound(s.drop_last());
        assert forall|k: int| 0 <= k < s.len() implies s[k] <= seq_max(s) by {
            if k < s.len() - 1 {
                assert(s.drop_last()[k] == s[k]);
            }
        }
    }
}

proof fn lemma_count_zeros_prefix(s: Seq<u32>, k: int)
    requires
        0 <= k <= s.len(),
    ensures
        count_zeros(s.take(k)) <= count_zeros(s),
    decreases s.len() - k,
{
    if k < s.len() {
        lemma_count_zeros_prefix(s, k + 1);
        assert(s.take(k + 1).drop_last() =~= s.take(k));
    } else {
        assert(s.take(k) =~= s);
    }
}

proof fn lemma_mib_ids_prefix_len(devs: Seq<Device>, i: int)
    requires
        0 <= i <= devs.len(),
    ensures
        mib_ids(devs.take(i)).len() <= mib_ids(devs).len(),
        mib_ids(devs.take(i)) == mib_ids(devs).take(mib_ids(devs.take(i)).len() as int),
    decreases devs.len() - i,
{
    if i < devs.len() {
        lemma_mib_ids_prefix_len(devs, i + 1);
        assert(devs.take(i + 1).drop_last() =~= devs.take(i));
        let l0 = mib_ids(devs.take(i)).len() as int;
        let l1 = mib_ids(devs.take(i + 1)).len() as int;
        assert(mib_ids(devs.take(i)) =~= mib_ids(devs.take(i + 1)).take(l0));
        assert(mib_ids(devs).take(l1).take(l0) =~= mib_ids(devs).take(l0));
    } else {
        assert(devs.take(i) =~= devs);
        assert(mib_ids(devs).take(mib_ids(devs).len() as int) =~= mib_ids(devs));
    }
}

/// Parameter `j` of device `i` stands in the flattened identifiers after
/// those of the devices before `i`.
proof fn lemma_mib_ids_index(devs: Seq<Device>, i: int, j: int)
    requires
        0 <= i < devs.len(),
        0 <= j < devs[i].mibs@.len(),
    ensures
        mib_ids(devs.take(i)).len() + j < mib_ids(devs).len(),
        mib_ids(devs)[mib_ids(devs.take(i)).len() + j] == devs[i].mibs@[j].id,
{
    lemma_mib_ids_prefix_len(devs, i + 1);
    assert(devs.take(i + 1).drop_last() =~= devs.take(i));
    let l0 = mib_ids(devs.take(i)).len() as int;
    assert(mib_ids(devs.take(i + 1))[l0 + j] == own_mib_ids(devs[i])[j]);
    assert(mib_ids(devs).take(mib_ids(devs.take(i + 1)).len() as int)[l0 + j] == mib_ids(
        devs,
    )[l0 + j]);
}

proof fn lemma_count_zeros_none(s: Seq<u32>)
    requires
        forall|k: int| 0 <= k < s.len() ==> s[k] != 0,
    ensures
        count_zeros(s) == 0,
    decreases s.len(),
{
    if s.len() > 0 {
        lemma_count_zeros_none(s.drop_last());
    }
}

proof fn lemma_count_zeros_mono(s: Seq<u32>, a: int, b: int)
    requires
        0 <= a <= b <= s.len(),
    ensures
        count_zeros(s.take(a)) <= count_zeros(s.take(b)),
{
    lemma_count_zeros_prefix(s.take(b), a);
    assert(s.take(b).take(a) =~= s.take(a));
}

proof fn lemma_assigned_range(s: Seq<u32>, k: int)
    requires
        ids_fit(s),
        0 <= k < s.len(),
    ensures
        1 <= assigned_id(s, k) <= u32::MAX,
        s[k] == 0 ==> assigned_id(s, k) > seq_max(s),
        s[k] == 0 ==> count_zeros(s.take(k + 1)) == count_zeros(s.take(k)) + 1,
{
    lemma_seq_max_bound(s);
    assert(s.take(k + 1).drop_last() =~= s.take(k));
    lemma_count_zeros_prefix(s, k + 1);
}

/// Assigning twice gives what assigning once gives: after one pass no
/// identifier is zero, and the second pass keeps every non-zero one.
pub proof fn lemma_assign_idempotent(s: Seq<u32>)
    requires
        ids_fit(s),
    ensures
        ids_fit(assign_ids(s)),
        assign_ids(assign_ids(s)) == assign_ids(s),
{
    let a = assign_ids(s);
    assert forall|k: int| 0 <= k < a.len() implies a[k] != 0 by {
        lemma_assigned_range(s, k);
    }
    lemma_count_zeros_none(a);
    lemma_seq_max_bound(a);
    assert(assign_ids(a) =~= a);
}

/// Numbering a registry twice gives the identifiers that numbering it once
/// gives, in both spaces, and the second numbering is always admissible.
pub proof fn lemma_make_id_idempotent(devs: Seq<Device>)
    requires
        ids_fit(device_ids(devs)),
        ids_fit(mib_ids(devs)),
    ensures
        ids_fit(assign_ids(device_ids(devs))),
        ids_fit(assign_ids(mib_ids(devs))),
        assign_ids(assign_ids(device_ids(devs))) == assign_ids(device_ids(devs)),
        assign_ids(assign_ids(mib_ids(devs))) == assign_ids(mib_ids(devs)),
{
    lemma_assign_idempotent(device_ids(devs));
    lemma_assign_idempotent(mib_ids(devs));
}

/// Assignment keeps every non-zero identifier, leaves no zero behind, and,
/// where the given non-zero identifiers are distinct, yields distinct ones.
pub proof fn lemma_assign_keeps_and_fills(s: Seq<u32>)
    requires
        ids_fit(s),
    ensures
        assign_ids(s).len() == s.len(),
        forall|k: int| 0 <= k < s.len() && s[k] != 0 ==> #[trigger] assign_ids(s)[k] == s[k],
        forall|k: int| 0 <= k < s.len() ==> #[trigger] assign_ids(s)[k] != 0,
        (forall|a: int, b: int|
            0 <= a < b < s.len() && s[a] != 0 && s[b] != 0 ==> s[a] != s[b]) ==> (forall|
            a: int,
            b: int,
        | 0 <= a < b < s.len() ==> assign_ids(s)[a] != assign_ids(s)[b]),
{
    assert forall|k: int| 0 <= k < s.len() implies #[trigger] assign_ids(s)[k] != 0 by {
        lemma_assigned_range(s, k);
    }
    if forall|a: int, b: int| 0 <= a < b < s.len() && s[a] != 0 && s[b] != 0 ==> s[a] != s[b] {
        assert forall|a: int, b: int| 0 <= a < b < s.len() implies assign_ids(s)[a]
            != assign_ids(s)[b] by {
            lemma_assigned_range(s, a);
            lemma_assigned_range(s, b);
            lemma_seq_max_bound(s);
            if s[a] == 0 && s[b] == 0 {
                lemma_count_zeros_mono(s, a + 1, b);
            }
        }
    }
}

/// Devices and parameters are numbered apart: the new device identifiers
/// depend on the device identifiers alone, so a device and a parameter may
/// hold the same value, and a value that both already hold is kept by both.
pub proof fn lemma_id_spaces_independent(a: Seq<Device>, b: Seq<Device>, i: int, p: int)
    requires
        device_ids(a) == device_ids(b),
        ids_fit(device_ids(a)),
        ids_fit(mib_ids(a)),
        0 <= i < a.len(),
        0 <= p < mib_ids(a).len(),
        a[i].id != 0,
        a[i].id == mib_ids(a)[p],
    ensures
        assign_ids(device_ids(a)) == assign_ids(device_ids(b)),
        assign_ids(device_ids(a))[i] == assign_ids(mib_ids(a))[p],
{
    lemma_assign_keeps_and_fills(device_ids(a));
    lemma_assign_keeps_and_fills(mib_ids(a));
    assert(device_ids(a)[i] == a[i].id);
}

/// The identifiers of the devices, and those of all parameters.
fn collect_ids(devices: &Vec<Device>) -> (r: (Vec<u32>, Vec<u32>))
    ensures
        r.0@ == device_ids(devices@),
        r.1@ == mib_ids(devices@),
{
        let ghost olds = devices@;
        let mut dev_ids: Vec<u32> = Vec::new();
        let mut all_mib_ids: Vec<u32> = Vec::new();
        let mut i: usize = 0;
        while i < devices.len()
            invariant
                devices@ == olds,
                0 <= i <= olds.len(),
                dev_ids@ == device_ids(olds.take(i as int)),
                all_mib_ids@ == mib_ids(olds.take(i as int)),
            decreases olds.len() - i,
        {
            assert(olds.take(i + 1).drop_last() =~= olds.take(i as int));
            dev_ids.push(devices[i].id);
            let mut j: usize = 0;
            let ghost before = all_mib_ids@;
            while j < devices[i].mibs.len()
                invariant
                    devices@ == olds,
                    0 <= i < olds.len(),
                    0 <= j <= olds[i as int].mibs@.len(),
                    all_mib_ids@ == before + own_mib_ids(olds[i as int]).take(j as int),
                decreases olds[i as int].mibs@.len() - j,
            {
                all_mib_ids.push(devices[i].mibs[j].id);
                assert(own_mib_ids(olds[i as int]).take(j + 1) =~= own_mib_ids(
                    olds[i as int],
                ).take(j as int).push(olds[i as int].mibs@[j as int].id));
                j = j + 1;
            }
            assert(own_mib_ids(olds[i as int]).take(j as int) =~= own_mib_ids(olds[i as int]));
            assert(dev_ids@ =~= device_ids(olds.take(i + 1)));
            i = i + 1;
        }
        assert(olds.take(i as int) =~= olds);
        (dev_ids, all_mib_ids)
}

/// Whether the new identifiers of one space fit in `u32`.
fn ids_fit_exec(ids: &Vec<u32>) -> (r: bool)
    ensures
        r == ids_fit(ids@),
{
    let mut max: u64 = 0;
    let mut zeros: u64 = 0;
    let mut i: usize = 0;
    while i < ids.len()
        invariant
            0 <= i <= ids.len(),
            max == seq_max(ids@.take(i as int)),
            zeros == count_zeros(ids@.take(i as int)),
            zeros <= i,
        decreases ids.len() - i,
    {
        assert(ids@.take(i + 1).drop_last() =~= ids@.take(i as int));
        proof {
            lemma_seq_max_bound(ids@.take(i as int));
        }
        if ids[i] as u64 > max {
            max = ids[i] as u64;
        }
        if ids[i] == 0 {
            zeros = zeros + 1;
        }
        i = i + 1;
    }
    assert(ids@.take(i as int) =~= ids@);
    proof {
        lemma_seq_max_bound(ids@);
    }
    zeros <= 0xffff_ffff - max
}

/// The new identifiers of one space: a verified pass over its current ones.
pub fn assign_ids_exec(ids: &Vec<u32>) -> (r: Vec<u32>)
    requires
        ids_fit(ids@),
    ensures
        r@ == assign_ids(ids@),
{
    let mut max: u32 = 0;
    let mut i: usize = 0;
    while i < ids.len()
        invariant
            0 <= i <= ids.len(),
            max == seq_max(ids@.take(i as int)),
        decreases ids.len() - i,
    {
        assert(ids@.take(i + 1).drop_last() =~= ids@.take(i as int));
        if ids[i] > max {
            max = ids[i];
        }
        i = i + 1;
    }
    assert(ids@.take(i as int) =~= ids@);
    let mut next: u32 = max;
    let mut r: Vec<u32> = Vec::new();
    let mut k: usize = 0;
    while k < ids.len()
        invariant
            0 <= k <= ids.len(),
            max == seq_max(ids@),
            ids_fit(ids@),
            next == max + count_zeros(ids@.take(k as int)),
            r@.len() == k,
            forall|m: int| 0 <= m < k ==> r@[m] == assign_ids(ids@)[m],
        decreases ids.len() - k,
    {
        assert(ids@.take(k + 1).drop_last() =~= ids@.take(k as int));
        proof {
            lemma_count_zeros_prefix(ids@, k + 1);
        }
        if ids[k] == 0 {
            next = next + 1;
            r.push(next);
        } else {
            r.push(ids[k]);
        }
        k = k + 1;
    }
    assert(r@ =~= assign_ids(ids@));
    r
}


impl Config {
    /// An empty registry, polled every `DEFAULT_LOOP_TIME` seconds.
    pub fn new() -> (r: Self)
        ensures
            r.devices@.len() == 0,
            r.loop_time == DEFAULT_LOOP_TIME,
    {
        Config { devices: Vec::new(), loop_time: DEFAULT_LOOP_TIME }
    }

    /// Whether `make_id` can number this registry: the new identifiers of
    /// each space fit in `u32`.
    pub fn can_make_id(&self) -> (r: bool)
        ensures
            r == (ids_fit(device_ids(self.devices@)) && ids_fit(mib_ids(self.devices@))),
    {
        let (dev_ids, all_mib_ids) = collect_ids(&self.devices);
        ids_fit_exec(&dev_ids) && ids_fit_exec(&all_mib_ids)
    }

    /// Replaces the registry by one example: the local agent with community
    /// `public`, polled for its uptime, each given identifier 1.
    pub fn example_config(&mut self)
        ensures
            final(self).loop_time == old(self).loop_time,
            final(self).devices@.len() == 1,
            final(self).devices@[0].id == 1,
            final(self).devices@[0].ip@ == "127.0.0.1"@,
            final(self).devices@[0].community@ == "public"@,
            final(self).devices@[0].mibs@.len() == 1,
            final(self).devices@[0].mibs@[0].name@ == "Uptime"@,
            final(self).devices@[0].mibs@[0].units@ == "seconds"@,
            final(self).devices@[0].mibs@[0].id == 1,
            final(self).devices@[0].mibs@[0].oid@ == seq![1u32, 3, 6, 1, 2, 1, 1, 3],
            final(self).devices@[0].mibs@[0].devision == 1,
    {
        let mib = Mib {
            id: 0,
            name: "Uptime".to_owned(),
            units: "seconds".to_owned(),
            oid: vec![1, 3, 6, 1, 2, 1, 1, 3],
            devision: 1,
        };
        let mut mibs: Vec<Mib> = Vec::new();
        mibs.push(mib);
        let device = Device {
            id: 0,
            ip: "127.0.0.1".to_owned(),
            community: "public".to_owned(),
            mibs,
        };
        let mut devices: Vec<Device> = Vec::new();
        devices.push(device);
        proof {
            reveal_strlit("127.0.0.1");
            reveal_strlit("public");
            reveal_strlit("Uptime");
            reveal_strlit("seconds");
        }
        self.devices = devices;
        let ghost before = self.devices@;
        assert(device_ids(before) =~= seq![0u32]);
        assert(before.drop_last() =~= Seq::<Device>::empty());
        assert(own_mib_ids(before[0]) =~= seq![0u32]);
        assert(mib_ids(before.drop_last()) =~= Seq::<u32>::empty());
        assert(seq_max(Seq::<u32>::empty()) == 0);
        assert(count_zeros(Seq::<u32>::empty()) == 0);
        assert(mib_ids(before) =~= seq![0u32]);
        assert(seq![0u32].drop_last() =~= Seq::<u32>::empty());
        assert(seq![0u32].take(0) =~= Seq::<u32>::empty());
        assert(seq_max(seq![0u32]) == 0);
        assert(count_zeros(seq![0u32]) == 1);
        self.make_id();
        assert(device_ids(self.devices@)[0] == assign_ids(seq![0u32])[0]);
        assert(mib_ids(self.devices@) =~= own_mib_ids(self.devices@[0])) by {
            assert(self.devices@.drop_last() =~= Seq::<Device>::empty());
            assert(mib_ids(self.devices@.drop_last()) =~= Seq::<u32>::empty());
        }
        assert(mib_ids(self.devices@)[0] == assign_ids(seq![0u32])[0]);
    }

    /// Gives an identifier to every device and every parameter that has none.
    /// Devices and parameters are numbered apart; identifiers already given are
    /// kept, and new ones continue after the largest one of their space.
    pub fn make_id(&mut self)
        requires
            ids_fit(device_ids(old(self).devices@)),
            ids_fit(mib_ids(old(self).devices@)),
        ensures
            final(self).loop_time == old(self).loop_time,
            final(self).devices@.len() == old(self).devices@.len(),
            forall|i: int|
                0 <= i < old(self).devices@.len() ==> same_device_but_ids(
                    #[trigger] final(self).devices@[i],
                    old(self).devices@[i],
                ),
            device_ids(final(self).devices@) == assign_ids(device_ids(old(self).devices@)),
            mib_ids(final(self).devices@) == assign_ids(mib_ids(old(self).devices@)),
            forall|i: int|
                0 <= i < final(self).devices@.len() ==> (#[trigger] final(self).devices@[i]).id != 0,
            forall|p: int|
                0 <= p < mib_ids(final(self).devices@).len() ==> #[trigger] mib_ids(
                    final(self).devices@,
                )[p] != 0,
            forall|i: int|
                0 <= i < old(self).devices@.len() ==> ids_kept(
                    #[trigger] final(self).devices@[i],
                    old(self).devices@[i],
                ),
    {
        let ghost olds = self.devices@;
        let (dev_ids, all_mib_ids) = collect_ids(&self.devices);
        let new_dev = assign_ids_exec(&dev_ids);
        let new_mib = assign_ids_exec(&all_mib_ids);
        let mib_total = new_mib.len();
        let mut i: usize = 0;
        let mut pos: usize = 0;
        while i < self.devices.len()
            invariant
                self.loop_time == old(self).loop_time,
                self.devices@.len() == olds.len(),
                0 <= i <= olds.len(),
                new_dev@ == assign_ids(device_ids(olds)),
                new_mib@ == assign_ids(mib_ids(olds)),
                new_dev@.len() == olds.len(),
                new_mib@.len() == mib_ids(olds).len(),
                new_mib@.len() == mib_total,
                ids_fit(device_ids(olds)),
                ids_fit(mib_ids(olds)),
                pos == mib_ids(olds.take(i as int)).len(),
                forall|k: int| i <= k < olds.len() ==> self.devices@[k] == olds[k],
                forall|k: int|
                    0 <= k < olds.len() ==> same_device_but_ids(
                        #[trigger] self.devices@[k],
                        olds[k],
                    ),
                device_ids(self.devices@.take(i as int)) == new_dev@.take(i as int),
                mib_ids(self.devices@.take(i as int)) == new_mib@.take(pos as int),
                forall|k: int| 0 <= k < i ==> ids_kept(#[trigger] self.devices@[k], olds[k]),
            decreases olds.len() - i,
        {
            proof {
                lemma_mib_ids_prefix_len(olds, i + 1);
                assert(olds.take(i + 1).drop_last() =~= olds.take(i as int));
            }
            let ghost prefix = self.devices@.take(i as int);
            assert(device_ids(olds)[i as int] == olds[i as int].id);
            self.devices[i].id = new_dev[i];
            proof {
                lemma_assign_keeps_and_fills(device_ids(olds));
            }
            assert(new_dev@[i as int] == assign_ids(device_ids(olds))[i as int]);
            assert(self.devices@.take(i as int) =~= prefix);
            assert forall|k: int| 0 <= k < i implies ids_kept(#[trigger] self.devices@[k], olds[k]) by {
                assert(self.devices@[k] == prefix[k]);
            }
            let ghost start = pos;
            let mut j: usize = 0;
            while j < self.devices[i].mibs.len()
                invariant
                    self.loop_time == old(self).loop_time,
                    self.devices@.len() == olds.len(),
                    0 <= i < olds.len(),
                    new_mib@ == assign_ids(mib_ids(olds)),
                    new_dev@.len() == olds.len(),
                    new_mib@.len() == mib_total,
                    start + olds[i as int].mibs@.len() <= new_mib@.len(),
                    pos == start + j,
                    0 <= j <= olds[i as int].mibs@.len(),
                    forall|k: int| i < k < olds.len() ==> self.devices@[k] == olds[k],
                    forall|k: int|
                        0 <= k < olds.len() ==> same_device_but_ids(
                            #[trigger] self.devices@[k],
                            olds[k],
                        ),
                    self.devices@.take(i as int) == prefix,
                    self.devices@[i as int].id == new_dev@[i as int],
                    forall|m: int|
                        0 <= m < j ==> self.devices@[i as int].mibs@[m].id == new_mib@[start
                            + m],
                    start == mib_ids(olds.take(i as int)).len(),
                    ids_fit(mib_ids(olds)),
                    new_mib@.len() == mib_ids(olds).len(),
                    self.devices@[i as int].id != 0,
                    olds[i as int].id != 0 ==> self.devices@[i as int].id == olds[i as int].id,
                    forall|k: int| 0 <= k < i ==> ids_kept(#[trigger] self.devices@[k], olds[k]),
                    forall|m: int|
                        0 <= m < j ==> (#[trigger] self.devices@[i as int].mibs@[m]).id != 0 && (
                        olds[i as int].mibs@[m].id != 0 ==> self.devices@[i as int].mibs@[m].id
                            == olds[i as int].mibs@[m].id),
                decreases olds[i as int].mibs@.len() - j,
            {
                let ghost before = self.devices@;
                proof {
                    lemma_assign_keeps_and_fills(mib_ids(olds));
                    lemma_mib_ids_index(olds, i as int, j as int);
                    assert(new_mib@[pos as int] == assign_ids(mib_ids(olds))[pos as int]);
                }
                self.devices[i].mibs[j].id = new_mib[pos];
                assert(self.devices@.take(i as int) =~= before.take(i as int));
                assert forall|k: int| 0 <= k < i implies ids_kept(#[trigger] self.devices@[k], olds[k]) by {
                    assert(self.devices@[k] == before[k]);
                }
                assert forall|m: int| 0 <= m < j + 1 implies (#[trigger] self.devices@[i as int].mibs@[m]).id != 0 && (
                    olds[i as int].mibs@[m].id != 0 ==> self.devices@[i as int].mibs@[m].id
                        == olds[i as int].mibs@[m].id) by {
                    if m < j {
                        assert(self.devices@[i as int].mibs@[m] == before[i as int].mibs@[m]);
                    }
                }
                assert(same_device_but_ids(self.devices@[i as int], olds[i as int]));
                j = j + 1;
                pos = pos + 1;
            }
            assert(own_mib_ids(self.devices@[i as int]) =~= new_mib@.subrange(
                start as int,
                pos as int,
            ));
            assert(self.devices@.take(i + 1).drop_last() =~= self.devices@.take(i as int));
            assert(mib_ids(self.devices@.take(i + 1)) =~= new_mib@.take(pos as int));
            assert(ids_kept(self.devices@[i as int], olds[i as int]));
            assert(device_ids(self.devices@.take(i + 1)) =~= new_dev@.take(i + 1)) by {
                assert forall|m: int| 0 <= m < i implies device_ids(self.devices@.take(i + 1))[m]
                    == new_dev@[m] by {
                    assert(device_ids(prefix)[m] == new_dev@.take(i as int)[m]);
                }
            }
            i = i + 1;
        }
        assert(self.devices@.take(i as int) =~= self.devices@);
        assert(device_ids(self.devices@) =~= new_dev@.take(i as int));
        assert(new_dev@.take(i as int) =~= new_dev@);
        assert(olds.take(i as int) =~= olds);
        assert(new_mib@.take(pos as int) =~= new_mib@);
        proof {
            lemma_assign_keeps_and_fills(device_ids(olds));
            lemma_assign_keeps_and_fills(mib_ids(olds));
            assert forall|k: int| 0 <= k < self.devices@.len() implies (
            #[trigger] self.devices@[k]).id != 0 by {
                assert(device_ids(self.devices@)[k] == self.devices@[k].id);
            }
        }
    }
}

} // verus!
