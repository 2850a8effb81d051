//! One decoded telemetry snapshot, and the fixed-point conversions applied to
//! it when it is merged.
use vstd::prelude::*;

verus! {

/// The fixed-point scale: a stored value of `MILLI` is one whole unit.
pub const MILLI: u64 = 1000;

/// Bytes in a kibibyte.
pub const KIB: u64 = 1024;

/// Bytes in a gibibyte.
pub const GIB: u64 = 1073741824;

/// `part / whole` clamped into `[0, 1]`, in thousandths; 0 when `whole` is 0.
pub open spec fn ratio_of(part: nat, whole: nat) -> nat {
    if whole == 0 {
        0
    } else if part >= whole {
        MILLI as nat
    } else {
        part * (MILLI as nat) / whole
    }
}

/// Every ratio lies in `[0, 1]`, and an unknown (zero) total gives exactly 0.
pub proof fn lemma_ratio_bounds(part: nat, whole: nat)
    ensures
        ratio_of(part, whole) <= MILLI,
        whole == 0 ==> ratio_of(part, whole) == 0,
{
    if whole > 0 && part < whole {
        assert(part * 1000 / whole < 1000) by (nonlinear_arith)
            requires
                part < whole,
                whole > 0,
        ;
    }
}

/// A byte count expressed in thousandths of a kibibyte (rounded down).
pub open spec fn kib_milli_of(bytes: nat) -> nat {
    bytes * (MILLI as nat) / (KIB as nat)
}

/// `part / whole` clamped into `[0, 1]`, in thousandths. A zero `whole`
/// means the total is unknown and gives 0; no division by zero is made.
pub fn ratio(part: u64, whole: u64) -> (r: u64)
    ensures
        r == ratio_of(part as nat, whole as nat),
        r <= MILLI,
        whole == 0 ==> r == 0,
{
    if whole == 0 {
        0
    } else if part >= whole {
        MILLI
    } else {
        let scaled: u128 = (part as u128) * 1000;
        let q: u128 = scaled / (whole as u128);
        proof {
            assert(scaled < (whole as int) * 1000) by (nonlinear_arith)
                requires
                    part < whole,
                    scaled == (part as int) * 1000,
            ;
            assert(q < 1000) by (nonlinear_arith)
                requires
                    scaled < (whole as int) * 1000,
                    whole > 0,
                    q == scaled as int / whole as int,
            ;
        }
        q as u64
    }
}

/// A byte count in thousandths of a kibibyte (rounded down).
pub fn kib_milli(bytes: u64) -> (r: u64)
    ensures
        r == kib_milli_of(bytes as nat),
{
    let scaled: u128 = (bytes as u128) * 1000;
    let q: u128 = scaled / 1024;
    proof {
        assert(q <= bytes) by (nonlinear_arith)
            requires
                scaled == (bytes as int) * 1000,
                q == scaled as int / 1024,
        ;
    }
    q as u64
}

/// A byte count in whole gibibytes (rounded down).
pub fn whole_gib(bytes: u64) -> (r: u64)
    ensures
        r == bytes / GIB,
{
    bytes / GIB
}

/// The values of a [`UtilBundle`] as mathematical objects.
pub struct SampleView {
    pub cpu_usage: Seq<u64>,
    pub cpu_temp: i64,
    pub gpu_power: u64,
    pub gpu_power_limit: u64,
    pub mem_used: u64,
    pub mem_total: u64,
    pub disk_used: u64,
    pub disk_total: u64,
    pub data_tx: u64,
    pub data_rx: u64,
}

/// The all-zero sample that reports `cores` cores.
pub open spec fn idle_view(cores: nat) -> SampleView {
    SampleView {
        cpu_usage: Seq::new(cores, |i: int| 0u64),
        cpu_temp: 0,
        gpu_power: 0,
        gpu_power_limit: 0,
        mem_used: 0,
        mem_total: 0,
        disk_used: 0,
        disk_total: 0,
        data_tx: 0,
        data_rx: 0,
    }
}

/// One utilisation snapshot of a machine.
///
/// Fixed-point fields are in thousandths of the unit named: `cpu_usage` holds
/// one value per core in thousandths of a percent, `cpu_temp` is in
/// thousandths of a degree Celsius, `gpu_power` and `gpu_power_limit` are in
/// milliwatts. The other fields are byte counts. A zero `gpu_power_limit` or
/// `mem_total` means that the total is unknown.
#[derive(Debug)]
pub struct UtilBundle {
    pub cpu_usage: Vec<u64>,
    pub cpu_temp: i64,
    pub gpu_power: u64,
    pub gpu_power_limit: u64,
    pub mem_used: u64,
    pub mem_total: u64,
    pub disk_used: u64,
    pub disk_total: u64,
    pub data_tx: u64,
    pub data_rx: u64,
}

impl View for UtilBundle {
    type V = SampleView;

    open spec fn view(&self) -> SampleView {
        SampleView {
            cpu_usage: self.cpu_usage@,
            cpu_temp: self.cpu_temp,
            gpu_power: self.gpu_power,
            gpu_power_limit: self.gpu_power_limit,
            mem_used: self.mem_used,
            mem_total: self.mem_total,
            disk_used: self.disk_used,
            disk_total: self.disk_total,
            data_tx: self.data_tx,
            data_rx: self.data_rx,
        }
    }
}

impl UtilBundle {
    /// The empty sample: no cores, every other field zero.
    pub fn new() -> (r: UtilBundle)
        ensures
            r@ == idle_view(0),
    {
        let r = UtilBundle {
            cpu_usage: Vec::new(),
            cpu_temp: 0,
            gpu_power: 0,
            gpu_power_limit: 0,
            mem_used: 0,
            mem_total: 0,
            disk_used: 0,
            disk_total: 0,
            data_tx: 0,
            data_rx: 0,
        };
        proof {
            assert(r@.cpu_usage =~= idle_view(0).cpu_usage);
        }
        r
    }

    /// The all-zero sample that reports `cores` cores, each at zero usage.
    pub fn idle(cores: usize) -> (r: UtilBundle)
        ensures
            r@ == idle_view(cores as nat),
    {
        let mut r = UtilBundle::new();
        let mut i: usize = 0;
        while i < cores
            invariant
                i <= cores,
                r@ == (SampleView { cpu_usage: Seq::new(i as nat, |k: int| 0u64), ..idle_view(0) }),
            decreases cores - i,
        {
            r.cpu_usage.push(0);
            i = i + 1;
            proof {
                assert(r.cpu_usage@ =~= Seq::new(i as nat, |k: int| 0u64));
            }
        }
        proof {
            assert(r@.cpu_usage =~= idle_view(cores as nat).cpu_usage);
        }
        r
    }
}

/// GPU power figures as reported by the driver, in milliwatts.
#[derive(Clone, Copy, Debug)]
pub struct NvidiaBundle {
    pub gpu_power_draw: u64,
    pub gpu_power_limit: u64,
}

/// `n`, or `u64::MAX` when it does not fit.
pub open spec fn capped(n: nat) -> u64 {
    if n > u64::MAX {
        u64::MAX
    } else {
        n as u64
    }
}

/// The sum of the first members of `pairs`.
pub open spec fn sum_first(pairs: Seq<(u64, u64)>) -> nat
    decreases pairs.len(),
{
    if pairs.len() == 0 {
        0
    } else {
        sum_first(pairs.drop_last()) + pairs.last().0 as nat
    }
}

/// The sum of the second members of `pairs`.
pub open spec fn sum_second(pairs: Seq<(u64, u64)>) -> nat
    decreases pairs.len(),
{
    if pairs.len() == 0 {
        0
    } else {
        sum_second(pairs.drop_last()) + pairs.last().1 as nat
    }
}

/// The sum, over `(total, available)` pairs, of the space in use: what is
/// not available, or nothing when more is available than the total.
pub open spec fn sum_used(disks: Seq<(u64, u64)>) -> nat
    decreases disks.len(),
{
    if disks.len() == 0 {
        0
    } else {
        sum_used(disks.drop_last()) + if disks.last().0 >= disks.last().1 {
            (disks.last().0 - disks.last().1) as nat
        } else {
            0
        }
    }
}

/// The totals of the pairs' first and second members, each capped at
/// `u64::MAX`.
fn sum_pairs(pairs: &Vec<(u64, u64)>) -> (r: (u64, u64))
    ensures
        r.0 == capped(sum_first(pairs@)),
        r.1 == capped(sum_second(pairs@)),
{
    let mut first: u64 = 0;
    let mut second: u64 = 0;
    let mut i: usize = 0;
    while i < pairs.len()
        invariant
            i <= pairs@.len(),
            first == capped(sum_first(pairs@.take(i as int))),
            second == capped(sum_second(pairs@.take(i as int))),
        decreases pairs@.len() - i,
    {
        let (a, b) = pairs[i];
        proof {
            assert(pairs@.take(i + 1).drop_last() =~= pairs@.take(i as int));
        }
        first = first.saturating_add(a);
        second = second.saturating_add(b);
        i = i + 1;
    }
    proof {
        assert(pairs@.take(i as int) =~= pairs@);
    }
    (first, second)
}

/// The space in use and the total space over `(total, available)` pairs,
/// each capped at `u64::MAX`.
fn disk_totals(disks: &Vec<(u64, u64)>) -> (r: (u64, u64))
    ensures
        r.0 == capped(sum_used(disks@)),
        r.1 == capped(sum_first(disks@)),
{
    let mut used: u64 = 0;
    let mut total: u64 = 0;
    let mut i: usize = 0;
    while i < disks.len()
        invariant
            i <= disks@.len(),
            used == capped(sum_used(disks@.take(i as int))),
            total == capped(sum_first(disks@.take(i as int))),
        decreases disks@.len() - i,
    {
        let (space, available) = disks[i];
        proof {
            assert(disks@.take(i + 1).drop_last() =~= disks@.take(i as int));
        }
        used = used.saturating_add(space.saturating_sub(available));
        total = total.saturating_add(space);
        i = i + 1;
    }
    proof {
        assert(disks@.take(i as int) =~= disks@);
    }
    (used, total)
}

impl UtilBundle {
    /// A sample assembled from one reading of a machine: the per-core usage
    /// and the mean temperature as given, the GPU figures when the driver
    /// reported them (zero otherwise), the memory figures as given, the disk
    /// space in use and in total over `(total, available)` pairs, and the data
    /// sent and received over `(transmitted, received)` pairs. Sums that do not
    /// fit are capped at `u64::MAX`.
    pub fn from_readings(
        cpu_usage: Vec<u64>,
        cpu_temp: i64,
        gpu: Option<NvidiaBundle>,
        mem_used: u64,
        mem_total: u64,
        disks: &Vec<(u64, u64)>,
        networks: &Vec<(u64, u64)>,
    ) -> (r: UtilBundle)
        ensures
            r.cpu_usage@ == cpu_usage@,
            r.cpu_temp == cpu_temp,
            r.gpu_power == match gpu {
                Some(g) => g.gpu_power_draw,
                None => 0,
            },
            r.gpu_power_limit == match gpu {
                Some(g) => g.gpu_power_limit,
                None => 0,
            },
            r.mem_used == mem_used,
            r.mem_total == mem_total,
            r.disk_used == capped(sum_used(disks@)),
            r.disk_total == capped(sum_first(disks@)),
            r.data_tx == capped(sum_first(networks@)),
            r.data_rx == capped(sum_second(networks@)),
    {
        let (gpu_power, gpu_power_limit) = match gpu {
            Some(g) => (g.gpu_power_draw, g.gpu_power_limit),
            None => (0, 0),
        };
        let (disk_used, disk_total) = disk_totals(disks);
        let (data_tx, data_rx) = sum_pairs(networks);
        UtilBundle {
            cpu_usage,
            cpu_temp,
            gpu_power,
            gpu_power_limit,
            mem_used,
            mem_total,
            disk_used,
            disk_total,
            data_tx,
            data_rx,
        }
    }
}

} // verus!
