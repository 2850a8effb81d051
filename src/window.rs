//! The window store: every series of the dashboard, advanced one merge at a
//! time.
use vstd::prelude::*;
use crate::sample::{
    idle_view, kib_milli, kib_milli_of, lemma_ratio_bounds, ratio, ratio_of, SampleView,
    UtilBundle, MILLI,
};
use crate::series::{
    advanced_by_one, keep_newest, lemma_keep_newest_advances, lemma_keep_newest_bounded,
    lemma_len_within_cap, Series,
};

verus! {

/// The number of points each series keeps by default.
pub const MAX_UTIL_WINDOW_N: usize = 60;

/// The history of core `i` in `prior`; a core not tracked yet has none.
pub open spec fn history(prior: Seq<Seq<u64>>, i: int) -> Seq<u64> {
    if i < prior.len() {
        prior[i]
    } else {
        Seq::<u64>::empty()
    }
}

/// The history of core `i` after a merge: a core that the sample reports gets
/// its value appended (a new core starts with no history); a core that it does
/// not report is left as it was.
pub open spec fn merged_core(prior: Seq<Seq<u64>>, usage: Seq<u64>, i: int, window: nat) -> Seq<
    u64,
> {
    if i < usage.len() {
        keep_newest(history(prior, i).push(usage[i]), window)
    } else {
        history(prior, i)
    }
}

/// The values of each series in `cores`, oldest first.
pub open spec fn values_of(cores: Seq<Series>) -> Seq<Seq<u64>> {
    cores.map_values(|s: Series| s.values())
}

/// The larger of two lengths.
pub open spec fn max_len(a: nat, b: nat) -> nat {
    if a >= b {
        a
    } else {
        b
    }
}

/// All the series of the dashboard: one per CPU core (created when a sample
/// first reports the core, never removed), network transmit and receive in
/// thousandths of a KiB, the GPU power ratio and the memory ratio in
/// thousandths, and the latest GPU power limit and memory total.
pub struct App {
    cpu_util: Vec<Series>,
    network_tx: Series,
    network_rx: Series,
    gpu_power_ratio: Series,
    gpu_power_limit: u64,
    mem_util: Series,
    mem_total_bytes: u64,
    window: usize,
}

impl App {
    /// The number of points each series keeps.
    pub closed spec fn window_len(&self) -> nat {
        self.window as nat
    }

    /// The values of each core's series, oldest first.
    pub closed spec fn cores(&self) -> Seq<Seq<u64>> {
        values_of(self.cpu_util@)
    }

    /// Transmitted data per merge, in thousandths of a KiB.
    pub closed spec fn tx(&self) -> Seq<u64> {
        self.network_tx.values()
    }

    /// Received data per merge, in thousandths of a KiB.
    pub closed spec fn rx(&self) -> Seq<u64> {
        self.network_rx.values()
    }

    /// GPU power draw over its limit per merge, in thousandths.
    pub closed spec fn gpu(&self) -> Seq<u64> {
        self.gpu_power_ratio.values()
    }

    /// Memory used over memory total per merge, in thousandths.
    pub closed spec fn mem(&self) -> Seq<u64> {
        self.mem_util.values()
    }

    /// The GPU power limit of the latest merge, in milliwatts.
    pub closed spec fn gpu_limit(&self) -> u64 {
        self.gpu_power_limit
    }

    /// The memory total of the latest merge, in bytes.
    pub closed spec fn mem_total(&self) -> u64 {
        self.mem_total_bytes
    }

    /// Every series is well formed and keeps `window_len()` points.
    pub closed spec fn wf(&self) -> bool {
        &&& self.network_tx.wf() && self.network_tx.cap() == self.window
        &&& self.network_rx.wf() && self.network_rx.cap() == self.window
        &&& self.gpu_power_ratio.wf() && self.gpu_power_ratio.cap() == self.window
        &&& self.mem_util.wf() && self.mem_util.cap() == self.window
        &&& forall|i: int| 0 <= i < self.gpu().len() ==> #[trigger] self.gpu()[i] <= MILLI
        &&& forall|i: int| 0 <= i < self.mem().len() ==> #[trigger] self.mem()[i] <= MILLI
        &&& forall|i: int|
            #![trigger self.cpu_util@[i]]
            0 <= i < self.cpu_util@.len() ==> self.cpu_util@[i].wf() && self.cpu_util@[i].cap()
                == self.window
    }

    /// `self` is what merging the sample `s` into `prior` gives.
    pub open spec fn merged(&self, prior: &App, s: SampleView) -> bool {
        let w = prior.window_len();
        &&& self.window_len() == w
        &&& self.cores().len() == max_len(prior.cores().len(), s.cpu_usage.len())
        &&& forall|i: int|
            0 <= i < self.cores().len() ==> #[trigger] self.cores()[i] == merged_core(
                prior.cores(),
                s.cpu_usage,
                i,
                w,
            )
        &&& self.tx() == keep_newest(prior.tx().push(kib_milli_of(s.data_tx as nat) as u64), w)
        &&& self.rx() == keep_newest(prior.rx().push(kib_milli_of(s.data_rx as nat) as u64), w)
        &&& self.gpu() == keep_newest(
            prior.gpu().push(ratio_of(s.gpu_power as nat, s.gpu_power_limit as nat) as u64),
            w,
        )
        &&& self.gpu_limit() == s.gpu_power_limit
        &&& self.mem() == keep_newest(
            prior.mem().push(ratio_of(s.mem_used as nat, s.mem_total as nat) as u64),
            w,
        )
        &&& self.mem_total() == s.mem_total
    }

    /// An empty store whose series keep the default number of points.
    pub fn new() -> (r: App)
        ensures
            r.wf(),
            r.window_len() == MAX_UTIL_WINDOW_N,
            r.cores().len() == 0,
            r.tx().len() == 0,
            r.rx().len() == 0,
            r.gpu().len() == 0,
            r.mem().len() == 0,
            r.gpu_limit() == 0,
            r.mem_total() == 0,
    {
        App::with_window(MAX_UTIL_WINDOW_N)
    }

    /// An empty store whose series keep at most `window` points.
    pub fn with_window(window: usize) -> (r: App)
        ensures
            r.wf(),
            r.window_len() == window,
            r.cores().len() == 0,
            r.tx().len() == 0,
            r.rx().len() == 0,
            r.gpu().len() == 0,
            r.mem().len() == 0,
            r.gpu_limit() == 0,
            r.mem_total() == 0,
    {
        let r = App {
            cpu_util: Vec::new(),
            network_tx: Series::new(window),
            network_rx: Series::new(window),
            gpu_power_ratio: Series::new(window),
            gpu_power_limit: 0,
            mem_util: Series::new(window),
            mem_total_bytes: 0,
            window,
        };
        proof {
            assert(r.cores() =~= Seq::<Seq<u64>>::empty());
        }
        r
    }

    /// Merges one sample into every series: each core the sample reports gets
    /// its usage (series for newly reported cores are created empty first),
    /// and the network, GPU-ratio and memory-ratio series get one point each.
    /// Every series that grows past the window drops its oldest point, and
    /// every age is recomputed from its position.
    pub fn on_tick(&mut self, datapoint: UtilBundle)
        requires
            old(self).wf(),
        ensures
            final(self).wf(),
            final(self).merged(old(self), datapoint@),
    {
        let window = self.window;
        proof {
            lemma_ratio_bounds(datapoint.gpu_power as nat, datapoint.gpu_power_limit as nat);
            lemma_ratio_bounds(datapoint.mem_used as nat, datapoint.mem_total as nat);
            lemma_keep_newest_bounded(
                self.gpu(),
                ratio_of(datapoint.gpu_power as nat, datapoint.gpu_power_limit as nat) as u64,
                window as nat,
                MILLI,
            );
            lemma_keep_newest_bounded(
                self.mem(),
                ratio_of(datapoint.mem_used as nat, datapoint.mem_total as nat) as u64,
                window as nat,
                MILLI,
            );
        }
        merge_cores(&mut self.cpu_util, &datapoint.cpu_usage, window);
        self.network_tx.push(kib_milli(datapoint.data_tx));
        self.network_rx.push(kib_milli(datapoint.data_rx));
        self.gpu_power_ratio.push(ratio(datapoint.gpu_power, datapoint.gpu_power_limit));
        self.gpu_power_limit = datapoint.gpu_power_limit;
        self.mem_util.push(ratio(datapoint.mem_used, datapoint.mem_total));
        self.mem_total_bytes = datapoint.mem_total;
        proof {
            assert forall|i: int| 0 <= i < self.cores().len() implies #[trigger] self.cores()[i]
                == merged_core(old(self).cores(), datapoint@.cpu_usage, i, window as nat) by {
                assert(self.cpu_util@[i].values() == self.cores()[i]);
            }
        }
    }

    /// One tick of the driver: merges the sample that arrived, or, when none
    /// arrived within the tick, an all-zero sample that reports every tracked
    /// core, so that every series still advances by one point.
    pub fn tick(&mut self, received: Option<UtilBundle>)
        requires
            old(self).wf(),
        ensures
            final(self).wf(),
            received is Some ==> final(self).merged(old(self), received->Some_0@),
            received is None ==> final(self).merged(old(self), idle_view(old(self).cores().len())),
    {
        match received {
            Some(sample) => self.on_tick(sample),
            None => {
                let idle = UtilBundle::idle(self.cpu_util.len());
                self.on_tick(idle);
            },
        }
    }
}

impl App {
    /// The number of points each series keeps.
    pub fn window(&self) -> (r: usize)
        ensures
            r == self.window_len(),
    {
        self.window
    }

    /// One series per tracked core, by core index.
    pub fn cpu_util(&self) -> (r: &Vec<Series>)
        requires
            self.wf(),
        ensures
            values_of(r@) == self.cores(),
            forall|i: int| 0 <= i < r@.len() ==> (#[trigger] r@[i]).wf(),
    {
        &self.cpu_util
    }

    /// Transmitted data, in thousandths of a KiB.
    pub fn network_tx(&self) -> (r: &Series)
        requires
            self.wf(),
        ensures
            r.wf(),
            r.values() == self.tx(),
    {
        &self.network_tx
    }

    /// Received data, in thousandths of a KiB.
    pub fn network_rx(&self) -> (r: &Series)
        requires
            self.wf(),
        ensures
            r.wf(),
            r.values() == self.rx(),
    {
        &self.network_rx
    }

    /// GPU power draw over its limit, in thousandths.
    pub fn gpu_power_ratio(&self) -> (r: &Series)
        requires
            self.wf(),
        ensures
            r.wf(),
            r.values() == self.gpu(),
    {
        &self.gpu_power_ratio
    }

    /// Memory used over memory total, in thousandths.
    pub fn mem_util(&self) -> (r: &Series)
        requires
            self.wf(),
        ensures
            r.wf(),
            r.values() == self.mem(),
    {
        &self.mem_util
    }

    /// The GPU power limit of the latest merge, in milliwatts.
    pub fn gpu_power_limit(&self) -> (r: u64)
        ensures
            r == self.gpu_limit(),
    {
        self.gpu_power_limit
    }

    /// The memory total of the latest merge, in bytes.
    pub fn mem_total_bytes(&self) -> (r: u64)
        ensures
            r == self.mem_total(),
    {
        self.mem_total_bytes
    }
}

/// Appends each reported usage to its core's series, first creating empty
/// series for cores not tracked yet.
fn merge_cores(cores: &mut Vec<Series>, usage: &Vec<u64>, window: usize)
    requires
        forall|i: int|
            #![trigger old(cores)@[i]]
            0 <= i < old(cores)@.len() ==> old(cores)@[i].wf() && old(cores)@[i].cap() == window,
    ensures
        final(cores)@.len() == max_len(old(cores)@.len(), usage@.len()),
        forall|i: int|
            #![trigger final(cores)@[i]]
            0 <= i < final(cores)@.len() ==> {
                &&& final(cores)@[i].wf()
                &&& final(cores)@[i].cap() == window
                &&& final(cores)@[i].values() == merged_core(
                    values_of(old(cores)@),
                    usage@,
                    i,
                    window as nat,
                )
            },
{
    let ghost prior = values_of(old(cores)@);
    let n = usage.len();
    while cores.len() < n
        invariant
            old(cores)@.len() <= cores@.len() <= max_len(old(cores)@.len(), n as nat),
            prior == values_of(old(cores)@),
            forall|i: int|
                #![trigger cores@[i]]
                0 <= i < cores@.len() ==> cores@[i].wf() && cores@[i].cap() == window
                    && cores@[i].values() == history(prior, i),
        decreases n - cores@.len(),
    {
        cores.push(Series::new(window));
    }
    let mut i: usize = 0;
    while i < n
        invariant
            n == usage@.len(),
            i <= n <= cores@.len(),
            cores@.len() == max_len(old(cores)@.len(), n as nat),
            prior == values_of(old(cores)@),
            forall|j: int|
                #![trigger cores@[j]]
                0 <= j < cores@.len() ==> cores@[j].wf() && cores@[j].cap() == window,
            forall|j: int|
                #![trigger cores@[j]]
                0 <= j < i ==> cores@[j].values() == merged_core(prior, usage@, j, window as nat),
            forall|j: int|
                #![trigger cores@[j]]
                i <= j < cores@.len() ==> cores@[j].values() == history(prior, j),
        decreases n - i,
    {
        cores[i].push(usage[i]);
        i = i + 1;
    }
}

/// After any sequence of merges no series holds more points than the window.
pub proof fn lemma_window_bound(app: &App)
    requires
        app.wf(),
    ensures
        forall|i: int| 0 <= i < app.cores().len() ==> #[trigger] app.cores()[i].len() <= app.window_len(),
        app.tx().len() <= app.window_len(),
        app.rx().len() <= app.window_len(),
        app.gpu().len() <= app.window_len(),
        app.mem().len() <= app.window_len(),
{
    assert forall|i: int| 0 <= i < app.cores().len() implies #[trigger] app.cores()[i].len()
        <= app.window_len() by {
        lemma_len_within_cap(&app.cpu_util@[i]);
    }
    lemma_len_within_cap(&app.network_tx);
    lemma_len_within_cap(&app.network_rx);
    lemma_len_within_cap(&app.gpu_power_ratio);
    lemma_len_within_cap(&app.mem_util);
}

/// A merge of the all-zero sample that a tick makes when nothing arrived adds
/// no core and advances every series by exactly one step, with 0 as the
/// newest value.
pub proof fn lemma_starvation_advances_every_series(prior: &App, after: &App)
    requires
        prior.wf(),
        after.merged(prior, idle_view(prior.cores().len())),
    ensures
        after.cores().len() == prior.cores().len(),
        forall|i: int|
            0 <= i < prior.cores().len() ==> advanced_by_one(
                #[trigger] prior.cores()[i],
                after.cores()[i],
                0,
                prior.window_len(),
            ),
        advanced_by_one(prior.tx(), after.tx(), 0, prior.window_len()),
        advanced_by_one(prior.rx(), after.rx(), 0, prior.window_len()),
        advanced_by_one(prior.gpu(), after.gpu(), 0, prior.window_len()),
        advanced_by_one(prior.mem(), after.mem(), 0, prior.window_len()),
{
    let w = prior.window_len();
    lemma_window_bound(prior);
    assert forall|i: int| 0 <= i < prior.cores().len() implies advanced_by_one(
        #[trigger] prior.cores()[i],
        after.cores()[i],
        0,
        w,
    ) by {
        assert(after.cores()[i] == merged_core(prior.cores(), idle_view(prior.cores().len()).cpu_usage, i, w));
        lemma_keep_newest_advances(prior.cores()[i], 0, w);
    }
    assert(kib_milli_of(0) == 0);
    assert(ratio_of(0, 0) == 0);
    lemma_keep_newest_advances(prior.tx(), 0, w);
    lemma_keep_newest_advances(prior.rx(), 0, w);
    lemma_keep_newest_advances(prior.gpu(), 0, w);
    lemma_keep_newest_advances(prior.mem(), 0, w);
}

/// However many merges came before, every GPU and memory ratio in the store
/// lies in `[0, 1]` (at most `MILLI` thousandths).
pub proof fn lemma_ratios_bounded(app: &App)
    requires
        app.wf(),
    ensures
        forall|i: int| 0 <= i < app.gpu().len() ==> #[trigger] app.gpu()[i] <= MILLI,
        forall|i: int| 0 <= i < app.mem().len() ==> #[trigger] app.mem()[i] <= MILLI,
{
}

} // verus!
