//! Timing statistics, memory readings and system configuration.

use vstd::prelude::*;

use crate::object::string_eq;

verus! {

/// Sum of durations.
pub open spec fn sum_u64(s: Seq<u64>) -> int
    decreases s.len(),
{
    if s.len() == 0 {
        0
    } else {
        sum_u64(s.drop_last()) + s.last()
    }
}

/// Smallest duration of a non-empty sequence.
pub open spec fn min_u64(s: Seq<u64>) -> u64
    decreases s.len(),
{
    if s.len() <= 1 {
        s[0]
    } else if s.last() < min_u64(s.drop_last()) {
        s.last()
    } else {
        min_u64(s.drop_last())
    }
}

/// Largest duration of a non-empty sequence.
pub open spec fn max_u64(s: Seq<u64>) -> u64
    decreases s.len(),
{
    if s.len() <= 1 {
        s[0]
    } else if s.last() > max_u64(s.drop_last()) {
        s.last()
    } else {
        max_u64(s.drop_last())
    }
}

/// Count, mean, minimum and maximum of a series of durations, in
/// nanoseconds; all zero for an empty series.
#[derive(Debug, Clone, Copy, PartialEq, Eq, Structural)]
pub struct TimingStats {
    pub count: usize,
    pub average: u64,
    pub min: u64,
    pub max: u64,
}

/// A named stopwatch started at `start_ns`.
#[derive(Debug, Clone)]
pub struct Timer {
    pub name: String,
    pub start_ns: u64,
}

impl Timer {
    pub fn new(name: String, start_ns: u64) -> (r: Self)
        ensures
            r.name == name && r.start_ns == start_ns,
    {
        Timer { name, start_ns }
    }

    /// Nanoseconds from the start to `now_ns`; zero if `now_ns` is earlier.
    pub fn elapsed(&self, now_ns: u64) -> (r: u64)
        ensures
            r == if now_ns >= self.start_ns { (now_ns - self.start_ns) as u64 } else { 0u64 },
    {
        if now_ns >= self.start_ns { now_ns - self.start_ns } else { 0 }
    }
}

/// Series of durations by name.
pub struct PerformanceMonitor {
    timings: Vec<(String, Vec<u64>)>,
}

/// The series recorded under `name`, if any.
pub open spec fn series_of(ts: Seq<(String, Vec<u64>)>, name: Seq<char>) -> Option<Seq<u64>>
    decreases ts.len(),
{
    if ts.len() == 0 {
        None
    } else if ts[0].0@ == name {
        Some(ts[0].1@)
    } else {
        series_of(ts.drop_first(), name)
    }
}

impl PerformanceMonitor {
    pub closed spec fn timings(&self) -> Seq<(String, Vec<u64>)> {
        self.timings@
    }

    /// The durations recorded under `name`, if any.
    pub open spec fn series(&self, name: Seq<char>) -> Option<Seq<u64>> {
        series_of(self.timings(), name)
    }

    pub fn new() -> (r: Self)
        ensures
            forall|n: Seq<char>| r.series(n) is None,
    {
        PerformanceMonitor { timings: Vec::new() }
    }

    /// A timer named `name` started at `now_ns`.
    pub fn start_timer(&self, name: &str, now_ns: u64) -> (r: Timer)
        ensures
            r.name@ == name@ && r.start_ns == now_ns,
    {
        Timer::new(name.to_string(), now_ns)
    }

    fn position(&self, name: &str) -> (r: Option<usize>)
        ensures
            r matches Some(k) ==> k < self.timings@.len() && self.timings@[k as int].0@ == name@
                && series_of(self.timings@, name@) == Some(self.timings@[k as int].1@)
                && forall|j: int| 0 <= j < k ==> (#[trigger] self.timings@[j]).0@ != name@,
            r is None <==> series_of(self.timings@, name@) is None,
            r is None ==> forall|j: int| 0 <= j < self.timings@.len() ==> (#[trigger] self.timings@[j]).0@ != name@,
    {
        let n = self.timings.len();
        let mut k: usize = 0;
        assert(self.timings@.skip(0) =~= self.timings@);
        while k < n
            invariant
                n == self.timings@.len(),
                0 <= k <= n,
                series_of(self.timings@, name@) == series_of(self.timings@.skip(k as int), name@),
                forall|j: int| 0 <= j < k ==> (#[trigger] self.timings@[j]).0@ != name@,
            decreases n - k,
        {
            assert(self.timings@.skip(k as int).drop_first() =~= self.timings@.skip(k + 1));
            if string_eq(&self.timings[k].0, name) {
                return Some(k);
            }
            k += 1;
        }
        None
    }

    /// Appends a duration to the series of `name`.
    pub fn record_timing(&mut self, name: String, duration_ns: u64)
        ensures
            final(self).series(name@) == Some(match old(self).series(name@) {
                Some(s) => s.push(duration_ns),
                None => seq![duration_ns],
            }),
            forall|n: Seq<char>| n != name@ ==> final(self).series(n) == old(self).series(n),
    {
        let ghost old_t = self.timings@;
        match self.position(name.as_str()) {
            Some(k) => {
                let mut entry: (String, Vec<u64>) = (String::new(), Vec::new());
                core::mem::swap(&mut entry, &mut self.timings[k]);
                assert(entry == old_t[k as int]);
                entry.1.push(duration_ns);
                let ghost e = entry;
                self.timings.set(k, entry);
                proof {
                    assert(self.timings@ =~= old_t.update(k as int, e));
                    assert(e.1@ == old_t[k as int].1@.push(duration_ns));
                    lemma_series_update(old_t, k as int, e, name@);
                }
            },
            None => {
                let ghost old_t = self.timings@;
                let mut v: Vec<u64> = Vec::new();
                v.push(duration_ns);
                self.timings.push((name, v));
                proof {
                    lemma_series_push(old_t, self.timings@.last(), self.timings@.last().0@);
                    assert(old_t.push(self.timings@.last()) =~= self.timings@);
                    assert(self.timings@.last().1@ =~= seq![duration_ns]);
                }
            },
        }
    }

    /// Mean of the series of `name`, rounded down; `None` for an unknown or
    /// empty series.
    pub fn get_average(&self, name: &str) -> (r: Option<u64>)
        ensures
            r matches Some(a) ==> self.series(name@) matches Some(s) && s.len() > 0 && a == sum_u64(s) / (s.len() as int),
            r is None <==> (self.series(name@) is None || self.series(name@).unwrap().len() == 0),
    {
        match self.get_stats(name) {
            Some(st) => if st.count == 0 { None } else { Some(st.average) },
            None => None,
        }
    }

    /// Count, mean, minimum and maximum of the series of `name`.
    pub fn get_stats(&self, name: &str) -> (r: Option<TimingStats>)
        ensures
            r is None <==> self.series(name@) is None,
            r matches Some(st) ==> self.series(name@) matches Some(s) && st.count == s.len() && (
                if s.len() == 0 {
                    st.average == 0 && st.min == 0 && st.max == 0
                } else {
                    st.average == sum_u64(s) / (s.len() as int) && st.min == min_u64(s) && st.max == max_u64(s)
                }),
    {
        let k = match self.position(name) {
            Some(k) => k,
            None => return None,
        };
        let ds = &self.timings[k].1;
        let n = ds.len();
        if n == 0 {
            return Some(TimingStats { count: 0, average: 0, min: 0, max: 0 });
        }
        let mut total: u128 = 0;
        let mut lo: u64 = ds[0];
        let mut hi: u64 = ds[0];
        let mut i: usize = 0;
        while i < n
            invariant
                n == ds@.len(),
                n > 0,
                0 <= i <= n,
                total == sum_u64(ds@.take(i as int)),
                total <= i * 0xffff_ffff_ffff_ffffu128,
                i > 0 ==> lo == min_u64(ds@.take(i as int)) && hi == max_u64(ds@.take(i as int)),
                i == 0 ==> lo == ds@[0] && hi == ds@[0],
            decreases n - i,
        {
            let d = ds[i];
            proof {
                assert(ds@.take(i + 1).drop_last() =~= ds@.take(i as int));
                if i == 0 {
                    assert(ds@.take(1) =~= seq![d]);
                }
                assert((i + 1) * 0xffff_ffff_ffff_ffffu128 == i * 0xffff_ffff_ffff_ffffu128 + 0xffff_ffff_ffff_ffffu128)
                    by (nonlinear_arith);
                assert(i * 0xffff_ffff_ffff_ffffu128 <= usize::MAX * 0xffff_ffff_ffff_ffffu128) by (nonlinear_arith)
                    requires i <= usize::MAX;
            }
            total = total + d as u128;
            if i > 0 && d < lo {
                lo = d;
            }
            if i > 0 && d > hi {
                hi = d;
            }
            i += 1;
        }
        assert(ds@.take(n as int) =~= ds@);
        let avg = total / (n as u128);
        proof {
            assert(avg <= 0xffff_ffff_ffff_ffffu128) by (nonlinear_arith)
                requires avg == total / (n as u128), total <= n * 0xffff_ffff_ffff_ffffu128, n > 0;
        }
        Some(TimingStats { count: n, average: avg as u64, min: lo, max: hi })
    }

    /// Forgets every series.
    pub fn clear(&mut self)
        ensures
            forall|n: Seq<char>| final(self).series(n) is None,
    {
        self.timings = Vec::new();
    }
}

proof fn lemma_series_update(ts: Seq<(String, Vec<u64>)>, k: int, e: (String, Vec<u64>), key: Seq<char>)
    requires
        0 <= k < ts.len(),
        ts[k].0@ == key,
        e.0@ == key,
        forall|j: int| 0 <= j < k ==> (#[trigger] ts[j]).0@ != key,
    ensures
        series_of(ts.update(k, e), key) == Some(e.1@),
        forall|n: Seq<char>| n != key ==> series_of(ts.update(k, e), n) == series_of(ts, n),
    decreases k,
{
    let t = ts.update(k, e);
    if k > 0 {
        lemma_series_update(ts.drop_first(), k - 1, e, key);
        assert(t.drop_first() =~= ts.drop_first().update(k - 1, e));
        assert(ts[0].0@ != key);
    } else {
        assert(t.drop_first() =~= ts.drop_first());
    }
    assert forall|n: Seq<char>| n != key implies series_of(t, n) == series_of(ts, n) by {
        if k > 0 {
            assert(series_of(t.drop_first(), n) == series_of(ts.drop_first(), n));
        }
    }
}

proof fn lemma_series_push(ts: Seq<(String, Vec<u64>)>, e: (String, Vec<u64>), key: Seq<char>)
    requires
        e.0@ == key,
        forall|j: int| 0 <= j < ts.len() ==> (#[trigger] ts[j]).0@ != key,
    ensures
        series_of(ts.push(e), key) == Some(e.1@),
        forall|n: Seq<char>| n != key ==> series_of(ts.push(e), n) == series_of(ts, n),
    decreases ts.len(),
{
    let t = ts.push(e);
    if ts.len() > 0 {
        lemma_series_push(ts.drop_first(), e, key);
        assert(t.drop_first() =~= ts.drop_first().push(e));
        assert(ts[0].0@ != key);
    } else {
        assert(t.drop_first() =~= ts);
    }
    assert forall|n: Seq<char>| n != key implies series_of(t, n) == series_of(ts, n) by {
        if ts.len() > 0 {
            assert(series_of(t.drop_first(), n) == series_of(ts.drop_first(), n));
        } else {
            assert(series_of(t.drop_first(), n) == None::<Seq<u64>>);
        }
    }
}

/// Memory readings: the first, the latest and the highest seen.
pub struct MemoryTracker {
    initial_memory: usize,
    current_memory: usize,
    peak_memory: usize,
}

impl MemoryTracker {
    pub closed spec fn initial(&self) -> usize {
        self.initial_memory
    }

    pub closed spec fn current(&self) -> usize {
        self.current_memory
    }

    pub closed spec fn peak(&self) -> usize {
        self.peak_memory
    }

    pub fn new(reading: usize) -> (r: Self)
        ensures
            r.initial() == reading && r.current() == reading && r.peak() == reading,
    {
        MemoryTracker { initial_memory: reading, current_memory: reading, peak_memory: reading }
    }

    /// Takes a new reading; the peak is the highest reading since the last
    /// reset.
    pub fn update(&mut self, reading: usize)
        ensures
            final(self).current() == reading,
            final(self).peak() == if reading > old(self).peak() { reading } else { old(self).peak() },
            final(self).initial() == old(self).initial(),
    {
        self.current_memory = reading;
        if reading > self.peak_memory {
            self.peak_memory = reading;
        }
    }

    pub fn current_usage(&self) -> (r: usize)
        ensures
            r == self.current(),
    {
        self.current_memory
    }

    pub fn peak_usage(&self) -> (r: usize)
        ensures
            r == self.peak(),
    {
        self.peak_memory
    }

    pub fn initial_usage(&self) -> (r: usize)
        ensures
            r == self.initial(),
    {
        self.initial_memory
    }

    /// Restarts the peak from a new reading.
    pub fn reset_peak(&mut self, reading: usize)
        ensures
            final(self).peak() == reading && final(self).current() == reading,
            final(self).initial() == old(self).initial(),
    {
        self.current_memory = reading;
        self.peak_memory = reading;
    }
}

/// Relies on `num_cpus::get`: the number of logical CPUs available to this
/// process, which its documentation says is always at least 1.
#[verifier::external_body]
fn logical_cpus() -> (r: usize)
    ensures
        r >= 1,
{
    num_cpus::get()
}

/// Default capacity of the shared arena: 1 GiB.
pub const DEFAULT_SHARED_MEMORY_SIZE: usize = 1073741824;

/// Process-wide settings.
#[derive(Debug, Clone)]
pub struct SystemConfig {
    pub max_threads: usize,
    pub shared_memory_size: usize,
    pub enable_gpu: bool,
    pub log_level: String,
}

impl SystemConfig {
    /// One thread per logical CPU (at least one), a 1 GiB arena, the GPU
    /// enabled, log level "info".
    pub fn detect() -> (r: Self)
        ensures
            r.max_threads >= 1,
            r.shared_memory_size == DEFAULT_SHARED_MEMORY_SIZE,
            r.enable_gpu,
            r.log_level@ == "info"@,
    {
        let n = logical_cpus();
        SystemConfig {
            max_threads: n,
            shared_memory_size: DEFAULT_SHARED_MEMORY_SIZE,
            enable_gpu: true,
            log_level: "info".to_string(),
        }
    }
}

/// Which modules are enabled, where they are found, and their default
/// parameters by module.
#[derive(Debug, Clone)]
pub struct ModuleConfig {
    pub enabled_modules: Vec<String>,
    pub module_paths: Vec<String>,
    pub default_parameters: Vec<(String, Vec<(String, String)>)>,
}

impl ModuleConfig {
    /// The reader, filter and renderer modules, searched for in "modules".
    pub fn standard() -> (r: Self)
        ensures
            r.enabled_modules@.len() == 3,
            r.enabled_modules@[0]@ == "ReadData"@,
            r.enabled_modules@[1]@ == "Filter"@,
            r.enabled_modules@[2]@ == "Renderer"@,
            r.module_paths@.len() == 1 && r.module_paths@[0]@ == "modules"@,
            r.default_parameters@.len() == 0,
    {
        let mut enabled: Vec<String> = Vec::new();
        enabled.push("ReadData".to_string());
        enabled.push("Filter".to_string());
        enabled.push("Renderer".to_string());
        let mut paths: Vec<String> = Vec::new();
        paths.push("modules".to_string());
        ModuleConfig { enabled_modules: enabled, module_paths: paths, default_parameters: Vec::new() }
    }
}

} // verus!
