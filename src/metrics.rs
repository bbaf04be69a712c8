//! Metrics derived from the parsed counters, and the assembly of one whole
//! sample out of the texts of the source files.
use vstd::prelude::*;
use crate::parser::{
    parse_meminfo, parse_nix_store_path, parse_stat, parse_swaps, parse_uptime, spec_parse_meminfo,
    spec_parse_stat, spec_parse_swaps, spec_parse_uptime, store_prefix, MemInfo, ParseError, Stat,
    Swaps, Uptime,
};
use crate::table::{entries_get, Entries};

verus! {

broadcast use vstd::string::group_string_axioms;

/// The source that a sample is read from.
#[derive(Debug, Clone, Copy, PartialEq, Eq, Structural)]
pub enum Source {
    Stat,
    MemInfo,
    Swaps,
    Uptime,
    CurrentSystem,
}

/// Why a sample could not be taken.
#[derive(Debug, Clone, Copy, PartialEq, Eq, Structural)]
pub enum MetricError {
    /// The source file or link could not be read.
    SourceUnavailable(Source),
    /// The source's text could not be parsed.
    Parse(Source, ParseError),
    /// A derived value would divide by zero, underflow or overflow.
    ArithmeticGuard(Source),
}

/// Ticks since a point in time: all of them, and those not spent idle.
#[derive(Debug, Clone, Copy, PartialEq, Eq, Structural, Default)]
pub struct Cpu {
    pub total: usize,
    pub used: usize,
}

/// The sum of all ten counters.
pub open spec fn stat_total(s: Stat) -> int {
    s.user + s.nice + s.system + s.idle + s.iowait + s.irq + s.softirq + s.steal + s.guest
        + s.guest_nice
}

/// Ticks of a sample: `total` is the sum of the counters, `used` that sum
/// less the idle ticks; `None` where the sum does not fit.
pub open spec fn cpu_of(s: Stat) -> Option<Cpu> {
    if stat_total(s) <= usize::MAX {
        Some(Cpu { total: stat_total(s) as usize, used: (stat_total(s) - s.idle) as usize })
    } else {
        None
    }
}

/// `later - earlier`, field by field; `None` where a field would go below zero.
pub open spec fn cpu_delta(later: Cpu, earlier: Cpu) -> Option<Cpu> {
    if later.total >= earlier.total && later.used >= earlier.used {
        Some(
            Cpu {
                total: (later.total - earlier.total) as usize,
                used: (later.used - earlier.used) as usize,
            },
        )
    } else {
        None
    }
}

/// `part` as a whole percentage of `whole`, rounded down.
pub open spec fn percent(part: int, whole: int) -> int {
    (part * 100) / whole
}

fn percent_of(part: usize, whole: usize) -> (r: u128)
    requires
        whole > 0,
    ensures
        r == percent(part as int, whole as int),
{
    (part as u128 * 100) / whole as u128
}

impl Cpu {
    /// The ticks of a sample.
    pub fn from_stat(s: &Stat) -> (r: Option<Cpu>)
        ensures
            r == cpu_of(*s),
    {
        let total: u128 = s.user as u128 + s.nice as u128 + s.system as u128 + s.idle as u128
            + s.iowait as u128 + s.irq as u128 + s.softirq as u128 + s.steal as u128
            + s.guest as u128 + s.guest_nice as u128;
        if total > usize::MAX as u128 {
            return None;
        }
        let total = total as usize;
        Some(Cpu { total, used: total - s.idle })
    }

    /// The ticks between an earlier value and this one, field by field;
    /// `None` where counters went backwards.
    pub fn checked_sub(&self, earlier: &Cpu) -> (r: Option<Cpu>)
        ensures
            r == cpu_delta(*self, *earlier),
    {
        if self.total >= earlier.total && self.used >= earlier.used {
            Some(Cpu { total: self.total - earlier.total, used: self.used - earlier.used })
        } else {
            None
        }
    }

    /// `100 - 100 * idle / total`, in whole percent with the quotient
    /// rounded down; `None` where there are no ticks, or more used than all.
    pub fn average_used_percent(&self) -> (r: Option<u128>)
        ensures
            self.total > 0 && self.used <= self.total ==> r == Some(
                (100 - percent(self.total - self.used, self.total as int)) as u128,
            ),
            !(self.total > 0 && self.used <= self.total) ==> r is None,
            r matches Some(p) ==> p <= 100,
    {
        if self.total == 0 || self.used > self.total {
            return None;
        }
        let idle = percent_of(self.total - self.used, self.total);
        proof {
            let a = (self.total - self.used) as int;
            let b = self.total as int;
            assert((a * 100) / b <= 100) by (nonlinear_arith)
                requires
                    0 <= a <= b,
                    b > 0,
            ;
        }
        Some(100 - idle)
    }
}

/// Memory in kB: all of it, and that not available.
#[derive(Debug, Clone, Copy, PartialEq, Eq, Structural, Default)]
pub struct Memory {
    pub total: usize,
    pub used: usize,
}

pub open spec fn mem_total_key() -> Seq<char> {
    seq!['M', 'e', 'm', 'T', 'o', 't', 'a', 'l']
}

pub open spec fn mem_available_key() -> Seq<char> {
    seq!['M', 'e', 'm', 'A', 'v', 'a', 'i', 'l', 'a', 'b', 'l', 'e']
}

/// Memory use out of a memory table: `MemTotal`, and `MemTotal` less
/// `MemAvailable`. Either key missing is a format error; more available
/// than there is in all is an arithmetic guard.
pub open spec fn memory_of(t: Entries<usize>) -> Result<Memory, MetricError> {
    match (entries_get(t, mem_total_key()), entries_get(t, mem_available_key())) {
        (Some(total), Some(available)) => if available <= total {
            Ok(Memory { total, used: (total - available) as usize })
        } else {
            Err(MetricError::ArithmeticGuard(Source::MemInfo))
        },
        _ => Err(MetricError::Parse(Source::MemInfo, ParseError::SourceFormat)),
    }
}

impl Memory {
    /// Memory use out of a memory table.
    pub fn from_meminfo(m: &MemInfo) -> (r: Result<Memory, MetricError>)
        requires
            m.wf(),
        ensures
            r == memory_of(m@),
    {
        proof {
            reveal_strlit("MemTotal");
            reveal_strlit("MemAvailable");
        }
        let total = m.get("MemTotal");
        let available = m.get("MemAvailable");
        proof {
            assert("MemTotal"@ =~= mem_total_key());
            assert("MemAvailable"@ =~= mem_available_key());
        }
        match (total, available) {
            (Some(total), Some(available)) => {
                if available <= total {
                    Ok(Memory { total, used: total - available })
                } else {
                    Err(MetricError::ArithmeticGuard(Source::MemInfo))
                }
            },
            _ => Err(MetricError::Parse(Source::MemInfo, ParseError::SourceFormat)),
        }
    }

    /// The share of memory used, in whole percent rounded down; `None`
    /// where there is no memory at all.
    pub fn used_percent(&self) -> (r: Option<u128>)
        ensures
            self.total > 0 ==> r == Some(percent(self.used as int, self.total as int) as u128),
            self.total == 0 ==> r is None,
    {
        if self.total == 0 {
            None
        } else {
            Some(percent_of(self.used, self.total))
        }
    }
}

/// Swap summed over all devices.
#[derive(Debug, Clone, Copy, PartialEq, Eq, Structural, Default)]
pub struct Swap {
    pub size: usize,
    pub used: usize,
}

pub open spec fn sum_sizes(t: Entries<crate::parser::Swap>) -> int
    decreases t.len(),
{
    if t.len() == 0 {
        0
    } else {
        sum_sizes(t.drop_last()) + t.last().1.size
    }
}

pub open spec fn sum_used(t: Entries<crate::parser::Swap>) -> int
    decreases t.len(),
{
    if t.len() == 0 {
        0
    } else {
        sum_used(t.drop_last()) + t.last().1.used
    }
}

/// The sizes and used amounts of all devices, summed; `None` where a sum
/// does not fit.
pub open spec fn swap_of(t: Entries<crate::parser::Swap>) -> Option<Swap> {
    if sum_sizes(t) <= usize::MAX && sum_used(t) <= usize::MAX {
        Some(Swap { size: sum_sizes(t) as usize, used: sum_used(t) as usize })
    } else {
        None
    }
}

/// The share of swap used, in whole percent rounded down; 0 where there is
/// no swap at all.
pub open spec fn swap_percent(s: Swap) -> int {
    if s.size == 0 {
        0
    } else {
        percent(s.used as int, s.size as int)
    }
}

/// Sums over a prefix are at most the sums over the whole.
proof fn lemma_sums_prefix(t: Entries<crate::parser::Swap>, n: int)
    requires
        0 <= n <= t.len(),
    ensures
        sum_sizes(t.take(n)) <= sum_sizes(t),
        sum_used(t.take(n)) <= sum_used(t),
    decreases t.len(),
{
    if n < t.len() {
        lemma_sums_prefix(t.drop_last(), n);
        assert(t.drop_last().take(n) =~= t.take(n));
    } else {
        assert(t.take(n) =~= t);
    }
}

impl Swap {
    /// Swap summed over the devices of a swap table.
    pub fn from_swaps(t: &Swaps) -> (r: Option<Swap>)
        ensures
            r == swap_of(t@),
    {
        let entries = t.entries();
        let ghost e = t@;
        let mut size: usize = 0;
        let mut used: usize = 0;
        let mut i: usize = 0;
        while i < entries.len()
            invariant
                e == t@,
                entries@.len() == e.len(),
                forall|k: int| 0 <= k < entries@.len() ==> (#[trigger] entries@[k]).1 == e[k].1,
                i <= e.len(),
                size == sum_sizes(e.take(i as int)),
                used == sum_used(e.take(i as int)),
            decreases e.len() - i,
        {
            let d = entries[i].1;
            proof {
                assert(e.take(i + 1).drop_last() =~= e.take(i as int));
                lemma_sums_prefix(e, i + 1);
            }
            size = match size.checked_add(d.size) {
                Some(v) => v,
                None => {
                    return None;
                },
            };
            used = match used.checked_add(d.used) {
                Some(v) => v,
                None => {
                    return None;
                },
            };
            i = i + 1;
        }
        proof {
            assert(e.take(i as int) =~= e);
        }
        Some(Swap { size, used })
    }

    /// The share of swap used, in whole percent rounded down; 0 where there
    /// is no swap at all.
    pub fn used_percent(&self) -> (r: u128)
        ensures
            r == swap_percent(*self),
    {
        if self.size == 0 {
            0
        } else {
            percent_of(self.used, self.size)
        }
    }
}

/// The ticks of a sample less the idle ones are the used ones, and the
/// total is the sum of all ten counters.
pub proof fn lemma_cpu_used_is_total_less_idle(s: Stat)
    requires
        stat_total(s) <= usize::MAX,
    ensures
        cpu_of(s) matches Some(c) && c.total == stat_total(s) && c.total - s.idle == c.used,
{
}

/// Between two samples in time order, with every counter at least where it
/// was and the total grown, the delta's used ticks are at most its total.
pub proof fn lemma_delta_used_within_total(earlier: Stat, later: Stat)
    requires
        stat_total(later) <= usize::MAX,
        earlier.user <= later.user,
        earlier.nice <= later.nice,
        earlier.system <= later.system,
        earlier.idle <= later.idle,
        earlier.iowait <= later.iowait,
        earlier.irq <= later.irq,
        earlier.softirq <= later.softirq,
        earlier.steal <= later.steal,
        earlier.guest <= later.guest,
        earlier.guest_nice <= later.guest_nice,
        stat_total(earlier) < stat_total(later),
    ensures
        cpu_of(earlier) is Some,
        cpu_of(later) is Some,
        cpu_delta(cpu_of(later)->Some_0, cpu_of(earlier)->Some_0) matches Some(d) && d.used
            <= d.total,
{
}

/// With some memory and no more available than there is, the share used
/// lies between 0 and 100 percent.
pub proof fn lemma_memory_percent_in_range(t: Entries<usize>)
    requires
        entries_get(t, mem_total_key()) matches Some(total) && total > 0,
        entries_get(t, mem_available_key()) matches Some(available) && available
            <= entries_get(t, mem_total_key())->Some_0,
    ensures
        memory_of(t) matches Ok(m) && m.total > 0 && 0 <= percent(m.used as int, m.total as int)
            <= 100,
{
    let m = memory_of(t)->Ok_0;
    let a = m.used as int;
    let b = m.total as int;
    assert((a * 100) / b <= 100 && 0 <= (a * 100) / b) by (nonlinear_arith)
        requires
            0 <= a <= b,
            b > 0,
    ;
}

/// With no swap device, the sums are zero and the share used is 0 percent.
pub proof fn lemma_no_swap_devices(t: Entries<crate::parser::Swap>)
    requires
        t.len() == 0,
    ensures
        swap_of(t) == Some(Swap { size: 0, used: 0 }),
        swap_percent(swap_of(t)->Some_0) == 0,
{
}

/// One published sample: uptime, ticks since boot and since the sample
/// before, memory and swap, and the installed system's identifier where it
/// was asked for and could be read.
#[derive(Debug, Clone, PartialEq, Eq)]
pub struct Metrics {
    pub uptime: Uptime,
    pub cpu_since_boot: Cpu,
    pub cpu_delta: Cpu,
    pub memory: Memory,
    pub swap: Swap,
    pub current_system: Option<String>,
}

/// A `Metrics` with the identifier read as characters.
pub struct MetricsView {
    pub uptime: Uptime,
    pub cpu_since_boot: Cpu,
    pub cpu_delta: Cpu,
    pub memory: Memory,
    pub swap: Swap,
    pub current_system: Option<Seq<char>>,
}

pub open spec fn opt_view(o: Option<String>) -> Option<Seq<char>> {
    match o {
        Some(s) => Some(s@),
        None => None,
    }
}

impl View for Metrics {
    type V = MetricsView;

    open spec fn view(&self) -> MetricsView {
        MetricsView {
            uptime: self.uptime,
            cpu_since_boot: self.cpu_since_boot,
            cpu_delta: self.cpu_delta,
            memory: self.memory,
            swap: self.swap,
            current_system: opt_view(self.current_system),
        }
    }
}

impl Default for Metrics {
    /// The sample before the first: every counter zero, no identifier.
    fn default() -> (r: Metrics)
        ensures
            r.uptime == (Uptime { secs: 0, nanos: 0 }),
            r.cpu_since_boot == (Cpu { total: 0, used: 0 }),
            r.cpu_delta == (Cpu { total: 0, used: 0 }),
            r.memory == (Memory { total: 0, used: 0 }),
            r.swap == (Swap { size: 0, used: 0 }),
            r.current_system is None,
    {
        Metrics {
            uptime: Uptime { secs: 0, nanos: 0 },
            cpu_since_boot: Cpu { total: 0, used: 0 },
            cpu_delta: Cpu { total: 0, used: 0 },
            memory: Memory { total: 0, used: 0 },
            swap: Swap { size: 0, used: 0 },
            current_system: None,
        }
    }
}

/// What one sample reads: the text of each source file, and the target of
/// the installed system's link; `None` where it could not be read.
pub struct SourceTexts {
    pub meminfo: Option<String>,
    pub uptime: Option<String>,
    pub swaps: Option<String>,
    pub stat: Option<String>,
    pub current_system_link: Option<String>,
}

pub struct SourceTextsView {
    pub meminfo: Option<Seq<char>>,
    pub uptime: Option<Seq<char>>,
    pub swaps: Option<Seq<char>>,
    pub stat: Option<Seq<char>>,
    pub current_system_link: Option<Seq<char>>,
}

impl View for SourceTexts {
    type V = SourceTextsView;

    open spec fn view(&self) -> SourceTextsView {
        SourceTextsView {
            meminfo: opt_view(self.meminfo),
            uptime: opt_view(self.uptime),
            swaps: opt_view(self.swaps),
            stat: opt_view(self.stat),
            current_system_link: opt_view(self.current_system_link),
        }
    }
}

pub open spec fn memory_from(text: Option<Seq<char>>) -> Result<Memory, MetricError> {
    match text {
        None => Err(MetricError::SourceUnavailable(Source::MemInfo)),
        Some(t) => match spec_parse_meminfo(t) {
            Err(e) => Err(MetricError::Parse(Source::MemInfo, e)),
            Ok(m) => memory_of(m),
        },
    }
}

pub open spec fn uptime_from(text: Option<Seq<char>>) -> Result<Uptime, MetricError> {
    match text {
        None => Err(MetricError::SourceUnavailable(Source::Uptime)),
        Some(t) => match spec_parse_uptime(t) {
            Err(e) => Err(MetricError::Parse(Source::Uptime, e)),
            Ok(u) => Ok(u),
        },
    }
}

pub open spec fn swap_from(text: Option<Seq<char>>) -> Result<Swap, MetricError> {
    match text {
        None => Err(MetricError::SourceUnavailable(Source::Swaps)),
        Some(t) => match spec_parse_swaps(t) {
            Err(e) => Err(MetricError::Parse(Source::Swaps, e)),
            Ok(d) => match swap_of(d) {
                Some(s) => Ok(s),
                None => Err(MetricError::ArithmeticGuard(Source::Swaps)),
            },
        },
    }
}

pub open spec fn cpu_from(text: Option<Seq<char>>) -> Result<Cpu, MetricError> {
    match text {
        None => Err(MetricError::SourceUnavailable(Source::Stat)),
        Some(t) => match spec_parse_stat(t) {
            Err(e) => Err(MetricError::Parse(Source::Stat, e)),
            Ok(s) => match cpu_of(s) {
                Some(c) => Ok(c),
                None => Err(MetricError::ArithmeticGuard(Source::Stat)),
            },
        },
    }
}

/// The installed system's identifier out of its link's target.
pub open spec fn current_system_from(link: Option<Seq<char>>) -> Result<Seq<char>, MetricError> {
    match link {
        None => Err(MetricError::SourceUnavailable(Source::CurrentSystem)),
        Some(l) => if l.len() >= store_prefix().len() && l.take(store_prefix().len() as int)
            == store_prefix() {
            Ok(l.skip(store_prefix().len() as int))
        } else {
            Err(MetricError::Parse(Source::CurrentSystem, ParseError::SourceFormat))
        },
    }
}

/// The sample that the texts give, after `last`: the sources are taken in
/// the order memory, uptime, swap, ticks, and the first failure is the
/// result. The tick delta is taken against `last`'s ticks since boot. The
/// identifier is read only when asked for, and where it cannot be read it
/// is absent: that never fails the sample.
pub open spec fn spec_get_metrics(
    last: MetricsView,
    texts: SourceTextsView,
    get_current_system: bool,
) -> Result<MetricsView, MetricError> {
    match memory_from(texts.meminfo) {
        Err(e) => Err(e),
        Ok(memory) => match uptime_from(texts.uptime) {
            Err(e) => Err(e),
            Ok(uptime) => match swap_from(texts.swaps) {
                Err(e) => Err(e),
                Ok(swap) => match cpu_from(texts.stat) {
                    Err(e) => Err(e),
                    Ok(cpu_since_boot) => match cpu_delta(cpu_since_boot, last.cpu_since_boot) {
                        None => Err(MetricError::ArithmeticGuard(Source::Stat)),
                        Some(cpu_delta) => Ok(
                            MetricsView {
                                uptime,
                                cpu_since_boot,
                                cpu_delta,
                                memory,
                                swap,
                                current_system: if get_current_system {
                                    match current_system_from(texts.current_system_link) {
                                        Ok(id) => Some(id),
                                        Err(_) => None,
                                    }
                                } else {
                                    None
                                },
                            },
                        ),
                    },
                },
            },
        },
    }
}

fn memory_from_text(text: &Option<String>) -> (r: Result<Memory, MetricError>)
    ensures
        r == memory_from(opt_view(*text)),
{
    match text {
        None => Err(MetricError::SourceUnavailable(Source::MemInfo)),
        Some(t) => match parse_meminfo(t.as_str()) {
            Err(e) => Err(MetricError::Parse(Source::MemInfo, e)),
            Ok(m) => Memory::from_meminfo(&m),
        },
    }
}

fn uptime_from_text(text: &Option<String>) -> (r: Result<Uptime, MetricError>)
    ensures
        r == uptime_from(opt_view(*text)),
        r matches Ok(u) ==> u.wf(),
{
    match text {
        None => Err(MetricError::SourceUnavailable(Source::Uptime)),
        Some(t) => match parse_uptime(t.as_str()) {
            Err(e) => Err(MetricError::Parse(Source::Uptime, e)),
            Ok(u) => Ok(u),
        },
    }
}

fn swap_from_text(text: &Option<String>) -> (r: Result<Swap, MetricError>)
    ensures
        r == swap_from(opt_view(*text)),
{
    match text {
        None => Err(MetricError::SourceUnavailable(Source::Swaps)),
        Some(t) => match parse_swaps(t.as_str()) {
            Err(e) => Err(MetricError::Parse(Source::Swaps, e)),
            Ok(d) => match Swap::from_swaps(&d) {
                Some(s) => Ok(s),
                None => Err(MetricError::ArithmeticGuard(Source::Swaps)),
            },
        },
    }
}

fn cpu_from_text(text: &Option<String>) -> (r: Result<Cpu, MetricError>)
    ensures
        r == cpu_from(opt_view(*text)),
{
    match text {
        None => Err(MetricError::SourceUnavailable(Source::Stat)),
        Some(t) => match parse_stat(t.as_str()) {
            Err(e) => Err(MetricError::Parse(Source::Stat, e)),
            Ok(s) => match Cpu::from_stat(&s) {
                Some(c) => Ok(c),
                None => Err(MetricError::ArithmeticGuard(Source::Stat)),
            },
        },
    }
}

/// The installed system's identifier, out of the target of its link
/// (`None` where the link could not be read).
pub fn read_nixos_current_system(link: &Option<String>) -> (r: Result<String, MetricError>)
    ensures
        match current_system_from(opt_view(*link)) {
            Ok(id) => r matches Ok(s) && s@ == id,
            Err(e) => r matches Err(re) && re == e,
        },
{
    match link {
        None => Err(MetricError::SourceUnavailable(Source::CurrentSystem)),
        Some(l) => match parse_nix_store_path(l.as_str()) {
            Ok(id) => Ok(id.to_owned()),
            Err(_) => Err(MetricError::Parse(Source::CurrentSystem, ParseError::SourceFormat)),
        },
    }
}

/// Takes one sample out of the texts of the source files, after the sample
/// `last_metrics`.
pub fn get_metrics(last_metrics: &Metrics, texts: &SourceTexts, get_current_system: bool) -> (r:
    Result<Metrics, MetricError>)
    ensures
        match spec_get_metrics(last_metrics@, texts@, get_current_system) {
            Ok(m) => r matches Ok(rm) && rm@ == m && rm.uptime.wf(),
            Err(e) => r matches Err(re) && re == e,
        },
{
    let memory = match memory_from_text(&texts.meminfo) {
        Ok(v) => v,
        Err(e) => {
            return Err(e);
        },
    };
    let uptime = match uptime_from_text(&texts.uptime) {
        Ok(v) => v,
        Err(e) => {
            return Err(e);
        },
    };
    let swap = match swap_from_text(&texts.swaps) {
        Ok(v) => v,
        Err(e) => {
            return Err(e);
        },
    };
    let cpu_since_boot = match cpu_from_text(&texts.stat) {
        Ok(v) => v,
        Err(e) => {
            return Err(e);
        },
    };
    let cpu_delta = match cpu_since_boot.checked_sub(&last_metrics.cpu_since_boot) {
        Some(v) => v,
        None => {
            return Err(MetricError::ArithmeticGuard(Source::Stat));
        },
    };
    let current_system = if get_current_system {
        match read_nixos_current_system(&texts.current_system_link) {
            Ok(id) => Some(id),
            Err(_) => None,
        }
    } else {
        None
    };
    Ok(Metrics { uptime, cpu_since_boot, cpu_delta, memory, swap, current_system })
}

} // verus!
