use ansine::metrics::{
    get_metrics, read_nixos_current_system, Cpu, Memory, MetricError, Metrics, Source,
    SourceTexts, Swap,
};
use ansine::parser::{parse_meminfo, parse_stat, parse_swaps, ParseError, Stat};

const STAT: &str = "cpu  9701702 6293 1291945 119400172 120770 0 120369 0 0 0
cpu0 1209513 784 169115 14910230 15511 0 34945 0 0 0
";
const MEMINFO: &str = "MemTotal:       16107060 kB
MemFree:          196332 kB
MemAvailable:   12074844 kB
";
const SWAPS: &str = "Filename				Type		Size		Used		Priority
/swapfile                               file		1000000		50000		-2
/swappart                               partition	2000000		80000		-2
";
const UPTIME: &str = "605581.79 954456.53";

fn texts() -> SourceTexts {
    SourceTexts {
        meminfo: Some(MEMINFO.to_string()),
        uptime: Some(UPTIME.to_string()),
        swaps: Some(SWAPS.to_string()),
        stat: Some(STAT.to_string()),
        current_system_link: Some("/nix/store/abc-nixos-system".to_string()),
    }
}

#[test]
fn cpu_average_used_percent_of_sample_line() {
    let stat = parse_stat(STAT).unwrap();
    assert_eq!(stat.user, 9701702);
    assert_eq!(stat.idle, 119400172);
    let cpu = Cpu::from_stat(&stat).unwrap();
    let total: u128 = 9701702 + 6293 + 1291945 + 119400172 + 120770 + 0 + 120369 + 0 + 0 + 0;
    assert_eq!(cpu.total as u128, total);
    assert_eq!(
        cpu.average_used_percent(),
        Some(100 - 100 * 119400172 / total)
    );
    assert_eq!(cpu.average_used_percent(), Some(9));
}

#[test]
fn cpu_used_is_total_less_idle() {
    let stat = Stat {
        user: 1,
        nice: 2,
        system: 3,
        idle: 4,
        iowait: 5,
        irq: 6,
        softirq: 7,
        steal: 8,
        guest: 9,
        guest_nice: 10,
    };
    let cpu = Cpu::from_stat(&stat).unwrap();
    assert_eq!(cpu, Cpu { total: 55, used: 51 });
}

#[test]
fn cpu_total_overflow_is_guarded() {
    let stat = Stat {
        user: usize::MAX,
        idle: 1,
        ..Stat::default()
    };
    assert_eq!(Cpu::from_stat(&stat), None);
}

#[test]
fn cpu_delta_of_ordered_samples() {
    let earlier = Cpu::from_stat(&Stat {
        user: 10,
        idle: 90,
        ..Stat::default()
    })
    .unwrap();
    let later = Cpu::from_stat(&Stat {
        user: 30,
        idle: 170,
        ..Stat::default()
    })
    .unwrap();
    let d = later.checked_sub(&earlier).unwrap();
    assert_eq!(d, Cpu { total: 100, used: 20 });
    assert!(d.used <= d.total);
    assert_eq!(d.average_used_percent(), Some(20));
}

#[test]
fn cpu_delta_backwards_is_guarded() {
    let a = Cpu { total: 10, used: 5 };
    let b = Cpu { total: 20, used: 4 };
    assert_eq!(b.checked_sub(&a), None);
    assert_eq!(a.checked_sub(&b), None);
    assert_eq!(Cpu { total: 0, used: 0 }.average_used_percent(), None);
}

#[test]
fn memory_usage_of_sample_block() {
    let m = parse_meminfo(MEMINFO).unwrap();
    let mem = Memory::from_meminfo(&m).unwrap();
    assert_eq!(mem, Memory { total: 16107060, used: 4032216 });
    assert_eq!(mem.used_percent(), Some(25));
}

#[test]
fn memory_percent_bounds() {
    let none_used = Memory::from_meminfo(&parse_meminfo("MemTotal: 8\nMemAvailable: 8\n").unwrap()).unwrap();
    assert_eq!(none_used.used_percent(), Some(0));
    let all_used = Memory::from_meminfo(&parse_meminfo("MemTotal: 8\nMemAvailable: 0\n").unwrap()).unwrap();
    assert_eq!(all_used.used_percent(), Some(100));
    assert_eq!(Memory { total: 0, used: 0 }.used_percent(), None);
}

#[test]
fn memory_errors() {
    let missing = parse_meminfo("MemTotal: 8 kB\nMemFree: 1 kB\n").unwrap();
    assert_eq!(
        Memory::from_meminfo(&missing),
        Err(MetricError::Parse(Source::MemInfo, ParseError::SourceFormat))
    );
    let over = parse_meminfo("MemTotal: 8 kB\nMemAvailable: 9 kB\n").unwrap();
    assert_eq!(
        Memory::from_meminfo(&over),
        Err(MetricError::ArithmeticGuard(Source::MemInfo))
    );
}

#[test]
fn swap_usage_of_two_devices() {
    let swaps = parse_swaps(SWAPS).unwrap();
    let swap = Swap::from_swaps(&swaps).unwrap();
    assert_eq!(swap, Swap { size: 3000000, used: 130000 });
    assert_eq!(swap.used_percent(), 4);
}

#[test]
fn swap_with_no_devices() {
    let swaps = parse_swaps("Filename Type Size Used Priority\n").unwrap();
    let swap = Swap::from_swaps(&swaps).unwrap();
    assert_eq!(swap, Swap { size: 0, used: 0 });
    assert_eq!(swap.used_percent(), 0);
}

#[test]
fn swap_sum_overflow_is_guarded() {
    let text = format!(
        "Filename Type Size Used Priority\n/a file {} 0 -1\n/b file 1 0 -2\n",
        usize::MAX
    );
    let swaps = parse_swaps(&text).unwrap();
    assert_eq!(Swap::from_swaps(&swaps), None);
}

#[test]
fn sample_from_texts() {
    let m = get_metrics(&Metrics::default(), &texts(), true).unwrap();
    assert_eq!((m.uptime.secs, m.uptime.nanos), (605581, 790_000_000));
    assert_eq!(m.memory, Memory { total: 16107060, used: 4032216 });
    assert_eq!(m.swap, Swap { size: 3000000, used: 130000 });
    assert_eq!(m.cpu_since_boot.total, 130641251);
    assert_eq!(m.cpu_delta, m.cpu_since_boot);
    assert_eq!(m.current_system.as_deref(), Some("abc-nixos-system"));
    let m2 = get_metrics(&Metrics::default(), &texts(), false).unwrap();
    assert_eq!(m2.current_system, None);
}

#[test]
fn sample_delta_against_last() {
    let first = get_metrics(&Metrics::default(), &texts(), false).unwrap();
    let mut t = texts();
    t.stat = Some("cpu  9701802 6293 1291945 119400272 120770 0 120369 0 0 0\n".to_string());
    let second = get_metrics(&first, &t, false).unwrap();
    assert_eq!(second.cpu_delta, Cpu { total: 200, used: 100 });
    assert_eq!(get_metrics(&second, &texts(), false).err(), Some(MetricError::ArithmeticGuard(Source::Stat)));
}

#[test]
fn sample_errors_in_source_order() {
    let mut t = texts();
    t.meminfo = None;
    t.stat = None;
    assert_eq!(
        get_metrics(&Metrics::default(), &t, false).err(),
        Some(MetricError::SourceUnavailable(Source::MemInfo))
    );
    let mut t = texts();
    t.uptime = Some("up".to_string());
    assert_eq!(
        get_metrics(&Metrics::default(), &t, false).err(),
        Some(MetricError::Parse(Source::Uptime, ParseError::MalformedNumber))
    );
    let mut t = texts();
    t.swaps = Some("Name Type Size Used Priority\n".to_string());
    assert_eq!(
        get_metrics(&Metrics::default(), &t, false).err(),
        Some(MetricError::Parse(Source::Swaps, ParseError::SourceFormat))
    );
    let mut t = texts();
    t.stat = None;
    assert_eq!(
        get_metrics(&Metrics::default(), &t, false).err(),
        Some(MetricError::SourceUnavailable(Source::Stat))
    );
}

#[test]
fn unreadable_identifier_is_absent_not_fatal() {
    let mut t = texts();
    t.current_system_link = Some("/run/elsewhere".to_string());
    let m = get_metrics(&Metrics::default(), &t, true).unwrap();
    assert_eq!(m.current_system, None);
    t.current_system_link = None;
    let m = get_metrics(&Metrics::default(), &t, true).unwrap();
    assert_eq!(m.current_system, None);
}

#[test]
fn current_system_from_link() {
    assert_eq!(
        read_nixos_current_system(&Some("/nix/store/xyz".to_string())),
        Ok("xyz".to_string())
    );
    assert_eq!(
        read_nixos_current_system(&None),
        Err(MetricError::SourceUnavailable(Source::CurrentSystem))
    );
    assert_eq!(
        read_nixos_current_system(&Some("/etc/xyz".to_string())),
        Err(MetricError::Parse(Source::CurrentSystem, ParseError::SourceFormat))
    );
}

#[test]
fn sample_sums_that_do_not_fit_are_guarded() {
    let mut t = texts();
    t.swaps = Some(format!(
        "Filename Type Size Used Priority\n/a file {} 0 -1\n/b file 1 0 -2\n",
        usize::MAX
    ));
    assert_eq!(
        get_metrics(&Metrics::default(), &t, false).err(),
        Some(MetricError::ArithmeticGuard(Source::Swaps))
    );
    let mut t = texts();
    t.stat = Some(format!("cpu  {} 1 0 0 0 0 0 0 0 0\n", usize::MAX));
    assert_eq!(
        get_metrics(&Metrics::default(), &t, false).err(),
        Some(MetricError::ArithmeticGuard(Source::Stat))
    );
    let mut t = texts();
    t.meminfo = Some("MemTotal: 5 kB\nMemAvailable: 6 kB\n".to_string());
    assert_eq!(
        get_metrics(&Metrics::default(), &t, false).err(),
        Some(MetricError::ArithmeticGuard(Source::MemInfo))
    );
}
