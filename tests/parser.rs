use ansine::parser::{
    parse_meminfo, parse_nix_store_path, parse_stat, parse_swap_line, parse_swaps, parse_uptime,
    ParseError, Stat, Swap, SwapType,
};
use std::collections::HashMap;
use std::time::Duration;

#[test]
fn proc_stat() {
    let proc_stat = "cpu  9701702 6293 1291945 119400172 120770 0 120369 0 0 0
cpu0 1209513 784 169115 14910230 15511 0 34945 0 0 0
cpu1 1209721 776 161430 14923348 15558 0 15489 0 0 0
cpu2 1217037 764 158973 14942082 15003 0 13775 0 0 0
cpu3 1307743 793 163042 14833254 14664 0 4384 0 0 0
cpu4 1205766 755 153402 14966185 14950 0 8169 0 0 0
cpu5 1215377 766 152806 14948197 15296 0 13306 0 0 0
cpu6 1218276 832 158639 14917222 14966 0 4001 0 0 0
cpu7 1118264 821 174536 14959651 14820 0 26297 0 0 0
";
    let stat = parse_stat(proc_stat).unwrap();
    assert_eq!(
        stat,
        Stat {
            user: 9701702,
            nice: 6293,
            system: 1291945,
            idle: 119400172,
            iowait: 120770,
            irq: 0,
            softirq: 120369,
            steal: 0,
            guest: 0,
            guest_nice: 0
        }
    );
}

#[test]
fn proc_uptime() {
    let proc_uptime = "605581.79 954456.53";
    let uptime = parse_uptime(proc_uptime).unwrap();
    assert_eq!(
        Duration::new(uptime.secs, uptime.nanos),
        Duration::from_secs_f64(605581.79)
    )
}

#[test]
fn proc_meminfo() {
    let proc_meminfo = "MemTotal:       16107060 kB
MemFree:         1916068 kB
MemAvailable:   11569620 kB
HugePages_Total:       0
HugePages_Free:        0
DirectMap1G:     4194304 kB";
    let meminfo = parse_meminfo(proc_meminfo).unwrap();
    let meminfo: HashMap<String, usize> = meminfo.entries().iter().cloned().collect();
    assert_eq!(
        meminfo,
        HashMap::from([
            ("MemTotal".to_string(), 16107060),
            ("MemFree".to_string(), 1916068),
            ("MemAvailable".to_string(), 11569620),
            ("HugePages_Total".to_string(), 0),
            ("HugePages_Free".to_string(), 0),
            ("DirectMap1G".to_string(), 4194304),
        ])
    );
}

#[test]
fn proc_swaps() {
    let proc_swaps = "Filename				Type		Size		Used		Priority
/swapfile                               file		1000000		50000		-2
/swappart                               partition	2000000		80000		-2
";
    let swaps = parse_swaps(proc_swaps).unwrap();
    let swaps: HashMap<String, Swap> = swaps.entries().iter().cloned().collect();
    assert_eq!(
        swaps,
        HashMap::from([
            (
                "/swapfile".to_string(),
                Swap {
                    swap_type: SwapType::File,

                    size: 1000000,
                    used: 50000,
                    priority: -2,
                }
            ),
            (
                "/swappart".to_string(),
                Swap {
                    swap_type: SwapType::Partition,
                    size: 2000000,
                    used: 80000,
                    priority: -2
                }
            )
        ])
    );
}

#[test]
fn nix_store_path() {
    let store_path =
        "/nix/store/072jh6kxgpr04zbdqsy1isbrz5xbkcmb-nixos-system-heorot-23.05.20221218.04f574a";
    let path = parse_nix_store_path(store_path).unwrap();
    assert_eq!(
        path,
        "072jh6kxgpr04zbdqsy1isbrz5xbkcmb-nixos-system-heorot-23.05.20221218.04f574a"
    );
}

#[test]
fn stat_line_round_trips() {
    let line = "cpu  1 2 3 4 5 6 7 8 9 10\n";
    let stat = parse_stat(line).unwrap();
    let again = format!(
        "cpu  {} {} {} {} {} {} {} {} {} {}\n",
        stat.user,
        stat.nice,
        stat.system,
        stat.idle,
        stat.iowait,
        stat.irq,
        stat.softirq,
        stat.steal,
        stat.guest,
        stat.guest_nice
    );
    assert_eq!(again, line);
    assert_eq!(parse_stat(&again).unwrap(), stat);
}

#[test]
fn stat_aggregate_line_need_not_come_first() {
    let text = "\n# comment\ncpu0 1 1 1 1 1 1 1 1 1 1\ncpu 5 0 0 7 0 0 0 0 0 0\n";
    let stat = parse_stat(text).unwrap();
    assert_eq!(stat.user, 5);
    assert_eq!(stat.idle, 7);
}

#[test]
fn stat_without_aggregate_line_is_a_format_error() {
    assert_eq!(
        parse_stat("cpu0 1 2 3 4 5 6 7 8 9 10\n"),
        Err(ParseError::SourceFormat)
    );
    assert_eq!(parse_stat(""), Err(ParseError::SourceFormat));
}

#[test]
fn stat_guest_counters_default_to_zero() {
    let stat = parse_stat("cpu  1 2 3 4 5 6 7 8\nintr 0\n").unwrap();
    assert_eq!((stat.steal, stat.guest, stat.guest_nice), (8, 0, 0));
    let stat = parse_stat("cpu  1 2 3 4 5 6 7 8 9\ncpu0 1 2 3 4 5 6 7 8 9\n").unwrap();
    assert_eq!((stat.guest, stat.guest_nice), (9, 0));
}

#[test]
fn stat_with_seven_counters_is_malformed() {
    assert_eq!(
        parse_stat("cpu  1 2 3 4 5 6 7\nintr 0\n"),
        Err(ParseError::MalformedNumber)
    );
}

#[test]
fn stat_counter_too_large_is_malformed() {
    assert_eq!(
        parse_stat("cpu  1 2 3 4 5 6 7 8 9 999999999999999999999999\n"),
        Err(ParseError::MalformedNumber)
    );
}

#[test]
fn stat_largest_counter_fits() {
    let line = format!("cpu  {} 0 0 0 0 0 0 0 0 0\n", usize::MAX);
    assert_eq!(parse_stat(&line).unwrap().user, usize::MAX);
}

#[test]
fn uptime_keeps_sub_second_precision() {
    let uptime = parse_uptime("605581.79 954456.53").unwrap();
    assert_eq!(uptime.secs, 605581);
    assert_eq!(uptime.nanos, 790_000_000);
}

#[test]
fn uptime_forms() {
    let u = parse_uptime("  42\n").unwrap();
    assert_eq!((u.secs, u.nanos), (42, 0));
    let u = parse_uptime("1.123456789123 5").unwrap();
    assert_eq!((u.secs, u.nanos), (1, 123_456_789));
    let u = parse_uptime("7.").unwrap();
    assert_eq!((u.secs, u.nanos), (7, 0));
}

#[test]
fn uptime_malformed() {
    assert_eq!(parse_uptime("abc"), Err(ParseError::MalformedNumber));
    assert_eq!(parse_uptime(""), Err(ParseError::MalformedNumber));
    assert_eq!(parse_uptime("-1.5 2"), Err(ParseError::MalformedNumber));
    assert_eq!(parse_uptime("12.5x 3"), Err(ParseError::MalformedNumber));
}

#[test]
fn meminfo_later_line_replaces_earlier() {
    let m = parse_meminfo("A: 1 kB\nB: 2\nA: 3 kB\n").unwrap();
    assert_eq!(m.len(), 2);
    assert_eq!(m.get("A"), Some(3));
    assert_eq!(m.get("B"), Some(2));
    assert_eq!(m.entries()[0].0, "A");
}

#[test]
fn meminfo_trims_labels_and_accepts_empty_text() {
    let m = parse_meminfo("  Mem Total :  5 kB  \n").unwrap();
    assert_eq!(m.get("Mem Total"), Some(5));
    assert_eq!(parse_meminfo("").unwrap().len(), 0);
}

#[test]
fn meminfo_errors() {
    assert_eq!(
        parse_meminfo("MemTotal 5 kB\n").err(),
        Some(ParseError::SourceFormat)
    );
    assert_eq!(
        parse_meminfo("MemTotal: kB\n").err(),
        Some(ParseError::MalformedNumber)
    );
    assert_eq!(
        parse_meminfo("MemTotal: 5 MB\n").err(),
        Some(ParseError::SourceFormat)
    );
}

#[test]
fn swaps_header_only_is_an_empty_table() {
    let t = parse_swaps("Filename\tType\tSize\tUsed\tPriority\n").unwrap();
    assert_eq!(t.len(), 0);
    let t = parse_swaps("Filename Type Size Used Priority").unwrap();
    assert_eq!(t.len(), 0);
}

#[test]
fn swaps_errors() {
    assert_eq!(
        parse_swaps("Filename Type Size Used\n").err(),
        Some(ParseError::SourceFormat)
    );
    assert_eq!(
        parse_swaps("Filename Type Size Used Priority\n/dev/zram0 zram 10 0 5\n").err(),
        Some(ParseError::UnknownSwapType)
    );
    assert_eq!(
        parse_swaps("Filename Type Size Used Priority\n/swapfile file ten 0 5\n").err(),
        Some(ParseError::MalformedNumber)
    );
    assert_eq!(
        parse_swaps("Filename Type Size Used Priority\n/swapfile file 10 0 5 extra\n").err(),
        Some(ParseError::SourceFormat)
    );
}

#[test]
fn swap_line_reads_negative_priority() {
    let (name, swap) = parse_swap_line("/dev/sda2 partition 2048 16 -3").unwrap();
    assert_eq!(name, "/dev/sda2");
    assert_eq!(
        swap,
        Swap {
            swap_type: SwapType::Partition,
            size: 2048,
            used: 16,
            priority: -3
        }
    );
    let (_, swap) = parse_swap_line(&format!("/s file 1 1 {}", isize::MIN)).unwrap();
    assert_eq!(swap.priority, isize::MIN);
}

#[test]
fn store_path_wrong_prefix_is_a_format_error() {
    assert_eq!(
        parse_nix_store_path("/nix/stor/abc"),
        Err(ParseError::SourceFormat)
    );
    assert_eq!(parse_nix_store_path("/nix/store/"), Ok(""));
}

#[test]
fn uptime_exponent_forms() {
    let u = parse_uptime("1.5e3 0").unwrap();
    assert_eq!((u.secs, u.nanos), (1500, 0));
    let u = parse_uptime("25E-1").unwrap();
    assert_eq!((u.secs, u.nanos), (2, 500_000_000));
    let u = parse_uptime("3e+2\n").unwrap();
    assert_eq!((u.secs, u.nanos), (300, 0));
    let u = parse_uptime("1e-9").unwrap();
    assert_eq!((u.secs, u.nanos), (0, 1));
    let u = parse_uptime("1e-10").unwrap();
    assert_eq!((u.secs, u.nanos), (0, 0));
    let u = parse_uptime("0e999999999999999999999").unwrap();
    assert_eq!((u.secs, u.nanos), (0, 0));
    let u = parse_uptime("5e-999999999999999999999").unwrap();
    assert_eq!((u.secs, u.nanos), (0, 0));
}

#[test]
fn uptime_too_large_or_bad_exponent_is_malformed() {
    assert_eq!(parse_uptime("1e999999999999999999999"), Err(ParseError::MalformedNumber));
    assert_eq!(parse_uptime("1e20"), Err(ParseError::MalformedNumber));
    assert_eq!(parse_uptime("1e 5"), Err(ParseError::MalformedNumber));
    assert_eq!(parse_uptime("1e-"), Err(ParseError::MalformedNumber));
    let largest = parse_uptime("18446744073709551615.999999999").unwrap();
    assert_eq!((largest.secs, largest.nanos), (u64::MAX, 999_999_999));
    assert_eq!(parse_uptime("18446744073709551616"), Err(ParseError::MalformedNumber));
}
