use ansine::metrics::{MetricError, SourceTexts, Source};
use ansine::parser::ParseError;
use ansine::state::MetricsState;

fn texts(stat: &str, meminfo: &str) -> SourceTexts {
    SourceTexts {
        meminfo: Some(meminfo.to_string()),
        uptime: Some("100.5 300.2".to_string()),
        swaps: Some("Filename Type Size Used Priority\n/swapfile file 100 10 -2\n".to_string()),
        stat: Some(stat.to_string()),
        current_system_link: None,
    }
}

const MEM: &str = "MemTotal: 1000 kB\nMemAvailable: 750 kB\n";

#[test]
fn refresh_publishes_new_sample() {
    let mut st = MetricsState::new(&texts("cpu  10 0 0 90 0 0 0 0 0 0\n", MEM), false).unwrap();
    assert_eq!(st.metrics.cpu_delta.total, 100);
    assert_eq!(st.refresh(&texts("cpu  30 0 0 170 0 0 0 0 0 0\n", MEM)), Ok(()));
    assert_eq!(st.snapshot().cpu_delta.total, 100);
    assert_eq!(st.snapshot().cpu_delta.used, 20);
    assert_eq!(st.last_metrics.cpu_since_boot.total, 100);
}

#[test]
fn refresh_with_malformed_meminfo_keeps_snapshot() {
    let mut st = MetricsState::new(&texts("cpu  10 0 0 90 0 0 0 0 0 0\n", MEM), false).unwrap();
    st.refresh(&texts("cpu  30 0 0 170 0 0 0 0 0 0\n", MEM)).unwrap();
    let metrics = st.metrics.clone();
    let last_metrics = st.last_metrics.clone();
    let r = st.refresh(&texts("cpu  50 0 0 250 0 0 0 0 0 0\n", "MemTotal 1000 kB\n"));
    assert_eq!(
        r,
        Err(MetricError::Parse(Source::MemInfo, ParseError::SourceFormat))
    );
    assert_eq!(st.metrics, metrics);
    assert_eq!(st.last_metrics, last_metrics);
    assert_eq!(st.nixos_current_system, false);
}

#[test]
fn first_sample_failure_is_reported() {
    let r = MetricsState::new(&texts("intr 0\n", MEM), false);
    assert_eq!(
        r.err(),
        Some(MetricError::Parse(Source::Stat, ParseError::SourceFormat))
    );
}
