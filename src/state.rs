//! The published snapshot and its refresh: a refresh either replaces the
//! whole snapshot or, on any failure, leaves it exactly as it was.
use vstd::prelude::*;
use crate::metrics::{
    get_metrics, spec_get_metrics, Cpu, Memory, MetricError, Metrics, MetricsView, Source,
    SourceTexts, SourceTextsView, Swap,
};
use crate::parser::{spec_parse_meminfo, Uptime};

verus! {

/// The sample before the first one: every counter zero, no identifier.
pub open spec fn initial_view() -> MetricsView {
    MetricsView {
        uptime: Uptime { secs: 0, nanos: 0 },
        cpu_since_boot: Cpu { total: 0, used: 0 },
        cpu_delta: Cpu { total: 0, used: 0 },
        memory: Memory { total: 0, used: 0 },
        swap: Swap { size: 0, used: 0 },
        current_system: None,
    }
}

/// The state that readers see: the published sample and the one before it.
pub struct MetricsState {
    pub nixos_current_system: bool,
    pub last_metrics: Metrics,
    pub metrics: Metrics,
}

pub struct MetricsStateView {
    pub nixos_current_system: bool,
    pub last_metrics: MetricsView,
    pub metrics: MetricsView,
}

impl View for MetricsState {
    type V = MetricsStateView;

    open spec fn view(&self) -> MetricsStateView {
        MetricsStateView {
            nixos_current_system: self.nixos_current_system,
            last_metrics: self.last_metrics@,
            metrics: self.metrics@,
        }
    }
}

/// One refresh: a new sample taken after the published one becomes the
/// published one, and that one becomes the last; where the sample fails,
/// the state stays as it was and the failure is reported.
pub open spec fn spec_refresh(st: MetricsStateView, texts: SourceTextsView) -> (
    MetricsStateView,
    Result<(), MetricError>,
) {
    match spec_get_metrics(st.metrics, texts, st.nixos_current_system) {
        Ok(m) => (
            MetricsStateView {
                nixos_current_system: st.nixos_current_system,
                last_metrics: st.metrics,
                metrics: m,
            },
            Ok(()),
        ),
        Err(e) => (st, Err(e)),
    }
}

/// A refresh that meets a memory-info text that does not parse leaves the
/// state exactly as it was, and reports that one failure.
pub proof fn lemma_malformed_meminfo_keeps_snapshot(st: MetricsStateView, texts: SourceTextsView)
    requires
        texts.meminfo matches Some(t) && spec_parse_meminfo(t) is Err,
    ensures
        spec_refresh(st, texts).0 == st,
        spec_refresh(st, texts).1 == Err::<(), MetricError>(
            MetricError::Parse(Source::MemInfo, spec_parse_meminfo(texts.meminfo->Some_0)->Err_0),
        ),
{
}

impl MetricsState {
    /// The state after the first sample, taken after the all-zero one.
    pub fn new(texts: &SourceTexts, nixos_current_system: bool) -> (r: Result<
        MetricsState,
        MetricError,
    >)
        ensures
            match spec_get_metrics(initial_view(), texts@, nixos_current_system) {
                Ok(m) => r matches Ok(st) && st@ == (MetricsStateView {
                    nixos_current_system,
                    last_metrics: initial_view(),
                    metrics: m,
                }),
                Err(e) => r matches Err(re) && re == e,
            },
    {
        let init = Metrics::default();
        assert(init@ == initial_view());
        match get_metrics(&init, texts, nixos_current_system) {
            Ok(metrics) => Ok(MetricsState { nixos_current_system, last_metrics: init, metrics }),
            Err(e) => Err(e),
        }
    }

    /// Takes a new sample out of the texts and publishes it as a whole; on
    /// failure nothing changes and the failure comes back, once.
    pub fn refresh(&mut self, texts: &SourceTexts) -> (r: Result<(), MetricError>)
        ensures
            (final(self)@, r) == spec_refresh(old(self)@, texts@),
            r is Err ==> *final(self) == *old(self),
            r is Ok ==> final(self).last_metrics == old(self).metrics,
    {
        match get_metrics(&self.metrics, texts, self.nixos_current_system) {
            Ok(m) => {
                let mut m = m;
                std::mem::swap(&mut self.metrics, &mut m);
                self.last_metrics = m;
                Ok(())
            },
            Err(e) => Err(e),
        }
    }

    /// The published sample.
    pub fn snapshot(&self) -> (r: &Metrics)
        ensures
            *r == self.metrics,
    {
        &self.metrics
    }
}

} // verus!
