use vstd::prelude::*;
use crate::plan::{ceil_div, ConfigError, SegmentPlan, segment_duration_for_size, duration_for_size};
use crate::probe::ProbeError;

verus! {

/// Why a run failed before any segment was scheduled.
#[derive(Debug, Clone, Copy, PartialEq, Eq, Structural)]
pub enum PlanningError {
    Configuration(ConfigError),
    Probe(ProbeError),
}

/// Checks the size limit before anything else is done: the per-segment
/// duration it allows, or the configuration error that stops the run.
pub fn check_configuration(max_segment_size: usize) -> (r: Result<usize, PlanningError>)
    ensures
        duration_for_size(max_segment_size as nat) == 0 ==> r == Err::<usize, PlanningError>(
            PlanningError::Configuration(ConfigError::SegmentTooSmall),
        ),
        duration_for_size(max_segment_size as nat) > 0 ==> r == Ok::<usize, PlanningError>(
            duration_for_size(max_segment_size as nat) as usize,
        ),
{
    match segment_duration_for_size(max_segment_size) {
        Ok(secs) => Ok(secs),
        Err(e) => Err(PlanningError::Configuration(e)),
    }
}

/// Builds the plan from what the probe returned. A failed probe yields no
/// plan, and so no segment is ever cut or transcribed: the run fails before
/// any unit of work exists.
pub fn plan_from_probe(
    segment_duration_secs: usize,
    probed: Result<usize, ProbeError>,
) -> (r: Result<SegmentPlan, PlanningError>)
    requires
        segment_duration_secs > 0,
    ensures
        probed matches Err(e) ==> r == Err::<SegmentPlan, PlanningError>(PlanningError::Probe(e)),
        probed matches Ok(total) ==> (r matches Ok(p) && p.wf() && p.total_duration_secs == total
            && p.segment_duration_secs == segment_duration_secs && p.segment_count as nat
            == ceil_div(total as nat, segment_duration_secs as nat)),
{
    match probed {
        Ok(total) => Ok(SegmentPlan::new(total, segment_duration_secs)),
        Err(e) => Err(PlanningError::Probe(e)),
    }
}

} // verus!
