use vstd::prelude::*;
use std::sync::Arc;
use std::sync::atomic::AtomicBool;

verus! {

/// What the health endpoints read: whether the controller is up and ready.
#[derive(Clone)]
pub struct HealthState {
    pub ready: Arc<AtomicBool>,
}

/// The liveness probe's status code: the process answers, so always 200.
pub fn liveness_status() -> (code: u16)
    ensures
        code == 200,
{
    200
}

/// The readiness probe's status code: 200 when ready, 503 (service unavailable) when not.
pub fn readiness_status(ready: bool) -> (code: u16)
    ensures
        code == (if ready {
            200u16
        } else {
            503u16
        }),
{
    if ready {
        200
    } else {
        503
    }
}

} // verus!
