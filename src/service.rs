//! Requests of the service, as plain values, and the statuses that answer them.
use crate::state::Error;
use vstd::prelude::*;

verus! {

/// Parameters for acquiring a lease: the amount asked of each semaphore, and the time in
/// milliseconds after which the lease may be freed by litter collection.
pub struct PendingAdmissions {
    pub pending: Vec<(String, u32)>,
    pub expires_in: u64,
}

/// Parameters for a heartbeat to a lease: the amount held of each semaphore, and the time in
/// milliseconds after which the lease may be freed by litter collection.
pub struct ActiveAdmissions {
    pub active: Vec<(String, u32)>,
    pub expires_in: u64,
}

/// The first admission of a list, if there is one.
fn first_admission(admissions: &Vec<(String, u32)>) -> (r: Option<(&str, u32)>)
    ensures
        admissions@.len() == 0 ==> r is None,
        admissions@.len() > 0 ==> (r matches Some((s, a)) && s@ == admissions@[0].0@
            && a == admissions@[0].1),
{
    if admissions.len() == 0 {
        None
    } else {
        let e = &admissions[0];
        Some((e.0.as_str(), e.1))
    }
}

impl PendingAdmissions {
    /// The semaphore and amount the request asks for; `None` for an empty request.
    pub fn pending(&self) -> (r: Option<(&str, u32)>)
        ensures
            self.pending@.len() == 0 ==> r is None,
            self.pending@.len() > 0 ==> (r matches Some((s, a)) && s@ == self.pending@[0].0@
                && a == self.pending@[0].1),
    {
        first_admission(&self.pending)
    }
}

impl ActiveAdmissions {
    /// The semaphore and amount the heartbeat is for; `None` for an empty heartbeat.
    pub fn active(&self) -> (r: Option<(&str, u32)>)
        ensures
            self.active@.len() == 0 ==> r is None,
            self.active@.len() > 0 ==> (r matches Some((s, a)) && s@ == self.active@[0].0@
                && a == self.active@[0].1),
    {
        first_admission(&self.active)
    }
}

/// The HTTP status that answers an acquire request: created for an active lease, accepted for a
/// pending one, and the error's own status otherwise.
pub fn acquire_status(result: &Result<(u64, bool), Error>) -> (r: u16)
    ensures
        r == match result {
            Ok((_, true)) => 201u16,
            Ok((_, false)) => 202u16,
            Err(Error::ForeverPending { .. }) => 409u16,
            Err(_) => 400u16,
        },
{
    match result {
        Ok((_, true)) => 201,
        Ok((_, false)) => 202,
        Err(e) => e.status_code(),
    }
}

} // verus!
