//! The in-memory model of a problem instance: nurses, patients with time
//! windows, and the symmetric travel-time matrix (location 0 is the depot).
//! All quantities are unsigned integers; the well-formedness predicate bounds
//! them so that every simulation below stays inside `u64`.

use vstd::prelude::*;
use crate::{MAX_PATIENTS, MAX_NURSES, MAX_TIME, MAX_DEMAND};

verus! {

/// The depot every nurse starts from and returns to.
#[derive(Clone, Debug)]
pub struct Depot {
    pub return_time: u64,
    pub x_coord: i32,
    pub y_coord: i32,
}

/// One patient: service demand, care duration, time window and coordinates.
#[derive(Clone, Debug)]
pub struct Patient {
    pub care_time: u64,
    pub demand: u64,
    pub end_time: u64,
    pub start_time: u64,
    pub x_coord: i32,
    pub y_coord: i32,
}

/// A problem instance.  Patient identifier `p` (with `1 <= p`) is described
/// by `patients[p - 1]`; row and column 0 of `travel_times` belong to the
/// depot.  Immutable for the whole run.
#[derive(Clone, Debug)]
pub struct TrainData {
    pub instance_name: String,
    pub nbr_nurses: usize,
    pub capacity_nurse: u64,
    pub depot: Depot,
    pub patients: Vec<Patient>,
    pub travel_times: Vec<Vec<u64>>,
}

impl TrainData {
    /// Number of patients.
    pub open spec fn spec_patient_count(&self) -> nat {
        self.patients@.len()
    }

    /// Well-formedness: counts within the global caps, the travel matrix
    /// square of side `patient_count + 1`, and every time, demand and window
    /// bound below the caps (with each care time inside its window end).
    pub open spec fn wf(&self) -> bool {
        &&& 1 <= self.nbr_nurses <= MAX_NURSES
        &&& self.patients@.len() <= MAX_PATIENTS
        &&& self.depot.return_time <= MAX_TIME
        &&& self.travel_times@.len() == self.patients@.len() + 1
        &&& forall|i: int| 0 <= i < self.travel_times@.len()
            ==> (#[trigger] self.travel_times@[i])@.len() == self.patients@.len() + 1
        &&& forall|i: int, j: int|
            0 <= i < self.travel_times@.len() && 0 <= j < self.travel_times@.len()
                ==> (#[trigger] self.travel_times@[i]@[j]) <= MAX_TIME
        &&& forall|p: int| 0 <= p < self.patients@.len() ==> {
            let pa = #[trigger] self.patients@[p];
            &&& pa.care_time <= MAX_TIME
            &&& pa.start_time <= MAX_TIME
            &&& pa.end_time <= MAX_TIME
            &&& pa.care_time <= pa.end_time
            &&& pa.demand <= MAX_DEMAND
        }
    }

    /// Travel time between two locations (0 is the depot).
    pub open spec fn spec_travel(&self, from: int, to: int) -> u64 {
        self.travel_times@[from]@[to]
    }

    /// The patient with identifier `p` (1-based).
    pub open spec fn spec_patient(&self, p: int) -> Patient {
        self.patients@[p - 1]
    }

    pub fn patient_count(&self) -> (r: usize)
        ensures
            r == self.spec_patient_count(),
    {
        self.patients.len()
    }

    /// Travel time lookup.
    pub fn travel(&self, from: usize, to: usize) -> (r: u64)
        requires
            self.wf(),
            from <= self.spec_patient_count(),
            to <= self.spec_patient_count(),
        ensures
            r == self.spec_travel(from as int, to as int),
            r <= MAX_TIME,
    {
        self.travel_times[from][to]
    }

    /// Patient lookup by identifier.
    pub fn patient(&self, p: u16) -> (r: &Patient)
        requires
            self.wf(),
            1 <= p <= self.spec_patient_count(),
        ensures
            *r == self.spec_patient(p as int),
            r.care_time <= MAX_TIME,
            r.start_time <= MAX_TIME,
            r.end_time <= MAX_TIME,
            r.care_time <= r.end_time,
            r.demand <= MAX_DEMAND,
    {
        &self.patients[(p - 1) as usize]
    }
}

} // verus!
