//! The time/load simulation behind the fitness evaluator.  A nurse starts at
//! the depot, travels to each patient of her route in order, waits for the
//! time window to open, cares for the patient, and finally returns to the
//! depot; capacity, window and deadline overruns count as constraint breaks.

use vstd::prelude::*;
use crate::instance::TrainData;
use crate::chromosome::genes_in_range;
use crate::{MAX_TIME, MAX_DEMAND, MAX_GENES};

verus! {

/// Simulation state.  `pos`, `time` and `load` belong to the nurse currently
/// under way; `travel`, `breaks` and `overrun` accumulate over all nurses.
pub ghost struct SimState {
    pub pos: int,
    pub time: int,
    pub load: int,
    pub travel: int,
    pub breaks: int,
    pub overrun: int,
}

pub open spec fn max0(x: int) -> int {
    if x > 0 {
        x
    } else {
        0
    }
}

/// The state before any gene is processed: a fresh nurse at the depot.
pub open spec fn init_state() -> SimState {
    SimState { pos: 0, time: 0, load: 0, travel: 0, breaks: 0, overrun: 0 }
}

/// Visit patient `g`: travel there, wait for the window to open if early,
/// care for the patient; a departure after the window end is a break whose
/// magnitude is added to `overrun`.
pub open spec fn visit_step(st: SimState, g: u16, t: &TrainData) -> SimState {
    let tt = t.spec_travel(st.pos, g as int) as int;
    let p = t.spec_patient(g as int);
    let arrive = st.time + tt;
    let begin = if arrive < p.start_time { p.start_time as int } else { arrive };
    let done = begin + p.care_time;
    SimState {
        pos: g as int,
        time: done,
        load: st.load + p.demand,
        travel: st.travel + tt,
        breaks: st.breaks + if done > p.end_time { 1int } else { 0int },
        overrun: st.overrun + max0(done - p.end_time),
    }
}

/// Close the current nurse's route: return to the depot, check the capacity
/// and the return deadline, and hand over to a fresh nurse.
pub open spec fn close_step(st: SimState, t: &TrainData) -> SimState {
    let tt = t.spec_travel(st.pos, 0) as int;
    let back = st.time + tt;
    SimState {
        pos: 0,
        time: 0,
        load: 0,
        travel: st.travel + tt,
        breaks: st.breaks + (if st.load > t.capacity_nurse { 1int } else { 0int }) + (if back
            > t.depot.return_time {
            1int
        } else {
            0int
        }),
        overrun: st.overrun + max0(st.load - t.capacity_nurse) + max0(
            back - t.depot.return_time,
        ),
    }
}

/// One gene: a delimiter closes the route, anything else is a visit.
pub open spec fn gene_step(st: SimState, g: u16, t: &TrainData) -> SimState {
    if g == 0 {
        close_step(st, t)
    } else {
        visit_step(st, g, t)
    }
}

/// Process a gene sequence left to right.
pub open spec fn sim_genes(st: SimState, s: Seq<u16>, t: &TrainData) -> SimState
    decreases s.len(),
{
    if s.len() == 0 {
        st
    } else {
        gene_step(sim_genes(st, s.drop_last(), t), s.last(), t)
    }
}

/// The full simulation of a gene sequence, ending with the final nurse's
/// return to the depot.
pub open spec fn full_sim(s: Seq<u16>, t: &TrainData) -> SimState {
    close_step(sim_genes(init_state(), s, t), t)
}

/// Bounds on the running simulation state, linear in the number of genes
/// already processed; they keep the executable evaluator inside `u64`.
pub open spec fn sim_bounded(st: SimState, steps: int, patients: int) -> bool {
    &&& 0 <= st.pos <= patients
    &&& 0 <= st.time <= 1_000_000 * steps
    &&& 0 <= st.load <= 500_000 * steps
    &&& 0 <= st.travel <= 500_000 * steps
    &&& 0 <= st.breaks <= 2 * steps
    &&& 0 <= st.overrun <= 15_001_000_000 * steps
}

pub proof fn lemma_sim_bounds(s: Seq<u16>, t: &TrainData)
    requires
        t.wf(),
        genes_in_range(s, t.spec_patient_count()),
        s.len() <= MAX_GENES,
    ensures
        sim_bounded(sim_genes(init_state(), s, t), s.len() as int, t.spec_patient_count() as int),
    decreases s.len(),
{
    if s.len() > 0 {
        assert(genes_in_range(s.drop_last(), t.spec_patient_count())) by {
            assert(forall|i: int|
                0 <= i < s.drop_last().len() ==> s.drop_last()[i] == s[i]);
        }
        lemma_sim_bounds(s.drop_last(), t);
        let st = sim_genes(init_state(), s.drop_last(), t);
        let g = s.last();
        let i = s.len() - 1;
        assert(s[i] == g);
        assert(g <= t.spec_patient_count());
        if g == 0 {
            assert(t.spec_travel(st.pos, 0) <= MAX_TIME);
        } else {
            assert(t.spec_travel(st.pos, g as int) <= MAX_TIME);
            let p = t.spec_patient(g as int);
            assert(p.care_time <= MAX_TIME && p.start_time <= MAX_TIME && p.demand <= MAX_DEMAND);
        }
    }
}

/// Bounds after the closing step, against fixed numerals.
pub proof fn lemma_full_sim_bounds(s: Seq<u16>, t: &TrainData)
    requires
        t.wf(),
        genes_in_range(s, t.spec_patient_count()),
        s.len() <= MAX_GENES,
    ensures
        0 <= full_sim(s, t).travel <= 5_000_500_000,
        0 <= full_sim(s, t).breaks <= 20_002,
        0 <= full_sim(s, t).overrun <= 150_025_001_000_000,
    {
    lemma_sim_bounds(s, t);
    let st = sim_genes(init_state(), s, t);
    assert(st.time <= 10_000_000_000);
    assert(st.load <= 5_000_000_000);
    assert(st.travel <= 5_000_000_000);
    assert(st.breaks <= 20_000);
    assert(st.overrun <= 150_010_000_000_000);
    assert(t.spec_travel(st.pos, 0) <= MAX_TIME);
}

/// A run without constraint breaks accumulates no overrun: every overrun
/// contribution comes with a break.
pub proof fn lemma_no_breaks_no_overrun(s: Seq<u16>, t: &TrainData)
    ensures
        sim_genes(init_state(), s, t).breaks >= 0,
        sim_genes(init_state(), s, t).overrun >= 0,
        sim_genes(init_state(), s, t).breaks == 0 ==> sim_genes(init_state(), s, t).overrun == 0,
        full_sim(s, t).breaks == 0 ==> full_sim(s, t).overrun == 0,
    decreases s.len(),
{
    lemma_no_breaks_no_overrun_from(init_state(), s, t);
    let st = sim_genes(init_state(), s, t);
    assert(full_sim(s, t) == close_step(st, t));
}

proof fn lemma_no_breaks_no_overrun_from(st0: SimState, s: Seq<u16>, t: &TrainData)
    requires
        st0.breaks >= 0,
        st0.overrun >= 0,
        st0.breaks == 0 ==> st0.overrun == 0,
    ensures
        sim_genes(st0, s, t).breaks >= st0.breaks,
        sim_genes(st0, s, t).overrun >= 0,
        sim_genes(st0, s, t).breaks == 0 ==> sim_genes(st0, s, t).overrun == 0,
    decreases s.len(),
{
    if s.len() > 0 {
        lemma_no_breaks_no_overrun_from(st0, s.drop_last(), t);
    }
}

/// The executable core of the fitness evaluator: one pass over the genes,
/// returning the cumulative travel time, break count and overrun magnitude
/// of the full simulation (final depot return included).
pub fn eval_core(genes: &Vec<u16>, t: &TrainData) -> (r: (u64, u64, u64))
    requires
        t.wf(),
        genes_in_range(genes@, t.spec_patient_count()),
        genes@.len() <= MAX_GENES,
    ensures
        r.0 == full_sim(genes@, t).travel,
        r.1 == full_sim(genes@, t).breaks,
        r.2 == full_sim(genes@, t).overrun,
{
    let n = genes.len();
    let npat = t.patient_count();
    let mut pos: usize = 0;
    let mut time: u64 = 0;
    let mut load: u64 = 0;
    let mut travel: u64 = 0;
    let mut breaks: u64 = 0;
    let mut overrun: u64 = 0;
    let mut i: usize = 0;
    while i < n
        invariant
            t.wf(),
            genes_in_range(genes@, t.spec_patient_count()),
            n == genes@.len(),
            n <= MAX_GENES,
            npat == t.spec_patient_count(),
            i <= n,
            ({
                let st = sim_genes(init_state(), genes@.take(i as int), t);
                &&& pos == st.pos
                &&& time == st.time
                &&& load == st.load
                &&& travel == st.travel
                &&& breaks == st.breaks
                &&& overrun == st.overrun
            }),
        decreases n - i,
    {
        let ghost pre = genes@.take(i as int);
        let ghost cur = genes@.take(i + 1);
        proof {
            assert(cur.drop_last() =~= pre);
            assert(cur.last() == genes@[i as int]);
            assert(genes_in_range(pre, t.spec_patient_count()) && genes_in_range(
                cur,
                t.spec_patient_count(),
            )) by {
                assert(forall|k: int| 0 <= k < pre.len() ==> pre[k] == genes@[k]);
                assert(forall|k: int| 0 <= k < cur.len() ==> cur[k] == genes@[k]);
            }
            lemma_sim_bounds(pre, t);
            lemma_sim_bounds(cur, t);
        }
        let g = genes[i];
        if g == 0 {
            let tt = t.travel(pos, 0);
            let back = time + tt;
            travel = travel + tt;
            if load > t.capacity_nurse {
                breaks = breaks + 1;
                overrun = overrun + (load - t.capacity_nurse);
            }
            if back > t.depot.return_time {
                breaks = breaks + 1;
                overrun = overrun + (back - t.depot.return_time);
            }
            pos = 0;
            time = 0;
            load = 0;
        } else {
            let tt = t.travel(pos, g as usize);
            let p = t.patient(g);
            travel = travel + tt;
            time = time + tt;
            if time < p.start_time {
                time = p.start_time;
            }
            let care = p.care_time;
            let demand = p.demand;
            let win_end = p.end_time;
            time = time + care;
            load = load + demand;
            if time > win_end {
                breaks = breaks + 1;
                overrun = overrun + (time - win_end);
            }
            pos = g as usize;
        }
        i = i + 1;
    }
    proof {
        assert(genes@.take(n as int) =~= genes@);
        lemma_sim_bounds(genes@, t);
    }
    let tt = t.travel(pos, 0);
    let back = time + tt;
    travel = travel + tt;
    if load > t.capacity_nurse {
        breaks = breaks + 1;
        overrun = overrun + (load - t.capacity_nurse);
    }
    if back > t.depot.return_time {
        breaks = breaks + 1;
        overrun = overrun + (back - t.depot.return_time);
    }
    (travel, breaks, overrun)
}

} // verus!
