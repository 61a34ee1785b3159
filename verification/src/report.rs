//! Reporting: the bracketed solution encoding (each nurse's patients in a
//! nested list) and the per-nurse itinerary with arrival and departure times
//! at every stop.

use vstd::prelude::*;
use crate::chromosome::{Chromosome, genes_in_range};
use crate::instance::TrainData;
use crate::helper::{split_spec, split_any, lemma_split_len};
use crate::{MAX_TIME, MAX_DEMAND, MAX_GENES};

verus! {

/// The decimal digit characters.
pub open spec fn digit_char(d: int) -> char {
    if d == 0 {
        '0'
    } else if d == 1 {
        '1'
    } else if d == 2 {
        '2'
    } else if d == 3 {
        '3'
    } else if d == 4 {
        '4'
    } else if d == 5 {
        '5'
    } else if d == 6 {
        '6'
    } else if d == 7 {
        '7'
    } else if d == 8 {
        '8'
    } else {
        '9'
    }
}

/// The decimal rendering of a number, most significant digit first.
pub open spec fn dec_spec(n: int) -> Seq<char>
    decreases n,
{
    if n < 10 {
        seq![digit_char(n)]
    } else {
        dec_spec(n / 10).push(digit_char(n % 10))
    }
}

/// One decimal digit as a string slice.
fn digit_str(d: u64) -> (r: &'static str)
    requires
        d < 10,
    ensures
        r@ == seq![digit_char(d as int)],
{
    if d == 0 {
        proof {
            reveal_strlit("0");
        }
        "0"
    } else if d == 1 {
        proof {
            reveal_strlit("1");
        }
        "1"
    } else if d == 2 {
        proof {
            reveal_strlit("2");
        }
        "2"
    } else if d == 3 {
        proof {
            reveal_strlit("3");
        }
        "3"
    } else if d == 4 {
        proof {
            reveal_strlit("4");
        }
        "4"
    } else if d == 5 {
        proof {
            reveal_strlit("5");
        }
        "5"
    } else if d == 6 {
        proof {
            reveal_strlit("6");
        }
        "6"
    } else if d == 7 {
        proof {
            reveal_strlit("7");
        }
        "7"
    } else if d == 8 {
        proof {
            reveal_strlit("8");
        }
        "8"
    } else {
        proof {
            reveal_strlit("9");
        }
        "9"
    }
}

/// A number rendered in decimal.
pub fn u64_string(n: u64) -> (r: String)
    ensures
        r@ == dec_spec(n as int),
    decreases n,
{
    if n < 10 {
        let mut s = String::new();
        s.append(digit_str(n));
        proof {
            assert(s@ =~= seq![digit_char(n as int)]);
        }
        s
    } else {
        let mut s = u64_string(n / 10);
        s.append(digit_str(n % 10));
        proof {
            assert(s@ =~= dec_spec((n / 10) as int).push(digit_char((n % 10) as int)));
        }
        s
    }
}

/// One route's patients as comma-separated decimals.
pub open spec fn fmt_route(r: Seq<u16>) -> Seq<char>
    decreases r.len(),
{
    if r.len() == 0 {
        Seq::<char>::empty()
    } else if r.len() == 1 {
        dec_spec(r[0] as int)
    } else {
        fmt_route(r.drop_last()) + seq![','] + dec_spec(r.last() as int)
    }
}

/// All routes, each bracketed, separated by commas.
pub open spec fn fmt_routes(rs: Seq<Seq<u16>>) -> Seq<char>
    decreases rs.len(),
{
    if rs.len() == 0 {
        Seq::<char>::empty()
    } else if rs.len() == 1 {
        fmt_route(rs[0])
    } else {
        fmt_routes(rs.drop_last()) + seq![']', ',', '['] + fmt_route(rs.last())
    }
}

/// The serialized solution encoding: each route's patients bracketed, all
/// inside one outer bracket pair.
pub open spec fn fmt_chromosome(s: Seq<u16>) -> Seq<char> {
    seq!['[', '['] + fmt_routes(split_spec(s)) + seq![']', ']']
}

/// Serialize a chromosome into the bracketed route-list text.
pub fn format_genes(chromosome: &Chromosome) -> (r: String)
    ensures
        r@ == fmt_chromosome(chromosome@),
{
    let ghost rs = split_spec(chromosome@);
    proof {
        lemma_split_len(chromosome@);
    }
    let split = split_any(chromosome);
    let mut out = String::new();
    proof {
        reveal_strlit("[[");
        reveal_strlit("],[");
        reveal_strlit(",");
        reveal_strlit("]]");
    }
    out.append("[[");
    let n = split.len();
    let mut k: usize = 0;
    while k < n
        invariant
            n == split@.len(),
            n == rs.len(),
            n >= 1,
            forall|i: int| 0 <= i < n ==> (#[trigger] split@[i])@ == rs[i],
            k <= n,
            out@ == seq!['[', '['] + fmt_routes(rs.take(k as int)) + if k == 0 || k == n {
                Seq::<char>::empty()
            } else {
                seq![']', ',', '[']
            },
        decreases n - k,
    {
        proof {
            reveal_strlit("[[");
            reveal_strlit("],[");
            reveal_strlit(",");
        }
        let route = &split[k];
        let m = route.len();
        let ghost base = out@;
        let mut j: usize = 0;
        while j < m
            invariant
                m == route@.len(),
                j <= m,
                route@ == rs[k as int],
                k < rs.len(),
                out@ == base + fmt_route(route@.take(j as int)) + if j == 0 || j == m {
                    Seq::<char>::empty()
                } else {
                    seq![',']
                },
            decreases m - j,
        {
            proof {
                reveal_strlit(",");
            }
            let num = u64_string(route[j] as u64);
            out.append(num.as_str());
            proof {
                assert(route@.take(j + 1).drop_last() =~= route@.take(j as int));
                assert(route@.take(j + 1).last() == route@[j as int]);
                if j == 0 {
                    assert(route@.take(1) =~= seq![route@[0]]);
                    assert(fmt_route(route@.take(1)) == dec_spec(route@[0] as int));
                    assert(out@ =~= base + fmt_route(route@.take(1)));
                } else {
                    assert(fmt_route(route@.take(j + 1)) == fmt_route(route@.take(j as int)) + seq![
                        ',',
                    ] + dec_spec(route@[j as int] as int));
                    assert(out@ =~= base + fmt_route(route@.take(j + 1)));
                }
            }
            if j + 1 < m {
                out.append(",");
                proof {
                    assert(out@ =~= base + fmt_route(route@.take(j + 1)) + seq![',']);
                }
            }
            j = j + 1;
        }
        proof {
            assert(route@.take(m as int) =~= route@);
        }
        if k + 1 < n {
            out.append("],[");
        }
        proof {
            assert(rs.take(k + 1).drop_last() =~= rs.take(k as int));
            assert(rs.take(k + 1).last() == rs[k as int]);
            if k == 0 {
                assert(rs.take(1) =~= seq![rs[0]]);
                assert(fmt_routes(rs.take(1)) == fmt_route(rs[0]));
                if k + 1 < n {
                    assert(out@ =~= seq!['[', '['] + fmt_routes(rs.take(1)) + seq![']', ',', '[']);
                } else {
                    assert(out@ =~= seq!['[', '['] + fmt_routes(rs.take(1)));
                }
            } else {
                assert(fmt_routes(rs.take(k + 1)) == fmt_routes(rs.take(k as int)) + seq![
                    ']',
                    ',',
                    '[',
                ] + fmt_route(rs[k as int]));
                if k + 1 < n {
                    assert(out@ =~= seq!['[', '['] + fmt_routes(rs.take(k + 1)) + seq![
                        ']',
                        ',',
                        '[',
                    ]);
                } else {
                    assert(out@ =~= seq!['[', '['] + fmt_routes(rs.take(k + 1)));
                }
            }
        }
        k = k + 1;
    }
    proof {
        assert(rs.take(n as int) =~= rs);
        reveal_strlit("]]");
    }
    out.append("]]");
    proof {
        assert(out@ =~= fmt_chromosome(chromosome@));
    }
    out
}


/// The itinerary simulation of the report: unlike the fitness evaluator it
/// never waits for a window to open, it simply adds travel and care times.
pub ghost struct RepState {
    pub time: int,
    pub prev: int,
    pub travel: int,
    pub demand: int,
}

pub open spec fn rep_init() -> RepState {
    RepState { time: 0, prev: 0, travel: 0, demand: 0 }
}

pub open spec fn rep_step(st: RepState, g: u16, t: &TrainData) -> RepState {
    let tt = t.spec_travel(st.prev, g as int) as int;
    let p = t.spec_patient(g as int);
    RepState {
        time: st.time + tt + p.care_time,
        prev: g as int,
        travel: st.travel + tt,
        demand: st.demand + p.demand,
    }
}

pub open spec fn rep_fold(r: Seq<u16>, t: &TrainData) -> RepState
    decreases r.len(),
{
    if r.len() == 0 {
        rep_init()
    } else {
        rep_step(rep_fold(r.drop_last(), t), r.last(), t)
    }
}

/// Arrival time at the `i`-th stop of a route.
pub open spec fn stop_arrival(r: Seq<u16>, i: int, t: &TrainData) -> int {
    rep_fold(r.take(i), t).time + t.spec_travel(rep_fold(r.take(i), t).prev, r[i] as int)
}

/// Departure time from the `i`-th stop of a route.
pub open spec fn stop_departure(r: Seq<u16>, i: int, t: &TrainData) -> int {
    stop_arrival(r, i, t) + t.spec_patient(r[i] as int).care_time
}

/// A route's completion time: back at the depot, or zero for an idle nurse.
pub open spec fn route_time_spec(r: Seq<u16>, t: &TrainData) -> int {
    if r.len() == 0 {
        0
    } else {
        rep_fold(r, t).time + t.spec_travel(rep_fold(r, t).prev, 0)
    }
}

/// A route's travel time including the return leg (zero for an idle nurse).
pub open spec fn route_travel_spec(r: Seq<u16>, t: &TrainData) -> int {
    if r.len() == 0 {
        0
    } else {
        rep_fold(r, t).travel + t.spec_travel(rep_fold(r, t).prev, 0)
    }
}

/// Total travel over a route list.
pub open spec fn total_travel_spec(rs: Seq<Seq<u16>>, t: &TrainData) -> int
    decreases rs.len(),
{
    if rs.len() == 0 {
        0
    } else {
        total_travel_spec(rs.drop_last(), t) + route_travel_spec(rs.last(), t)
    }
}

/// One stop of a nurse's itinerary.
pub struct StopReport {
    pub id: u16,
    pub arrival: u64,
    pub departure: u64,
    pub window_start: u64,
    pub window_end: u64,
}

/// One nurse's itinerary: completion time, total demand, and the stops.
pub struct RouteReport {
    pub route_time: u64,
    pub demand: u64,
    pub stops: Vec<StopReport>,
}

/// The report row of one route is faithful to the itinerary simulation.
pub open spec fn row_matches(row: RouteReport, r: Seq<u16>, t: &TrainData) -> bool {
    &&& row.stops@.len() == r.len()
    &&& row.route_time == route_time_spec(r, t)
    &&& row.demand == rep_fold(r, t).demand
    &&& forall|i: int|
        0 <= i < r.len() ==> {
            let stop = #[trigger] row.stops@[i];
            &&& stop.id == r[i]
            &&& stop.arrival == stop_arrival(r, i, t)
            &&& stop.departure == stop_departure(r, i, t)
            &&& stop.window_start == t.spec_patient(r[i] as int).start_time
            &&& stop.window_end == t.spec_patient(r[i] as int).end_time
        }
}

proof fn lemma_rep_bounds(r: Seq<u16>, t: &TrainData)
    requires
        t.wf(),
        forall|i: int| 0 <= i < r.len() ==> 1 <= (#[trigger] r[i]) <= t.spec_patient_count(),
        r.len() <= MAX_GENES,
    ensures
        0 <= rep_fold(r, t).time <= 1_000_000 * r.len(),
        0 <= rep_fold(r, t).travel <= 500_000 * r.len(),
        0 <= rep_fold(r, t).demand <= 500_000 * r.len(),
        0 <= rep_fold(r, t).prev <= t.spec_patient_count(),
    decreases r.len(),
{
    if r.len() > 0 {
        assert(forall|i: int|
            0 <= i < r.drop_last().len() ==> 1 <= (#[trigger] r.drop_last()[i])
                <= t.spec_patient_count());
        lemma_rep_bounds(r.drop_last(), t);
        let st = rep_fold(r.drop_last(), t);
        assert(t.spec_travel(st.prev, r.last() as int) <= MAX_TIME);
        assert(t.spec_patient(r.last() as int).care_time <= MAX_TIME);
        assert(t.spec_patient(r.last() as int).demand <= MAX_DEMAND);
    }
}

/// One nurse's itinerary row, together with the route's travel time.
fn route_report(route: &Vec<u16>, t_data: &TrainData) -> (r: (RouteReport, u64))
    requires
        t_data.wf(),
        forall|i: int|
            0 <= i < route@.len() ==> 1 <= (#[trigger] route@[i]) <= t_data.spec_patient_count(),
        route@.len() <= MAX_GENES,
    ensures
        row_matches(r.0, route@, t_data),
        r.1 == route_travel_spec(route@, t_data),
{
    let m = route.len();
    let mut stops: Vec<StopReport> = Vec::new();
    let mut time: u64 = 0;
    let mut prev: u16 = 0;
    let mut travel: u64 = 0;
    let mut demand: u64 = 0;
    let mut i: usize = 0;
    while i < m
        invariant
            t_data.wf(),
            m == route@.len(),
            m <= MAX_GENES,
            forall|k: int|
                0 <= k < route@.len() ==> 1 <= (#[trigger] route@[k])
                    <= t_data.spec_patient_count(),
            i <= m,
            stops@.len() == i,
            ({
                let st = rep_fold(route@.take(i as int), t_data);
                &&& time == st.time
                &&& prev == st.prev
                &&& travel == st.travel
                &&& demand == st.demand
            }),
            forall|k: int|
                0 <= k < i ==> {
                    let stop = #[trigger] stops@[k];
                    &&& stop.id == route@[k]
                    &&& stop.arrival == stop_arrival(route@, k, t_data)
                    &&& stop.departure == stop_departure(route@, k, t_data)
                    &&& stop.window_start == t_data.spec_patient(route@[k] as int).start_time
                    &&& stop.window_end == t_data.spec_patient(route@[k] as int).end_time
                },
        decreases m - i,
    {
        proof {
            assert(route@.take(i + 1).drop_last() =~= route@.take(i as int));
            assert(route@.take(i + 1).last() == route@[i as int]);
            assert(forall|k: int|
                0 <= k < i + 1 ==> 1 <= (#[trigger] route@.take(i + 1)[k])
                    <= t_data.spec_patient_count());
            assert(forall|k: int|
                0 <= k < i ==> 1 <= (#[trigger] route@.take(i as int)[k])
                    <= t_data.spec_patient_count());
            lemma_rep_bounds(route@.take(i + 1), t_data);
            lemma_rep_bounds(route@.take(i as int), t_data);
        }
        let g = route[i];
        let tt = t_data.travel(prev as usize, g as usize);
        let p = t_data.patient(g);
        let arrival = time + tt;
        let departure = arrival + p.care_time;
        stops.push(
            StopReport {
                id: g,
                arrival,
                departure,
                window_start: p.start_time,
                window_end: p.end_time,
            },
        );
        time = departure;
        travel = travel + tt;
        demand = demand + p.demand;
        prev = g;
        proof {
            assert(stop_arrival(route@, i as int, t_data) == arrival);
        }
        i = i + 1;
    }
    proof {
        assert(route@.take(m as int) =~= route@);
        lemma_rep_bounds(route@, t_data);
    }
    let route_time: u64 = if m == 0 {
        0
    } else {
        time + t_data.travel(prev as usize, 0)
    };
    let route_travel: u64 = if m == 0 {
        0
    } else {
        travel + t_data.travel(prev as usize, 0)
    };
    (RouteReport { route_time, demand, stops }, route_travel)
}

/// `route_pos` never lies before the in-route position.
proof fn lemma_route_pos_ge(rs: Seq<Seq<u16>>, i: int, p: int)
    requires
        0 <= i < rs.len(),
        0 <= p < rs[i].len(),
    ensures
        crate::helper::route_pos(rs, i, p) >= p,
    decreases rs.len(),
{
    if rs.len() > 1 && i < rs.len() - 1 {
        lemma_route_pos_ge(rs.drop_last(), i, p);
    }
}

proof fn lemma_total_travel_bound(rs: Seq<Seq<u16>>, t: &TrainData)
    requires
        t.wf(),
        forall|i: int, j: int|
            0 <= i < rs.len() && 0 <= j < rs[i].len() ==> 1 <= (#[trigger] rs[i][j])
                <= t.spec_patient_count(),
        forall|i: int| 0 <= i < rs.len() ==> (#[trigger] rs[i]).len() <= MAX_GENES,
        rs.len() <= MAX_GENES + 1,
    ensures
        0 <= total_travel_spec(rs, t) <= rs.len() * 5_000_500_000,
    decreases rs.len(),
{
    if rs.len() > 0 {
        assert(forall|i: int, j: int|
            0 <= i < rs.drop_last().len() && 0 <= j < rs.drop_last()[i].len() ==> rs.drop_last(
            )[i][j] == rs[i][j]);
        assert(forall|i: int|
            0 <= i < rs.drop_last().len() ==> (#[trigger] rs.drop_last()[i]) == rs[i]);
        lemma_total_travel_bound(rs.drop_last(), t);
        let last = rs.last();
        assert(forall|j: int|
            0 <= j < last.len() ==> 1 <= (#[trigger] last[j]) <= t.spec_patient_count());
        lemma_rep_bounds(last, t);
        if last.len() > 0 {
            assert(t.spec_travel(rep_fold(last, t).prev, 0) <= MAX_TIME);
        }
    }
}

/// The full itinerary of a solution: one row per nurse, and the total
/// travel time over all routes (return legs included).
pub fn solution_report(solution: &Chromosome, t_data: &TrainData) -> (r: (Vec<RouteReport>, u64))
    requires
        t_data.wf(),
        solution@.len() <= MAX_GENES,
        forall|i: int|
            0 <= i < solution@.len() ==> (#[trigger] solution@[i]) <= t_data.spec_patient_count(),
    ensures
        r.0@.len() == split_spec(solution@).len(),
        forall|i: int|
            0 <= i < r.0@.len() ==> row_matches(
                #[trigger] r.0@[i],
                split_spec(solution@)[i],
                t_data,
            ),
        r.1 == total_travel_spec(split_spec(solution@), t_data),
{
    let ghost rs = split_spec(solution@);
    let split = split_any(solution);
    proof {
        crate::helper::lemma_split_wf(solution@);
        crate::helper::lemma_join_split(solution@);
    }
    let mut rows: Vec<RouteReport> = Vec::new();
    let mut total: u64 = 0;
    let n = split.len();
    let mut k: usize = 0;
    while k < n
        invariant
            t_data.wf(),
            n == split@.len(),
            n == rs.len(),
            rs == split_spec(solution@),
            solution@.len() <= MAX_GENES,
            forall|i: int|
                0 <= i < solution@.len() ==> (#[trigger] solution@[i])
                    <= t_data.spec_patient_count(),
            crate::helper::routes_wf(rs),
            crate::helper::join_spec(rs) == solution@,
            forall|i: int| 0 <= i < n ==> (#[trigger] split@[i])@ == rs[i],
            k <= n,
            rows@.len() == k,
            forall|i: int|
                0 <= i < k ==> row_matches(#[trigger] rows@[i], rs[i], t_data),
            total == total_travel_spec(rs.take(k as int), t_data),
        decreases n - k,
    {
        proof {
            assert forall|j: int| 0 <= j < rs[k as int].len() implies 1 <= (
            #[trigger] rs[k as int][j]) <= t_data.spec_patient_count() by {
                crate::helper::lemma_route_pos(rs, k as int, j);
                assert(solution@[crate::helper::route_pos(rs, k as int, j)] == rs[k as int][j]);
            }
            assert(rs[k as int].len() <= solution@.len()) by {
                if rs[k as int].len() > 0 {
                    crate::helper::lemma_route_pos(rs, k as int, rs[k as int].len() - 1);
                    lemma_route_pos_ge(rs, k as int, rs[k as int].len() - 1);
                }
            }
            lemma_rep_bounds(rs[k as int], t_data);
            assert(forall|i: int, j: int|
                0 <= i < rs.take(k as int).len() && 0 <= j < rs.take(k as int)[i].len()
                    ==> rs.take(k as int)[i][j] == rs[i][j]);
            assert(forall|i: int|
                0 <= i < rs.take(k as int).len() ==> (#[trigger] rs.take(k as int)[i]) == rs[i]);
            assert(forall|i: int, j: int|
                0 <= i < rs.len() && 0 <= j < rs[i].len() ==> 1 <= (#[trigger] rs[i][j])
                    <= t_data.spec_patient_count()) by {
                assert forall|i: int, j: int|
                    0 <= i < rs.len() && 0 <= j < rs[i].len() implies 1 <= (#[trigger] rs[i][j])
                    <= t_data.spec_patient_count() by {
                    crate::helper::lemma_route_pos(rs, i, j);
                    assert(solution@[crate::helper::route_pos(rs, i, j)] == rs[i][j]);
                }
            }
            assert(forall|i: int| 0 <= i < rs.len() ==> (#[trigger] rs[i]).len() <= MAX_GENES) by {
                assert forall|i: int|
                    0 <= i < rs.len() implies (#[trigger] rs[i]).len() <= MAX_GENES by {
                    if rs[i].len() > 0 {
                        crate::helper::lemma_route_pos(rs, i, rs[i].len() - 1);
                        lemma_route_pos_ge(rs, i, rs[i].len() - 1);
                    }
                }
            }
            assert(rs.len() <= MAX_GENES + 1) by {
                crate::helper::lemma_join_total_len(rs);
                crate::helper::lemma_routes_total_len_nonneg(rs);
            }
            lemma_total_travel_bound(rs.take(k as int), t_data);
            lemma_total_travel_bound(rs.take(k + 1), t_data);
            assert(rs.take(k + 1).drop_last() =~= rs.take(k as int));
            assert(rs.take(k + 1).last() == rs[k as int]);
        }
        let rr = route_report(&split[k], t_data);
        total = total + rr.1;
        rows.push(rr.0);
        k = k + 1;
    }
    proof {
        assert(rs.take(n as int) =~= rs);
    }
    (rows, total)
}


/// The rendering of one stop: identifier, arrival and departure, and the
/// time window.
pub open spec fn fmt_stop_text(r: Seq<u16>, i: int, t: &TrainData) -> Seq<char> {
    "->"@ + dec_spec(r[i] as int) + "("@ + dec_spec(stop_arrival(r, i, t)) + "-"@ + dec_spec(
        stop_departure(r, i, t),
    ) + ")["@ + dec_spec(t.spec_patient(r[i] as int).start_time as int) + "-"@ + dec_spec(
        t.spec_patient(r[i] as int).end_time as int,
    ) + "]"@
}

/// The first `n` stops of a route, rendered in order.
pub open spec fn fmt_stops_text(r: Seq<u16>, t: &TrainData, n: int) -> Seq<char>
    decreases n,
{
    if n <= 0 {
        Seq::<char>::empty()
    } else {
        fmt_stops_text(r, t, n - 1) + fmt_stop_text(r, n - 1, t)
    }
}

/// One nurse's itinerary line: completion time, demand, and the path from
/// the depot through every stop and back.
pub open spec fn fmt_nurse_text(k: int, r: Seq<u16>, t: &TrainData) -> Seq<char> {
    "Nurse "@ + dec_spec(k) + "\t"@ + dec_spec(route_time_spec(r, t)) + "\t"@ + dec_spec(
        rep_fold(r, t).demand,
    ) + "\tD(0)"@ + fmt_stops_text(r, t, r.len() as int) + (if r.len() > 0 {
        "->D("@ + dec_spec(route_time_spec(r, t)) + ")"@
    } else {
        Seq::<char>::empty()
    }) + "\n"@
}

/// The first `k` nurse lines.
pub open spec fn fmt_nurse_lines(rs: Seq<Seq<u16>>, t: &TrainData, k: int) -> Seq<char>
    decreases k,
{
    if k <= 0 {
        Seq::<char>::empty()
    } else {
        fmt_nurse_lines(rs, t, k - 1) + fmt_nurse_text(k - 1, rs[k - 1], t)
    }
}

/// The whole itinerary report of a solution.
pub open spec fn report_text(s: Seq<u16>, t: &TrainData) -> Seq<char> {
    "Nurse capacity: "@ + dec_spec(t.capacity_nurse as int) + "\n"@ + "Depot return time: "@
        + dec_spec(t.depot.return_time as int) + "\n"@
        + "-------------------------------------------\n"@ + fmt_nurse_lines(
        split_spec(s),
        t,
        split_spec(s).len() as int,
    ) + "------------------------------------------------------------------\n"@
        + "Objective value (total travel time): "@ + dec_spec(
        total_travel_spec(split_spec(s), t),
    )
}

/// Render one stop of a route.
fn render_stop(stop: &StopReport, Ghost(route): Ghost<Seq<u16>>, i: usize, t_data: &TrainData) -> (r:
    String)
    requires
        i < route.len(),
        stop.id == route[i as int],
        stop.arrival == stop_arrival(route, i as int, t_data),
        stop.departure == stop_departure(route, i as int, t_data),
        stop.window_start == t_data.spec_patient(route[i as int] as int).start_time,
        stop.window_end == t_data.spec_patient(route[i as int] as int).end_time,
    ensures
        r@ == fmt_stop_text(route, i as int, t_data),
{
    let mut out = String::new();
    out.append("->");
    let id = u64_string(stop.id as u64);
    out.append(id.as_str());
    out.append("(");
    let arr = u64_string(stop.arrival);
    out.append(arr.as_str());
    out.append("-");
    let dep = u64_string(stop.departure);
    out.append(dep.as_str());
    out.append(")[");
    let ws = u64_string(stop.window_start);
    out.append(ws.as_str());
    out.append("-");
    let we = u64_string(stop.window_end);
    out.append(we.as_str());
    out.append("]");
    proof {
        assert(out@ =~= fmt_stop_text(route, i as int, t_data));
    }
    out
}

/// Render one nurse's itinerary line.
fn render_nurse_line(k: usize, row: &RouteReport, Ghost(route): Ghost<Seq<u16>>, t_data: &TrainData) -> (r:
    String)
    requires
        row_matches(*row, route, t_data),
    ensures
        r@ == fmt_nurse_text(k as int, route, t_data),
{
    let mut out = String::new();
    out.append("Nurse ");
    let nurse_no = u64_string(k as u64);
    out.append(nurse_no.as_str());
    out.append("\t");
    let rt = u64_string(row.route_time);
    out.append(rt.as_str());
    out.append("\t");
    let dem = u64_string(row.demand);
    out.append(dem.as_str());
    out.append("\tD(0)");
    let ghost base = out@;
    let m = row.stops.len();
    let mut j: usize = 0;
    while j < m
        invariant
            row_matches(*row, route, t_data),
            m == row.stops@.len(),
            j <= m,
            out@ == base + fmt_stops_text(route, t_data, j as int),
        decreases m - j,
    {
        let piece = render_stop(&row.stops[j], Ghost(route), j, t_data);
        out.append(piece.as_str());
        proof {
            assert(out@ =~= base + (fmt_stops_text(route, t_data, j as int) + fmt_stop_text(
                route,
                j as int,
                t_data,
            )));
        }
        j = j + 1;
    }
    if m > 0 {
        out.append("->D(");
        let rt2 = u64_string(row.route_time);
        out.append(rt2.as_str());
        out.append(")");
    }
    out.append("\n");
    proof {
        assert(out@ =~= fmt_nurse_text(k as int, route, t_data));
    }
    out
}

/// The human-readable itinerary report: one line per nurse with completion
/// time, carried demand and the stop-by-stop path, then the total travel
/// time.  Every number shown comes from the itinerary simulation behind
/// [`solution_report`].
pub fn gen_solution_string(solution: &Chromosome, t_data: &TrainData) -> (r: String)
    requires
        t_data.wf(),
        solution@.len() <= MAX_GENES,
        forall|i: int|
            0 <= i < solution@.len() ==> (#[trigger] solution@[i]) <= t_data.spec_patient_count(),
    ensures
        r@ == report_text(solution@, t_data),
{
    let ghost rs = split_spec(solution@);
    let report = solution_report(solution, t_data);
    let rows = report.0;
    let total = report.1;
    let mut out = String::new();
    out.append("Nurse capacity: ");
    let cap = u64_string(t_data.capacity_nurse);
    out.append(cap.as_str());
    out.append("\n");
    out.append("Depot return time: ");
    let ret = u64_string(t_data.depot.return_time);
    out.append(ret.as_str());
    out.append("\n");
    out.append("-------------------------------------------\n");
    let ghost header = out@;
    let n = rows.len();
    let mut k: usize = 0;
    while k < n
        invariant
            n == rows@.len(),
            n == rs.len(),
            rs == split_spec(solution@),
            t_data.wf(),
            forall|i: int| 0 <= i < n ==> row_matches(#[trigger] rows@[i], rs[i], t_data),
            k <= n,
            out@ == header + fmt_nurse_lines(rs, t_data, k as int),
        decreases n - k,
    {
        let line = render_nurse_line(k, &rows[k], Ghost(rs[k as int]), t_data);
        out.append(line.as_str());
        proof {
            assert(out@ =~= header + (fmt_nurse_lines(rs, t_data, k as int) + fmt_nurse_text(
                k as int,
                rs[k as int],
                t_data,
            )));
        }
        k = k + 1;
    }
    out.append("------------------------------------------------------------------\n");
    out.append("Objective value (total travel time): ");
    let tv = u64_string(total);
    out.append(tv.as_str());
    proof {
        assert(out@ =~= report_text(solution@, t_data));
    }
    out
}

} // verus!
