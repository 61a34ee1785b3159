//! Mutation operators.  In-route operators perturb one randomly chosen
//! nurse's sub-route, cross-route operators move genes between two distinct
//! sub-routes, and the whole-chromosome operators act on a random sub-range
//! of the full encoding.  Every operator preserves the gene multiset, so a
//! valid chromosome stays valid.

use vstd::prelude::*;
use vstd::pervasive::VecAdditionalExecFns;
use rand_chacha::ChaCha8Rng;
use crate::chromosome::{Chromosome, distinct_patients, copy_genes};
use crate::helper::{
    split_spec, join_spec, split_any, combine_into_chromo, views, routes_ms, routes_wf,
    lemma_split_len, lemma_split_wf, lemma_join_split, lemma_split_join, lemma_join_ms_eq,
    lemma_routes_ms_update, lemma_routes_ms_update2, lemma_route_elems_distinct, lemma_update_ms,
    lemma_swap_ms, lemma_move_ms, lemma_reverse_ms, lemma_insert_ms, lemma_ms_remove_counts,
    lemma_ms_insert_counts, hamming_spec, lemma_hamming_properties, lemma_hamming_double,
    lemma_join_update_index, lemma_route_pos_update, lemma_route_pos, lemma_route_pos_mono,
    route_pos,
};
use crate::rng::{rng_below, rng_coin, rng_shuffle};

verus! {

/// Probabilities are expressed in thousandths of certainty.
pub const CHANCE_UNIT: u32 = 1000;

/// Some route of the chromosome holds at least `m` genes.
pub open spec fn some_route_with(s: Seq<u16>, m: int) -> bool {
    exists|i: int| 0 <= i < split_spec(s).len() && split_spec(s)[i].len() >= m
}

/// Number of non-empty routes.
pub open spec fn nonempty_routes(rs: Seq<Seq<u16>>) -> int
    decreases rs.len(),
{
    if rs.len() == 0 {
        0
    } else {
        nonempty_routes(rs.drop_last()) + if rs.last().len() > 0 {
            1int
        } else {
            0int
        }
    }
}

proof fn lemma_nonempty_routes_bound(rs: Seq<Seq<u16>>, j: int)
    requires
        forall|i: int| 0 <= i < rs.len() && i != j ==> (#[trigger] rs[i]).len() == 0,
    ensures
        nonempty_routes(rs) <= 1,
    decreases rs.len(),
{
    if rs.len() > 0 {
        if j == rs.len() - 1 {
            assert(forall|i: int|
                0 <= i < rs.drop_last().len() ==> (#[trigger] rs.drop_last()[i]).len() == 0);
            lemma_nonempty_routes_zero(rs.drop_last());
        } else {
            lemma_nonempty_routes_bound(rs.drop_last(), j);
            assert(rs.last().len() == 0);
        }
    }
}

proof fn lemma_nonempty_routes_zero(rs: Seq<Seq<u16>>)
    requires
        forall|i: int| 0 <= i < rs.len() ==> (#[trigger] rs[i]).len() == 0,
    ensures
        nonempty_routes(rs) == 0,
    decreases rs.len(),
{
    if rs.len() > 0 {
        lemma_nonempty_routes_zero(rs.drop_last());
    }
}

/// Exchanging the routes of a chromosome for a reordered list with the same
/// summed multiset keeps the chromosome's gene multiset.
proof fn lemma_rejoin_ms(old_s: Seq<u16>, rs2: Seq<Seq<u16>>, new_s: Seq<u16>)
    requires
        rs2.len() == split_spec(old_s).len(),
        routes_ms(rs2) == routes_ms(split_spec(old_s)),
        new_s == join_spec(rs2),
    ensures
        new_s.to_multiset() == old_s.to_multiset(),
{
    lemma_split_len(old_s);
    lemma_join_ms_eq(split_spec(old_s), rs2);
    lemma_join_split(old_s);
}

/// A route list that differs from the chromosome's own joins into a
/// different chromosome.
proof fn lemma_rejoin_changed(old_s: Seq<u16>, rs2: Seq<Seq<u16>>, new_s: Seq<u16>)
    requires
        routes_wf(rs2),
        rs2 != split_spec(old_s),
        new_s == join_spec(rs2),
    ensures
        new_s != old_s,
{
    if new_s == old_s {
        lemma_split_join(rs2);
        assert(split_spec(old_s) == rs2);
        assert(false);
    }
}

/// The split of a chromosome, as sequence views.
proof fn lemma_views_split(split: Seq<Vec<u16>>, s: Seq<u16>)
    requires
        split.len() == split_spec(s).len(),
        forall|i: int| 0 <= i < split.len() ==> (#[trigger] split[i])@ == split_spec(s)[i],
    ensures
        views(split) == split_spec(s),
{
    assert forall|i: int| 0 <= i < split.len() implies (#[trigger] views(split)[i]) == split_spec(
        s,
    )[i] by {
        assert(views(split)[i] == split[i]@);
    }
    assert(views(split) =~= split_spec(s));
}

/// First route at or cyclically after `start` with at least `min_len` genes.
fn find_route_min_len(split: &Vec<Vec<u16>>, start: usize, min_len: usize) -> (r: Option<usize>)
    requires
        split@.len() >= 1,
        start < split@.len(),
    ensures
        match r {
            Option::Some(i) => i < split@.len() && split@[i as int]@.len() >= min_len,
            Option::None => forall|i: int|
                0 <= i < split@.len() ==> (#[trigger] split@[i])@.len() < min_len,
        },
{
    let n = split.len();
    let mut k: usize = 0;
    while k < n
        invariant
            n == split@.len(),
            n >= 1,
            start < n,
            k <= n,
            forall|j: int|
                0 <= j < k ==> (#[trigger] split@[(start + j) % (n as int)])@.len() < min_len,
        decreases n - k,
    {
        let idx = if k < n - start {
            start + k
        } else {
            k - (n - start)
        };
        proof {
            assert(idx as int == (start + k) % (n as int)) by (nonlinear_arith)
                requires
                    0 <= k < n,
                    0 <= start < n,
                    idx == if k < n - start {
                        start + k
                    } else {
                        k - (n - start)
                    },
            ;
        }
        if split[idx].len() >= min_len {
            return Option::Some(idx);
        }
        k = k + 1;
    }
    proof {
        assert forall|i: int| 0 <= i < n implies (#[trigger] split@[i])@.len() < min_len by {
            let j = if i >= start {
                i - start
            } else {
                i + n - start
            };
            assert(0 <= j < n);
            assert((start + j) % (n as int) == i) by {
                if i >= start {
                    assert((start + j) == i);
                    assert(i % (n as int) == i) by (nonlinear_arith)
                        requires
                            0 <= i < n,
                    ;
                } else {
                    assert(start + j == i + n);
                    assert((i + n) % (n as int) == i) by (nonlinear_arith)
                        requires
                            0 <= i < n,
                    ;
                }
            }
        }
    }
    Option::None
}

/// First non-empty route at or cyclically after `start` other than `excl`.
fn find_nonempty_excl(split: &Vec<Vec<u16>>, start: usize, excl: usize) -> (r: Option<usize>)
    requires
        split@.len() >= 1,
        start < split@.len(),
    ensures
        match r {
            Option::Some(i) => i < split@.len() && i != excl && split@[i as int]@.len() >= 1,
            Option::None => forall|i: int|
                0 <= i < split@.len() && i != excl ==> (#[trigger] split@[i])@.len() == 0,
        },
{
    let n = split.len();
    let mut k: usize = 0;
    while k < n
        invariant
            n == split@.len(),
            n >= 1,
            start < n,
            k <= n,
            forall|j: int|
                0 <= j < k ==> ((start + j) % (n as int) == excl || (#[trigger] split@[(start + j)
                    % (n as int)])@.len() == 0),
        decreases n - k,
    {
        let idx = if k < n - start {
            start + k
        } else {
            k - (n - start)
        };
        proof {
            assert(idx as int == (start + k) % (n as int)) by (nonlinear_arith)
                requires
                    0 <= k < n,
                    0 <= start < n,
                    idx == if k < n - start {
                        start + k
                    } else {
                        k - (n - start)
                    },
            ;
        }
        if idx != excl && split[idx].len() >= 1 {
            return Option::Some(idx);
        }
        k = k + 1;
    }
    proof {
        assert forall|i: int|
            0 <= i < n && i != excl implies (#[trigger] split@[i])@.len() == 0 by {
            let j = if i >= start {
                i - start
            } else {
                i + n - start
            };
            assert(0 <= j < n);
            assert((start + j) % (n as int) == i) by {
                if i >= start {
                    assert(i % (n as int) == i) by (nonlinear_arith)
                        requires
                            0 <= i < n,
                    ;
                } else {
                    assert((i + n) % (n as int) == i) by (nonlinear_arith)
                        requires
                            0 <= i < n,
                    ;
                }
            }
        }
    }
    Option::None
}

/// A fresh vector holding the genes in reverse order.
fn reversed_vec(v: &Vec<u16>) -> (r: Vec<u16>)
    ensures
        r@ == v@.reverse(),
{
    let n = v.len();
    let mut r: Vec<u16> = Vec::new();
    let mut i: usize = 0;
    while i < n
        invariant
            n == v@.len(),
            i <= n,
            r@.len() == i,
            forall|j: int| 0 <= j < i ==> r@[j] == v@[n - 1 - j],
        decreases n - i,
    {
        r.push(v[n - 1 - i]);
        i = i + 1;
    }
    proof {
        assert(r@ =~= v@.reverse());
    }
    r
}

/// Whether two gene vectors hold the same genes in the same order.
fn vec_eq_genes(a: &Vec<u16>, b: &Vec<u16>) -> (r: bool)
    ensures
        r <==> a@ == b@,
{
    if a.len() != b.len() {
        proof {
            assert(a@ != b@);
        }
        return false;
    }
    let n = a.len();
    let mut i: usize = 0;
    while i < n
        invariant
            n == a@.len(),
            n == b@.len(),
            i <= n,
            forall|j: int| 0 <= j < i ==> a@[j] == b@[j],
        decreases n - i,
    {
        if a[i] != b[i] {
            proof {
                assert(a@ != b@);
            }
            return false;
        }
        i = i + 1;
    }
    proof {
        assert(a@ =~= b@);
    }
    true
}

/// Reverse one randomly chosen sub-route.  Routes with fewer than two genes
/// are skipped cyclically; if no route has two genes the chromosome is left
/// unchanged.
pub fn in_invert(rng: &mut ChaCha8Rng, child: &mut Chromosome)
    ensures
        final(child)@.to_multiset() == old(child)@.to_multiset(),
        distinct_patients(old(child)@) && some_route_with(old(child)@, 2) ==> final(child)@
            != old(child)@,
        final(child)@ == old(child)@ || exists|k: int|
            0 <= k < split_spec(old(child)@).len() && split_spec(final(child)@) == split_spec(
                old(child)@,
            ).update(k, split_spec(old(child)@)[k].reverse()),
{
    let ghost s0 = old(child)@;
    let ghost rs = split_spec(s0);
    let mut split = split_any(child);
    proof {
        lemma_views_split(split@, s0);
        lemma_split_len(s0);
        lemma_split_wf(s0);
        lemma_join_split(s0);
    }
    let n = split.len();
    let start = rng_below(rng, n);
    match find_route_min_len(&split, start, 2) {
        Option::None => {
            proof {
                assert(!some_route_with(s0, 2));
            }
        },
        Option::Some(r) => {
            let route = split.remove(r);
            let rev = reversed_vec(&route);
            split.insert(r, rev);
            let ghost rs2 = rs.update(r as int, rs[r as int].reverse());
            proof {
                assert(views(split@) =~= rs2);
                lemma_reverse_ms(rs[r as int]);
                lemma_routes_ms_update(rs, r as int, rs[r as int].reverse());
            }
            let combined = combine_into_chromo(&split);
            *child = combined;
            proof {
                lemma_rejoin_ms(s0, rs2, child@);
                assert(routes_wf(rs2)) by {
                    assert forall|i: int, j: int|
                        0 <= i < rs2.len() && 0 <= j < rs2[i].len() implies (#[trigger] rs2[i][j])
                        != 0 by {
                        if i == r {
                            assert(rs2[i][j] == rs[i][rs[i].len() - 1 - j]);
                        } else {
                            assert(rs2[i] == rs[i]);
                        }
                    }
                }
                lemma_split_join(rs2);
                assert(split_spec(child@) == rs2);
                assert(0 <= r < rs.len() && split_spec(child@) == rs.update(
                    r as int,
                    rs[r as int].reverse(),
                ));
                if distinct_patients(s0) {
                    let m = rs[r as int].len() as int;
                    lemma_route_elems_distinct(rs, r as int, 0, r as int, m - 1);
                    assert(rs2[r as int][0] == rs[r as int][m - 1]);
                    assert(rs2 != rs);
                    lemma_rejoin_changed(s0, rs2, child@);
                }
            }
        },
    }
}

/// Shuffle one randomly chosen sub-route; a shuffle that restores the
/// original order is corrected by swapping the first two genes, so a route
/// with two or more distinct genes always changes.
pub fn in_scramble(rng: &mut ChaCha8Rng, child: &mut Chromosome)
    ensures
        final(child)@.to_multiset() == old(child)@.to_multiset(),
        distinct_patients(old(child)@) && some_route_with(old(child)@, 2) ==> final(child)@
            != old(child)@,
        final(child)@ == old(child)@ || exists|k: int, p: Seq<u16>|
            0 <= k < split_spec(old(child)@).len() && p.to_multiset() == split_spec(
                old(child)@,
            )[k].to_multiset() && split_spec(final(child)@) == split_spec(old(child)@).update(k, p),
{
    let ghost s0 = old(child)@;
    let ghost rs = split_spec(s0);
    let mut split = split_any(child);
    proof {
        lemma_views_split(split@, s0);
        lemma_split_len(s0);
        lemma_split_wf(s0);
        lemma_join_split(s0);
    }
    let n = split.len();
    let start = rng_below(rng, n);
    match find_route_min_len(&split, start, 2) {
        Option::None => {
            proof {
                assert(!some_route_with(s0, 2));
            }
        },
        Option::Some(r) => {
            let mut route = split.remove(r);
            let orig = copy_genes(&route);
            rng_shuffle(rng, &mut route);
            if vec_eq_genes(&route, &orig) {
                let a = route[0];
                let b = route[1];
                route.set(0, b);
                route.set(1, a);
                proof {
                    lemma_swap_ms(orig@, 0, 1);
                }
            }
            let ghost newroute = route@;
            split.insert(r, route);
            let ghost rs2 = rs.update(r as int, newroute);
            proof {
                assert(views(split@) =~= rs2);
                lemma_routes_ms_update(rs, r as int, newroute);
            }
            let combined = combine_into_chromo(&split);
            *child = combined;
            proof {
                lemma_rejoin_ms(s0, rs2, child@);
                assert(routes_wf(rs2)) by {
                    assert(newroute.to_multiset() == rs[r as int].to_multiset());
                    assert forall|j: int|
                        0 <= j < newroute.len() implies (#[trigger] newroute[j]) != 0 by {
                        broadcast use vstd::seq_lib::group_to_multiset_ensures;

                        assert(newroute.contains(newroute[j]));
                        assert(newroute.to_multiset().count(newroute[j]) > 0);
                        assert(rs[r as int].contains(newroute[j]));
                    }
                }
                lemma_split_join(rs2);
                assert(split_spec(child@) == rs2);
                assert(0 <= r < rs.len() && newroute.to_multiset() == rs[r as int].to_multiset()
                    && split_spec(child@) == rs.update(r as int, newroute));
                if distinct_patients(s0) {
                    lemma_route_elems_distinct(rs, r as int, 0, r as int, 1);
                    assert(newroute != rs[r as int]) by {
                        if newroute[0] == rs[r as int][0] {
                        }
                    }
                    assert(rs2 != rs);
                    lemma_rejoin_changed(s0, rs2, child@);
                }
            }
        },
    }
}

/// Swap two distinct genes within one randomly chosen sub-route.
pub fn in_swap(rng: &mut ChaCha8Rng, child: &mut Chromosome)
    ensures
        final(child)@.to_multiset() == old(child)@.to_multiset(),
        distinct_patients(old(child)@) && some_route_with(old(child)@, 2) ==> final(child)@
            != old(child)@,
        distinct_patients(old(child)@) ==> hamming_spec(old(child)@, final(child)@) == 0
            || hamming_spec(old(child)@, final(child)@) == 2,
        final(child)@ == old(child)@ || exists|k: int, p: int, q: int|
            0 <= k < split_spec(old(child)@).len() && 0 <= p < split_spec(old(child)@)[k].len()
                && 0 <= q < split_spec(old(child)@)[k].len() && p != q && split_spec(
                final(child)@,
            ) == split_spec(old(child)@).update(
                k,
                split_spec(old(child)@)[k].update(p, split_spec(old(child)@)[k][q]).update(
                    q,
                    split_spec(old(child)@)[k][p],
                ),
            ),
{
    let ghost s0 = old(child)@;
    let ghost rs = split_spec(s0);
    let mut split = split_any(child);
    proof {
        lemma_views_split(split@, s0);
        lemma_split_len(s0);
        lemma_split_wf(s0);
        lemma_join_split(s0);
    }
    let n = split.len();
    let start = rng_below(rng, n);
    match find_route_min_len(&split, start, 2) {
        Option::None => {
            proof {
                assert(!some_route_with(s0, 2));
                lemma_hamming_properties(s0, s0);
            }
        },
        Option::Some(r) => {
            let mut route = split.remove(r);
            let m = route.len();
            let p = rng_below(rng, m);
            let q0 = rng_below(rng, m - 1);
            let q = if q0 >= p {
                q0 + 1
            } else {
                q0
            };
            let a = route[p];
            let b = route[q];
            route.set(p, b);
            route.set(q, a);
            let ghost newroute = route@;
            proof {
                lemma_swap_ms(rs[r as int], p as int, q as int);
            }
            split.insert(r, route);
            let ghost rs2 = rs.update(r as int, newroute);
            proof {
                assert(views(split@) =~= rs2);
                lemma_routes_ms_update(rs, r as int, newroute);
            }
            let combined = combine_into_chromo(&split);
            *child = combined;
            proof {
                lemma_rejoin_ms(s0, rs2, child@);
                assert(newroute =~= rs[r as int].update(p as int, rs[r as int][q as int]).update(
                    q as int,
                    rs[r as int][p as int],
                ));
                assert(routes_wf(rs2)) by {
                    assert forall|i: int, j: int|
                        0 <= i < rs2.len() && 0 <= j < rs2[i].len() implies (#[trigger] rs2[i][j])
                        != 0 by {
                        if i != r {
                            assert(rs2[i] == rs[i]);
                        }
                    }
                }
                lemma_split_join(rs2);
                assert(split_spec(child@) == rs2);
                assert(0 <= r < rs.len() && 0 <= p < rs[r as int].len() && 0 <= q < rs[
                    r as int].len() && p != q && split_spec(child@) == rs.update(
                    r as int,
                    rs[r as int].update(p as int, rs[r as int][q as int]).update(
                        q as int,
                        rs[r as int][p as int],
                    ),
                ));
                if distinct_patients(s0) {
                    if p < q {
                        lemma_route_elems_distinct(rs, r as int, p as int, r as int, q as int);
                    } else {
                        lemma_route_elems_distinct(rs, r as int, q as int, r as int, p as int);
                    }
                    assert(newroute[p as int] == b);
                    assert(rs2 != rs);
                    lemma_rejoin_changed(s0, rs2, child@);
                    // the flat encoding differs at exactly the two swapped
                    // positions of the chosen route
                    lemma_join_update_index(rs, r as int, newroute);
                    lemma_route_pos(rs, r as int, p as int);
                    lemma_route_pos(rs, r as int, q as int);
                    let jp = route_pos(rs, r as int, p as int);
                    let jq = route_pos(rs, r as int, q as int);
                    if p < q {
                        lemma_route_pos_mono(rs, r as int, p as int, r as int, q as int);
                    } else {
                        lemma_route_pos_mono(rs, r as int, q as int, r as int, p as int);
                    }
                    assert(child@[jp] == newroute[p as int]);
                    assert(child@[jq] == newroute[q as int]);
                    assert(s0[jp] == rs[r as int][p as int]);
                    assert(s0[jq] == rs[r as int][q as int]);
                    assert forall|j: int|
                        0 <= j < s0.len() && j != jp && j != jq implies child@[j] == s0[j] by {
                        if child@[j] != s0[j] {
                            let p2 = choose|p2: int|
                                0 <= p2 < rs[r as int].len() && j == route_pos(rs, r as int, p2);
                            assert(child@[j] == newroute[p2]);
                            assert(s0[j] == rs[r as int][p2]) by {
                                lemma_route_pos(rs, r as int, p2);
                            }
                            assert(p2 != p && p2 != q ==> newroute[p2] == rs[r as int][p2]);
                            if p2 == p {
                                assert(j == jp);
                            } else if p2 == q {
                                assert(j == jq);
                            }
                            assert(false);
                        }
                    }
                    if jp < jq {
                        lemma_hamming_double(s0, child@, jp, jq);
                    } else {
                        lemma_hamming_double(s0, child@, jq, jp);
                    }
                }
            }
        },
    }
}

/// Remove one gene of a randomly chosen sub-route and reinsert it at a
/// different slot of the same sub-route.
pub fn in_insert(rng: &mut ChaCha8Rng, child: &mut Chromosome)
    ensures
        final(child)@.to_multiset() == old(child)@.to_multiset(),
        distinct_patients(old(child)@) && some_route_with(old(child)@, 2) ==> final(child)@
            != old(child)@,
        final(child)@ == old(child)@ || exists|k: int, p: int, q: int|
            0 <= k < split_spec(old(child)@).len() && 0 <= p < split_spec(old(child)@)[k].len()
                && 0 <= q <= split_spec(old(child)@)[k].len() - 1 && split_spec(final(child)@)
                == split_spec(old(child)@).update(
                k,
                split_spec(old(child)@)[k].remove(p).insert(q, split_spec(old(child)@)[k][p]),
            ),
{
    let ghost s0 = old(child)@;
    let ghost rs = split_spec(s0);
    let mut split = split_any(child);
    proof {
        lemma_views_split(split@, s0);
        lemma_split_len(s0);
        lemma_split_wf(s0);
        lemma_join_split(s0);
    }
    let n = split.len();
    let start = rng_below(rng, n);
    match find_route_min_len(&split, start, 2) {
        Option::None => {
            proof {
                assert(!some_route_with(s0, 2));
            }
        },
        Option::Some(r) => {
            let mut route = split.remove(r);
            let m = route.len();
            let p = rng_below(rng, m);
            let q0 = rng_below(rng, m - 1);
            let q = if q0 >= p {
                q0 + 1
            } else {
                q0
            };
            let g = route.remove(p);
            route.insert(q, g);
            let ghost newroute = route@;
            proof {
                lemma_move_ms(rs[r as int], p as int, q as int);
            }
            split.insert(r, route);
            let ghost rs2 = rs.update(r as int, newroute);
            proof {
                assert(views(split@) =~= rs2);
                lemma_routes_ms_update(rs, r as int, newroute);
            }
            let combined = combine_into_chromo(&split);
            *child = combined;
            proof {
                lemma_rejoin_ms(s0, rs2, child@);
                assert(newroute =~= rs[r as int].remove(p as int).insert(q as int, rs[r as int][p as int]));
                assert(routes_wf(rs2)) by {
                    assert(newroute.to_multiset() == rs[r as int].to_multiset());
                    assert forall|i: int, j: int|
                        0 <= i < rs2.len() && 0 <= j < rs2[i].len() implies (#[trigger] rs2[i][j])
                        != 0 by {
                        if i == r {
                            broadcast use vstd::seq_lib::group_to_multiset_ensures;

                            assert(newroute.contains(newroute[j]));
                            assert(newroute.to_multiset().count(newroute[j]) > 0);
                            assert(rs[r as int].contains(newroute[j]));
                        } else {
                            assert(rs2[i] == rs[i]);
                        }
                    }
                }
                lemma_split_join(rs2);
                assert(split_spec(child@) == rs2);
                assert(0 <= r < rs.len() && 0 <= p < rs[r as int].len() && 0 <= q <= rs[
                    r as int].len() - 1 && split_spec(child@) == rs.update(
                    r as int,
                    rs[r as int].remove(p as int).insert(q as int, rs[r as int][p as int]),
                ));
                if distinct_patients(s0) {
                    if p < q {
                        lemma_route_elems_distinct(rs, r as int, p as int, r as int, q as int);
                    } else {
                        lemma_route_elems_distinct(rs, r as int, q as int, r as int, p as int);
                    }
                    assert(newroute[q as int] == g);
                    assert(rs[r as int][q as int] != g);
                    assert(rs2 != rs);
                    lemma_rejoin_changed(s0, rs2, child@);
                }
            }
        },
    }
}

/// Swap one gene of each of two distinct non-empty sub-routes.
pub fn cross_swap(rng: &mut ChaCha8Rng, child: &mut Chromosome)
    requires
        nonempty_routes(split_spec(old(child)@)) >= 2,
    ensures
        final(child)@.to_multiset() == old(child)@.to_multiset(),
        distinct_patients(old(child)@) ==> final(child)@ != old(child)@,
        distinct_patients(old(child)@) ==> hamming_spec(old(child)@, final(child)@) == 2,
        exists|k1: int, k2: int, i1: int, i2: int|
            0 <= k1 < split_spec(old(child)@).len() && 0 <= k2 < split_spec(old(child)@).len()
                && k1 != k2 && 0 <= i1 < split_spec(old(child)@)[k1].len() && 0 <= i2 < split_spec(
                old(child)@,
            )[k2].len() && split_spec(final(child)@) == split_spec(old(child)@).update(
                k1,
                split_spec(old(child)@)[k1].update(i1, split_spec(old(child)@)[k2][i2]),
            ).update(k2, split_spec(old(child)@)[k2].update(i2, split_spec(old(child)@)[k1][i1])),
{
    let ghost s0 = old(child)@;
    let ghost rs = split_spec(s0);
    let mut split = split_any(child);
    proof {
        lemma_views_split(split@, s0);
        lemma_split_len(s0);
        lemma_split_wf(s0);
        lemma_join_split(s0);
    }
    let n = split.len();
    let s1 = rng_below(rng, n);
    let r1 = match find_route_min_len(&split, s1, 1) {
        Option::Some(i) => i,
        Option::None => {
            proof {
                lemma_nonempty_routes_zero(rs);
            }
            0
        },
    };
    let s2 = rng_below(rng, n);
    let r2 = match find_nonempty_excl(&split, s2, r1) {
        Option::Some(i) => i,
        Option::None => {
            proof {
                lemma_nonempty_routes_bound(rs, r1 as int);
            }
            0
        },
    };
    let p1 = rng_below(rng, split[r1].len());
    let p2 = rng_below(rng, split[r2].len());
    let g1 = split[r1][p1];
    let g2 = split[r2][p2];
    let mut ra = split.remove(r1);
    ra.set(p1, g2);
    split.insert(r1, ra);
    let mut rb = split.remove(r2);
    rb.set(p2, g1);
    split.insert(r2, rb);
    let ghost na = rs[r1 as int].update(p1 as int, g2);
    let ghost nb = rs[r2 as int].update(p2 as int, g1);
    let ghost rs2 = rs.update(r1 as int, na).update(r2 as int, nb);
    proof {
        assert(views(split@) =~= rs2);
        lemma_update_ms(rs[r1 as int], p1 as int, g2);
        lemma_update_ms(rs[r2 as int], p2 as int, g1);
        let ma = rs[r1 as int].to_multiset();
        let mb = rs[r2 as int].to_multiset();
        broadcast use vstd::seq_lib::group_to_multiset_ensures;

        assert(rs[r1 as int].contains(g1));
        assert(rs[r2 as int].contains(g2));
        assert forall|v: u16|
            na.to_multiset().add(nb.to_multiset()).count(v) == ma.add(mb).count(v) by {
            assert(na.to_multiset().add(nb.to_multiset()).count(v) == na.to_multiset().count(v)
                + nb.to_multiset().count(v));
            assert(ma.add(mb).count(v) == ma.count(v) + mb.count(v));
            lemma_ms_remove_counts(ma, g1);
            lemma_ms_insert_counts(ma.remove(g1), g2);
            lemma_ms_remove_counts(mb, g2);
            lemma_ms_insert_counts(mb.remove(g2), g1);
        }
        assert(na.to_multiset().add(nb.to_multiset()) =~= ma.add(mb));
        lemma_routes_ms_update2(rs, r1 as int, na, r2 as int, nb);
    }
    let combined = combine_into_chromo(&split);
    *child = combined;
    proof {
        lemma_rejoin_ms(s0, rs2, child@);
        assert(routes_wf(rs2)) by {
            assert forall|i: int, j: int|
                0 <= i < rs2.len() && 0 <= j < rs2[i].len() implies (#[trigger] rs2[i][j])
                != 0 by {
                if i == r1 {
                    assert(rs2[i] == na);
                } else if i == r2 {
                    assert(rs2[i] == nb);
                } else {
                    assert(rs2[i] == rs[i]);
                }
            }
        }
        lemma_split_join(rs2);
        assert(split_spec(child@) == rs2);
        assert(0 <= r1 < rs.len() && 0 <= r2 < rs.len() && r1 != r2 && 0 <= p1 < rs[
            r1 as int].len() && 0 <= p2 < rs[r2 as int].len() && split_spec(child@) == rs.update(
            r1 as int,
            rs[r1 as int].update(p1 as int, rs[r2 as int][p2 as int]),
        ).update(r2 as int, rs[r2 as int].update(p2 as int, rs[r1 as int][p1 as int])));
        if distinct_patients(s0) {
            if r1 < r2 {
                lemma_route_elems_distinct(rs, r1 as int, p1 as int, r2 as int, p2 as int);
            } else {
                lemma_route_elems_distinct(rs, r2 as int, p2 as int, r1 as int, p1 as int);
            }
            assert(rs2[r1 as int] == na);
            assert(na[p1 as int] == g2);
            assert(rs2 != rs);
            lemma_rejoin_changed(s0, rs2, child@);
            // the flat encoding differs at exactly one position in each of
            // the two chosen routes
            let mid = rs.update(r1 as int, na);
            lemma_join_update_index(rs, r1 as int, na);
            assert(mid[r2 as int] == rs[r2 as int]);
            lemma_join_update_index(mid, r2 as int, nb);
            assert(mid.update(r2 as int, nb) == rs2);
            lemma_route_pos(rs, r1 as int, p1 as int);
            lemma_route_pos(rs, r2 as int, p2 as int);
            let ja = route_pos(rs, r1 as int, p1 as int);
            let jb = route_pos(rs, r2 as int, p2 as int);
            assert(forall|q: int|
                0 <= q < rs[r2 as int].len() ==> #[trigger] route_pos(mid, r2 as int, q)
                    == route_pos(rs, r2 as int, q)) by {
                assert forall|q: int|
                    0 <= q < rs[r2 as int].len() implies #[trigger] route_pos(mid, r2 as int, q)
                    == route_pos(rs, r2 as int, q) by {
                    lemma_route_pos_update(rs, r1 as int, na, r2 as int, q);
                }
            }
            assert forall|q1: int, q2: int|
                0 <= q1 < rs[r1 as int].len() && 0 <= q2 < rs[r2 as int].len() implies #[trigger]
            route_pos(rs, r1 as int, q1) != #[trigger] route_pos(rs, r2 as int, q2) by {
                if r1 < r2 {
                    lemma_route_pos_mono(rs, r1 as int, q1, r2 as int, q2);
                } else {
                    lemma_route_pos_mono(rs, r2 as int, q2, r1 as int, q1);
                }
            }
            assert(child@[jb] == nb[p2 as int]) by {
                assert(route_pos(mid, r2 as int, p2 as int) == jb);
            }
            assert(child@[ja] == na[p1 as int]) by {
                assert(join_spec(mid)[ja] == na[p1 as int]);
                if child@[ja] != join_spec(mid)[ja] {
                    let q = choose|q: int|
                        0 <= q < mid[r2 as int].len() && ja == route_pos(mid, r2 as int, q);
                    assert(ja == route_pos(rs, r2 as int, q));
                    assert(false);
                }
            }
            assert(s0[ja] == rs[r1 as int][p1 as int]);
            assert(s0[jb] == rs[r2 as int][p2 as int]);
            assert(child@[ja] == g2 && s0[ja] == g1 && g1 != g2);
            assert(child@[jb] == g1 && s0[jb] == g2);
            assert forall|j: int|
                0 <= j < s0.len() && j != ja && j != jb implies child@[j] == s0[j] by {
                if child@[j] != s0[j] {
                    if child@[j] != join_spec(mid)[j] {
                        let q = choose|q: int|
                            0 <= q < mid[r2 as int].len() && j == route_pos(mid, r2 as int, q);
                        assert(j == route_pos(rs, r2 as int, q));
                        assert(child@[j] == nb[q]);
                        assert(join_spec(mid)[j] == rs[r2 as int][q]) by {
                            assert(join_spec(mid)[route_pos(mid, r2 as int, q)] == mid[
                                r2 as int][q]) by {
                                lemma_join_update_index(mid, r2 as int, mid[r2 as int]);
                                assert(mid.update(r2 as int, mid[r2 as int]) =~= mid);
                            }
                        }
                        if nb[q] != rs[r2 as int][q] {
                            assert(q == p2);
                            assert(j == jb);
                            assert(false);
                        }
                        assert(child@[j] == join_spec(mid)[j]);
                    }
                    assert(child@[j] == join_spec(mid)[j]);
                    assert(join_spec(mid)[j] != s0[j]);
                    let q = choose|q: int|
                        0 <= q < rs[r1 as int].len() && j == route_pos(rs, r1 as int, q);
                    assert(join_spec(mid)[j] == na[q]);
                    assert(s0[j] == rs[r1 as int][q]) by {
                        lemma_route_pos(rs, r1 as int, q);
                    }
                    assert(q != p1 ==> na[q] == rs[r1 as int][q]);
                    assert(q == p1 && j == ja);
                    assert(false);
                }
            }
            if ja < jb {
                lemma_hamming_double(s0, child@, ja, jb);
            } else {
                lemma_hamming_double(s0, child@, jb, ja);
            }
        }
    }
}

/// Swap one gene of each of two distinct non-empty sub-routes; an intended
/// subset-exchange refinement never materialised, so this behaves exactly
/// like the pairwise swap.
pub fn cross_swap_subset(rng: &mut ChaCha8Rng, child: &mut Chromosome)
    requires
        nonempty_routes(split_spec(old(child)@)) >= 2,
    ensures
        final(child)@.to_multiset() == old(child)@.to_multiset(),
        distinct_patients(old(child)@) ==> final(child)@ != old(child)@,
        distinct_patients(old(child)@) ==> hamming_spec(old(child)@, final(child)@) == 2,
        exists|k1: int, k2: int, i1: int, i2: int|
            0 <= k1 < split_spec(old(child)@).len() && 0 <= k2 < split_spec(old(child)@).len()
                && k1 != k2 && 0 <= i1 < split_spec(old(child)@)[k1].len() && 0 <= i2 < split_spec(
                old(child)@,
            )[k2].len() && split_spec(final(child)@) == split_spec(old(child)@).update(
                k1,
                split_spec(old(child)@)[k1].update(i1, split_spec(old(child)@)[k2][i2]),
            ).update(k2, split_spec(old(child)@)[k2].update(i2, split_spec(old(child)@)[k1][i1])),
{
    cross_swap(rng, child)
}

/// Remove one gene from a non-empty sub-route and insert it into a
/// different randomly chosen sub-route.
#[verifier::rlimit(60)]
pub fn cross_insert(rng: &mut ChaCha8Rng, child: &mut Chromosome)
    requires
        split_spec(old(child)@).len() >= 2,
        nonempty_routes(split_spec(old(child)@)) >= 1,
    ensures
        final(child)@.to_multiset() == old(child)@.to_multiset(),
        final(child)@ != old(child)@,
        exists|k1: int, k2: int, i: int, q: int|
            0 <= k1 < split_spec(old(child)@).len() && 0 <= k2 < split_spec(old(child)@).len()
                && k1 != k2 && 0 <= i < split_spec(old(child)@)[k1].len() && 0 <= q <= split_spec(
                old(child)@,
            )[k2].len() && split_spec(final(child)@) == split_spec(old(child)@).update(
                k1,
                split_spec(old(child)@)[k1].remove(i),
            ).update(k2, split_spec(old(child)@)[k2].insert(q, split_spec(old(child)@)[k1][i])),
{
    let ghost s0 = old(child)@;
    let ghost rs = split_spec(s0);
    let mut split = split_any(child);
    proof {
        lemma_views_split(split@, s0);
        lemma_split_len(s0);
        lemma_split_wf(s0);
        lemma_join_split(s0);
    }
    let n = split.len();
    let s1 = rng_below(rng, n);
    let r1 = match find_route_min_len(&split, s1, 1) {
        Option::Some(i) => i,
        Option::None => {
            proof {
                lemma_nonempty_routes_zero(rs);
            }
            0
        },
    };
    let p = rng_below(rng, split[r1].len());
    let t = rng_below(rng, n - 1);
    let r2 = if t >= r1 {
        t + 1
    } else {
        t
    };
    let mut ra = split.remove(r1);
    let g = ra.remove(p);
    split.insert(r1, ra);
    let mut rb = split.remove(r2);
    let q = if rb.len() == 0 {
        0
    } else {
        rng_below(rng, rb.len())
    };
    rb.insert(q, g);
    split.insert(r2, rb);
    let ghost na = rs[r1 as int].remove(p as int);
    let ghost nb = rs[r2 as int].insert(q as int, g);
    let ghost rs2 = rs.update(r1 as int, na).update(r2 as int, nb);
    proof {
        assert(views(split@) =~= rs2);
        broadcast use vstd::seq_lib::group_to_multiset_ensures;

        assert(rs[r1 as int].contains(g));
        lemma_insert_ms(rs[r2 as int], q as int, g);
        let ma = rs[r1 as int].to_multiset();
        let mb = rs[r2 as int].to_multiset();
        assert forall|v: u16|
            na.to_multiset().add(nb.to_multiset()).count(v) == ma.add(mb).count(v) by {
            assert(na.to_multiset().add(nb.to_multiset()).count(v) == na.to_multiset().count(v)
                + nb.to_multiset().count(v));
            assert(ma.add(mb).count(v) == ma.count(v) + mb.count(v));
            lemma_ms_remove_counts(ma, g);
            lemma_ms_insert_counts(mb, g);
        }
        assert(na.to_multiset().add(nb.to_multiset()) =~= ma.add(mb));
        lemma_routes_ms_update2(rs, r1 as int, na, r2 as int, nb);
    }
    let combined = combine_into_chromo(&split);
    *child = combined;
    proof {
        lemma_rejoin_ms(s0, rs2, child@);
        assert(rs2[r1 as int].len() < rs[r1 as int].len());
        assert(rs2 != rs);
        assert(routes_wf(rs2)) by {
            assert(forall|j: int| 0 <= j < na.len() ==> (#[trigger] na[j]) != 0);
            assert(nb =~= rs[r2 as int].take(q as int) + seq![g] + rs[r2 as int].skip(q as int));
            assert(forall|j: int| 0 <= j < nb.len() ==> (#[trigger] nb[j]) != 0);
        }
        lemma_rejoin_changed(s0, rs2, child@);
        lemma_split_join(rs2);
        assert(split_spec(child@) == rs2);
        assert(0 <= r1 < rs.len() && 0 <= r2 < rs.len() && r1 != r2 && 0 <= p < rs[
            r1 as int].len() && 0 <= q <= rs[r2 as int].len() && split_spec(child@) == rs.update(
            r1 as int,
            rs[r1 as int].remove(p as int),
        ).update(r2 as int, rs[r2 as int].insert(q as int, rs[r1 as int][p as int])));
    }
}


/// What every mutation application guarantees: the gene multiset (and so
/// the encoding invariant) is preserved.
pub open spec fn mutated_ok(old_s: Seq<u16>, new_s: Seq<u16>) -> bool {
    new_s.to_multiset() == old_s.to_multiset()
}

/// A chance clamped to at most one.
pub open spec fn clamped(chance: u32) -> u32 {
    if chance > 1000 {
        1000u32
    } else {
        chance
    }
}

fn clamp_chance(chance: u32) -> (r: u32)
    ensures
        r == clamped(chance),
        r <= CHANCE_UNIT,
{
    if chance > CHANCE_UNIT {
        CHANCE_UNIT
    } else {
        chance
    }
}

/// Reverse a random sub-route, with the holder's application probability.
pub struct InRouteInversionMutation {
    pub chance: u32,
}

impl InRouteInversionMutation {
    /// `chance` is in thousandths; values above one are treated as one.
    pub fn new(chance: u32) -> (r: Self)
        requires
            chance <= CHANCE_UNIT,
        ensures
            r.chance == chance,
    {
        Self { chance }
    }

    pub fn adjust_chance(&mut self, chance: u32)
        ensures
            final(self).chance == chance,
    {
        self.chance = chance;
    }

    pub fn mutate(&self, rng: &mut ChaCha8Rng, child: &mut Chromosome)
        ensures
            mutated_ok(old(child)@, final(child)@),
            clamped(self.chance) == 0 ==> final(child)@ == old(child)@,
            self.chance >= CHANCE_UNIT && distinct_patients(old(child)@) && some_route_with(
                old(child)@,
                2,
            ) ==> final(child)@ != old(child)@,
            final(child)@ == old(child)@ || exists|k: int|
                0 <= k < split_spec(old(child)@).len() && split_spec(final(child)@) == split_spec(
                    old(child)@,
                ).update(k, split_spec(old(child)@)[k].reverse()),
    {
        let c = clamp_chance(self.chance);
        if rng_coin(rng, c, CHANCE_UNIT) {
            in_invert(rng, child);
        }
    }
}

/// Shuffle a random sub-route, with the holder's application probability.
pub struct InRouteScrambleMutation {
    pub chance: u32,
}

impl InRouteScrambleMutation {
    pub fn new(chance: u32) -> (r: Self)
        requires
            chance <= CHANCE_UNIT,
        ensures
            r.chance == chance,
    {
        Self { chance }
    }

    pub fn adjust_chance(&mut self, chance: u32)
        ensures
            final(self).chance == chance,
    {
        self.chance = chance;
    }

    pub fn mutate(&self, rng: &mut ChaCha8Rng, child: &mut Chromosome)
        ensures
            mutated_ok(old(child)@, final(child)@),
            clamped(self.chance) == 0 ==> final(child)@ == old(child)@,
            self.chance >= CHANCE_UNIT && distinct_patients(old(child)@) && some_route_with(
                old(child)@,
                2,
            ) ==> final(child)@ != old(child)@,
            final(child)@ == old(child)@ || exists|k: int, p: Seq<u16>|
                0 <= k < split_spec(old(child)@).len() && p.to_multiset() == split_spec(
                    old(child)@,
                )[k].to_multiset() && split_spec(final(child)@) == split_spec(old(child)@).update(
                    k,
                    p,
                ),
    {
        let c = clamp_chance(self.chance);
        if rng_coin(rng, c, CHANCE_UNIT) {
            in_scramble(rng, child);
        }
    }
}

/// Swap two genes of a random sub-route, with the holder's probability.
pub struct InRouteSwapMutation {
    pub chance: u32,
}

impl InRouteSwapMutation {
    pub fn new(chance: u32) -> (r: Self)
        requires
            chance <= CHANCE_UNIT,
        ensures
            r.chance == chance,
    {
        Self { chance }
    }

    pub fn adjust_chance(&mut self, chance: u32)
        ensures
            final(self).chance == chance,
    {
        self.chance = chance;
    }

    pub fn mutate(&self, rng: &mut ChaCha8Rng, child: &mut Chromosome)
        ensures
            mutated_ok(old(child)@, final(child)@),
            clamped(self.chance) == 0 ==> final(child)@ == old(child)@,
            self.chance >= CHANCE_UNIT && distinct_patients(old(child)@) && some_route_with(
                old(child)@,
                2,
            ) ==> final(child)@ != old(child)@,
            distinct_patients(old(child)@) ==> hamming_spec(old(child)@, final(child)@) == 0
                || hamming_spec(old(child)@, final(child)@) == 2,
            final(child)@ == old(child)@ || exists|k: int, p: int, q: int|
                0 <= k < split_spec(old(child)@).len() && 0 <= p < split_spec(
                    old(child)@,
                )[k].len() && 0 <= q < split_spec(old(child)@)[k].len() && p != q && split_spec(
                    final(child)@,
                ) == split_spec(old(child)@).update(
                    k,
                    split_spec(old(child)@)[k].update(p, split_spec(old(child)@)[k][q]).update(
                        q,
                        split_spec(old(child)@)[k][p],
                    ),
                ),
    {
        let c = clamp_chance(self.chance);
        if rng_coin(rng, c, CHANCE_UNIT) {
            in_swap(rng, child);
        } else {
            proof {
                lemma_hamming_properties(child@, child@);
            }
        }
    }
}

/// Move one gene within a random sub-route, with the holder's probability.
pub struct InRouteInsertMutation {
    pub chance: u32,
}

impl InRouteInsertMutation {
    pub fn new(chance: u32) -> (r: Self)
        requires
            chance <= CHANCE_UNIT,
        ensures
            r.chance == chance,
    {
        Self { chance }
    }

    pub fn adjust_chance(&mut self, chance: u32)
        ensures
            final(self).chance == chance,
    {
        self.chance = chance;
    }

    pub fn mutate(&self, rng: &mut ChaCha8Rng, child: &mut Chromosome)
        ensures
            mutated_ok(old(child)@, final(child)@),
            clamped(self.chance) == 0 ==> final(child)@ == old(child)@,
            self.chance >= CHANCE_UNIT && distinct_patients(old(child)@) && some_route_with(
                old(child)@,
                2,
            ) ==> final(child)@ != old(child)@,
            final(child)@ == old(child)@ || exists|k: int, p: int, q: int|
                0 <= k < split_spec(old(child)@).len() && 0 <= p < split_spec(
                    old(child)@,
                )[k].len() && 0 <= q <= split_spec(old(child)@)[k].len() - 1 && split_spec(
                    final(child)@,
                ) == split_spec(old(child)@).update(
                    k,
                    split_spec(old(child)@)[k].remove(p).insert(
                        q,
                        split_spec(old(child)@)[k][p],
                    ),
                ),
    {
        let c = clamp_chance(self.chance);
        if rng_coin(rng, c, CHANCE_UNIT) {
            in_insert(rng, child);
        }
    }
}

/// Count the non-empty routes of a chromosome.
fn count_nonempty_routes(child: &Chromosome) -> (r: usize)
    ensures
        r == nonempty_routes(split_spec(child@)),
        r <= split_spec(child@).len(),
{
    let split = split_any(child);
    proof {
        lemma_views_split(split@, child@);
    }
    let ghost rs = split_spec(child@);
    let n = split.len();
    let mut count: usize = 0;
    let mut i: usize = 0;
    while i < n
        invariant
            n == split@.len(),
            rs == split_spec(child@),
            n == rs.len(),
            forall|j: int| 0 <= j < n ==> (#[trigger] split@[j])@ == rs[j],
            i <= n,
            count == nonempty_routes(rs.take(i as int)),
            count <= i,
        decreases n - i,
    {
        proof {
            assert(rs.take(i + 1).drop_last() =~= rs.take(i as int));
            assert(rs.take(i + 1).last() == rs[i as int]);
        }
        if split[i].len() >= 1 {
            count = count + 1;
        }
        i = i + 1;
    }
    proof {
        assert(rs.take(n as int) =~= rs);
    }
    count
}

/// Swap one gene between two distinct non-empty sub-routes, with the
/// holder's probability; a chromosome with fewer than two non-empty routes
/// is left unchanged.
pub struct CrossRouteSwapMutation {
    pub chance: u32,
}

impl CrossRouteSwapMutation {
    pub fn new(chance: u32) -> (r: Self)
        requires
            chance <= CHANCE_UNIT,
        ensures
            r.chance == chance,
    {
        Self { chance }
    }

    pub fn adjust_chance(&mut self, chance: u32)
        ensures
            final(self).chance == chance,
    {
        self.chance = chance;
    }

    pub fn mutate(&self, rng: &mut ChaCha8Rng, child: &mut Chromosome)
        ensures
            mutated_ok(old(child)@, final(child)@),
            clamped(self.chance) == 0 ==> final(child)@ == old(child)@,
            self.chance >= CHANCE_UNIT && distinct_patients(old(child)@) && nonempty_routes(
                split_spec(old(child)@),
            ) >= 2 ==> final(child)@ != old(child)@,
            distinct_patients(old(child)@) ==> hamming_spec(old(child)@, final(child)@) == 0
                || hamming_spec(old(child)@, final(child)@) == 2,
            final(child)@ == old(child)@ || exists|k1: int, k2: int, i1: int, i2: int|
                0 <= k1 < split_spec(old(child)@).len() && 0 <= k2 < split_spec(
                    old(child)@,
                ).len() && k1 != k2 && 0 <= i1 < split_spec(old(child)@)[k1].len() && 0 <= i2
                    < split_spec(old(child)@)[k2].len() && split_spec(final(child)@) == split_spec(
                    old(child)@,
                ).update(
                    k1,
                    split_spec(old(child)@)[k1].update(i1, split_spec(old(child)@)[k2][i2]),
                ).update(
                    k2,
                    split_spec(old(child)@)[k2].update(i2, split_spec(old(child)@)[k1][i1]),
                ),
    {
        let c = clamp_chance(self.chance);
        if rng_coin(rng, c, CHANCE_UNIT) {
            if count_nonempty_routes(child) >= 2 {
                cross_swap(rng, child);
            } else {
                proof {
                    lemma_hamming_properties(child@, child@);
                }
            }
        } else {
            proof {
                lemma_hamming_properties(child@, child@);
            }
        }
    }
}

/// Move one gene into a different sub-route, with the holder's probability;
/// a chromosome without at least two routes and a patient is left unchanged.
pub struct CrossRouteInsertMutation {
    pub chance: u32,
}

impl CrossRouteInsertMutation {
    pub fn new(chance: u32) -> (r: Self)
        requires
            chance <= CHANCE_UNIT,
        ensures
            r.chance == chance,
    {
        Self { chance }
    }

    pub fn adjust_chance(&mut self, chance: u32)
        ensures
            final(self).chance == chance,
    {
        self.chance = chance;
    }

    pub fn mutate(&self, rng: &mut ChaCha8Rng, child: &mut Chromosome)
        ensures
            mutated_ok(old(child)@, final(child)@),
            clamped(self.chance) == 0 ==> final(child)@ == old(child)@,
            self.chance >= CHANCE_UNIT && split_spec(old(child)@).len() >= 2 && nonempty_routes(
                split_spec(old(child)@),
            ) >= 1 ==> final(child)@ != old(child)@,
            final(child)@ == old(child)@ || exists|k1: int, k2: int, i: int, q: int|
                0 <= k1 < split_spec(old(child)@).len() && 0 <= k2 < split_spec(
                    old(child)@,
                ).len() && k1 != k2 && 0 <= i < split_spec(old(child)@)[k1].len() && 0 <= q
                    <= split_spec(old(child)@)[k2].len() && split_spec(final(child)@)
                    == split_spec(old(child)@).update(
                    k1,
                    split_spec(old(child)@)[k1].remove(i),
                ).update(
                    k2,
                    split_spec(old(child)@)[k2].insert(q, split_spec(old(child)@)[k1][i]),
                ),
    {
        let c = clamp_chance(self.chance);
        if rng_coin(rng, c, CHANCE_UNIT) {
            let split = split_any(child);
            proof {
                lemma_views_split(split@, child@);
            }
            let routes_n = split.len();
            let nonempty = count_nonempty_routes(child);
            if routes_n >= 2 && nonempty >= 1 {
                cross_insert(rng, child);
            }
        }
    }
}

/// The genes of a sub-range reversed in place.
pub open spec fn rev_range(s: Seq<u16>, lo: int, hi: int) -> Seq<u16> {
    Seq::new(s.len(), |i: int| if lo <= i <= hi { s[lo + hi - i] } else { s[i] })
}

proof fn lemma_rev_range_ms(s: Seq<u16>, lo: int, hi: int)
    requires
        0 <= lo <= hi < s.len(),
    ensures
        rev_range(s, lo, hi).to_multiset() == s.to_multiset(),
{
    broadcast use vstd::seq_lib::group_to_multiset_ensures;

    let mid = s.subrange(lo, hi + 1);
    assert(rev_range(s, lo, hi) =~= s.take(lo) + mid.reverse() + s.skip(hi + 1));
    assert(s =~= s.take(lo) + mid + s.skip(hi + 1));
    lemma_reverse_ms(mid);
    vstd::seq_lib::lemma_multiset_commutative(s.take(lo) + mid.reverse(), s.skip(hi + 1));
    vstd::seq_lib::lemma_multiset_commutative(s.take(lo), mid.reverse());
    vstd::seq_lib::lemma_multiset_commutative(s.take(lo) + mid, s.skip(hi + 1));
    vstd::seq_lib::lemma_multiset_commutative(s.take(lo), mid);
    assert forall|v: u16|
        rev_range(s, lo, hi).to_multiset().count(v) == s.to_multiset().count(v) by {
        assert(((s.take(lo) + mid.reverse()) + s.skip(hi + 1)).to_multiset().count(v) == (s.take(
            lo,
        ) + mid.reverse()).to_multiset().count(v) + s.skip(hi + 1).to_multiset().count(v));
        assert((s.take(lo) + mid.reverse()).to_multiset().count(v) == s.take(
            lo,
        ).to_multiset().count(v) + mid.reverse().to_multiset().count(v));
        assert(((s.take(lo) + mid) + s.skip(hi + 1)).to_multiset().count(v) == (s.take(lo)
            + mid).to_multiset().count(v) + s.skip(hi + 1).to_multiset().count(v));
        assert((s.take(lo) + mid).to_multiset().count(v) == s.take(lo).to_multiset().count(v)
            + mid.to_multiset().count(v));
    }
    assert(rev_range(s, lo, hi).to_multiset() =~= s.to_multiset());
}

/// Reverse the genes between two positions.
fn reverse_range(child: &mut Chromosome, lo: usize, hi: usize)
    requires
        lo <= hi < old(child)@.len(),
    ensures
        final(child)@ == rev_range(old(child)@, lo as int, hi as int),
        mutated_ok(old(child)@, final(child)@),
{
    let ghost s0 = old(child)@;
    let n = child.genes.len();
    let mut genes: Vec<u16> = Vec::new();
    let mut i: usize = 0;
    while i < n
        invariant
            n == s0.len(),
            lo <= hi < n,
            child@ == s0,
            i <= n,
            genes@.len() == i,
            forall|j: int| 0 <= j < i ==> genes@[j] == rev_range(s0, lo as int, hi as int)[j],
        decreases n - i,
    {
        let g = if lo <= i && i <= hi {
            child.genes[hi - (i - lo)]
        } else {
            child.genes[i]
        };
        genes.push(g);
        i = i + 1;
    }
    child.genes = genes;
    proof {
        assert(child@ =~= rev_range(s0, lo as int, hi as int));
        lemma_rev_range_ms(s0, lo as int, hi as int);
    }
}

/// Reverse a random sub-range of the whole encoded sequence, crossing route
/// boundaries; meant for the delimiter-free encoding.
pub struct InversionMutation {
    pub chance: u32,
}

impl InversionMutation {
    pub fn new(chance: u32) -> (r: Self)
        requires
            chance <= CHANCE_UNIT,
        ensures
            r.chance == chance,
    {
        Self { chance }
    }

    pub fn adjust_chance(&mut self, chance: u32)
        ensures
            final(self).chance == chance,
    {
        self.chance = chance;
    }

    pub fn mutate(&self, rng: &mut ChaCha8Rng, child: &mut Chromosome)
        ensures
            mutated_ok(old(child)@, final(child)@),
            clamped(self.chance) == 0 ==> final(child)@ == old(child)@,
            self.chance >= CHANCE_UNIT && old(child)@.len() >= 2 && distinct_patients(old(child)@)
                && old(child)@.to_multiset().count(0u16) == 0 ==> final(child)@ != old(child)@,
            final(child)@ == old(child)@ || exists|lo: int, hi: int|
                0 <= lo <= hi < old(child)@.len() && final(child)@ == rev_range(
                    old(child)@,
                    lo,
                    hi,
                ),
    {
        let ghost s0 = old(child)@;
        let c = clamp_chance(self.chance);
        if rng_coin(rng, c, CHANCE_UNIT) {
            let n = child.genes.len();
            if n >= 2 {
                let t = rng_below(rng, n);
                let u0 = rng_below(rng, n - 1);
                let u = if u0 >= t {
                    u0 + 1
                } else {
                    u0
                };
                let lo = if t < u {
                    t
                } else {
                    u
                };
                let hi = if t < u {
                    u
                } else {
                    t
                };
                reverse_range(child, lo, hi);
                proof {
                    broadcast use vstd::seq_lib::group_to_multiset_ensures;

                    assert(0 <= lo <= hi < s0.len() && child@ == rev_range(
                        s0,
                        lo as int,
                        hi as int,
                    ));
                    if distinct_patients(s0) && s0.to_multiset().count(0u16) == 0 {
                        assert(s0[lo as int] != 0) by {
                            if s0[lo as int] == 0 {
                                assert(s0.contains(0u16));
                            }
                        }
                        assert(s0[lo as int] != s0[hi as int]);
                        assert(child@[lo as int] == s0[hi as int]);
                    }
                }
            }
        }
    }
}

/// Shuffle a random sub-range of the whole encoded sequence, crossing route
/// boundaries; meant for the delimiter-free encoding.
pub struct ScrambleMutation {
    pub chance: u32,
}

impl ScrambleMutation {
    pub fn new(chance: u32) -> (r: Self)
        requires
            chance <= CHANCE_UNIT,
        ensures
            r.chance == chance,
    {
        Self { chance }
    }

    pub fn adjust_chance(&mut self, chance: u32)
        ensures
            final(self).chance == chance,
    {
        self.chance = chance;
    }

    pub fn mutate(&self, rng: &mut ChaCha8Rng, child: &mut Chromosome)
        ensures
            mutated_ok(old(child)@, final(child)@),
            clamped(self.chance) == 0 ==> final(child)@ == old(child)@,
            self.chance >= CHANCE_UNIT && old(child)@.len() >= 2 && distinct_patients(old(child)@)
                && old(child)@.to_multiset().count(0u16) == 0 ==> final(child)@ != old(child)@,
            final(child)@ == old(child)@ || exists|lo: int, hi: int, p: Seq<u16>|
                #![trigger p.to_multiset(), old(child)@.subrange(lo, hi + 1)]
                0 <= lo <= hi < old(child)@.len() && p.to_multiset() == old(child)@.subrange(
                    lo,
                    hi + 1,
                ).to_multiset() && final(child)@ == old(child)@.take(lo) + p + old(child)@.skip(
                    hi + 1,
                ),
    {
        let ghost s0 = old(child)@;
        let c = clamp_chance(self.chance);
        if rng_coin(rng, c, CHANCE_UNIT) {
            let n = child.genes.len();
            if n >= 2 {
                let t = rng_below(rng, n);
                let u0 = rng_below(rng, n - 1);
                let u = if u0 >= t {
                    u0 + 1
                } else {
                    u0
                };
                let lo = if t < u {
                    t
                } else {
                    u
                };
                let hi = if t < u {
                    u
                } else {
                    t
                };
                // pull the sub-range out, shuffle it, and write it back
                let mut mid: Vec<u16> = Vec::new();
                let mut i: usize = lo;
                while i <= hi
                    invariant
                        child@ == s0,
                        lo <= i,
                        i <= hi + 1,
                        hi < n,
                        n == s0.len(),
                        mid@ == s0.subrange(lo as int, i as int),
                    decreases hi + 1 - i,
                {
                    mid.push(child.genes[i]);
                    proof {
                        assert(s0.subrange(lo as int, i + 1) =~= s0.subrange(
                            lo as int,
                            i as int,
                        ).push(s0[i as int]));
                    }
                    i = i + 1;
                }
                let orig_mid = copy_genes(&mid);
                rng_shuffle(rng, &mut mid);
                let same = vec_eq_genes(&mid, &orig_mid);
                if same {
                    if mid.len() >= 2 && mid[0] != mid[1] {
                        let a = mid[0];
                        let b = mid[1];
                        mid.set(0, b);
                        mid.set(1, a);
                        proof {
                            lemma_swap_ms(orig_mid@, 0, 1);
                        }
                    }
                }
                proof {
                    if same {
                        assert(mid@ == orig_mid@.update(0, orig_mid@[1]).update(1, orig_mid@[0])
                            || mid@ == orig_mid@ && (orig_mid@.len() < 2 || orig_mid@[0]
                            == orig_mid@[1]));
                    }
                }
                let ghost shuffled = mid@;
                let mut i: usize = lo;
                while i <= hi
                    invariant
                        lo <= i <= hi + 1,
                        hi < n,
                        n == child@.len(),
                        child@.len() == s0.len(),
                        mid@ == shuffled,
                        shuffled.len() == hi + 1 - lo,
                        forall|j: int| 0 <= j < lo ==> child@[j] == s0[j],
                        forall|j: int| hi < j < s0.len() ==> child@[j] == s0[j],
                        forall|j: int| lo <= j < i ==> child@[j] == shuffled[j - lo],
                        forall|j: int| i <= j <= hi ==> child@[j] == s0[j],
                    decreases hi + 1 - i,
                {
                    child.genes.set(i, mid[i - lo]);
                    i = i + 1;
                }
                proof {
                    let mid0 = s0.subrange(lo as int, hi + 1);
                    assert(child@ =~= s0.take(lo as int) + shuffled + s0.skip(hi + 1));
                    assert(s0 =~= s0.take(lo as int) + mid0 + s0.skip(hi + 1));
                    broadcast use vstd::seq_lib::group_to_multiset_ensures;

                    vstd::seq_lib::lemma_multiset_commutative(
                        s0.take(lo as int) + shuffled,
                        s0.skip(hi + 1),
                    );
                    vstd::seq_lib::lemma_multiset_commutative(s0.take(lo as int), shuffled);
                    vstd::seq_lib::lemma_multiset_commutative(
                        s0.take(lo as int) + mid0,
                        s0.skip(hi + 1),
                    );
                    vstd::seq_lib::lemma_multiset_commutative(s0.take(lo as int), mid0);
                    assert forall|v: u16|
                        child@.to_multiset().count(v) == s0.to_multiset().count(v) by {
                        assert(((s0.take(lo as int) + shuffled) + s0.skip(
                            hi + 1,
                        )).to_multiset().count(v) == (s0.take(lo as int)
                            + shuffled).to_multiset().count(v) + s0.skip(hi + 1).to_multiset().count(
                            v,
                        ));
                        assert((s0.take(lo as int) + shuffled).to_multiset().count(v) == s0.take(
                            lo as int,
                        ).to_multiset().count(v) + shuffled.to_multiset().count(v));
                        assert(((s0.take(lo as int) + mid0) + s0.skip(hi + 1)).to_multiset().count(
                            v,
                        ) == (s0.take(lo as int) + mid0).to_multiset().count(v) + s0.skip(
                            hi + 1,
                        ).to_multiset().count(v));
                        assert((s0.take(lo as int) + mid0).to_multiset().count(v) == s0.take(
                            lo as int,
                        ).to_multiset().count(v) + mid0.to_multiset().count(v));
                    }
                    assert(child@.to_multiset() =~= s0.to_multiset());
                    assert(0 <= lo <= hi < s0.len() && shuffled.to_multiset() == s0.subrange(
                        lo as int,
                        hi + 1,
                    ).to_multiset() && child@ == s0.take(lo as int) + shuffled + s0.skip(hi + 1));
                    if distinct_patients(s0) && s0.to_multiset().count(0u16) == 0 {
                        let orig = s0.subrange(lo as int, hi + 1);
                        assert(orig_mid@ == orig);
                        assert(s0[lo as int] != 0) by {
                            if s0[lo as int] == 0 {
                                assert(s0.contains(0u16));
                            }
                        }
                        assert(s0[lo as int] != s0[lo + 1]);
                        assert(orig[0] == s0[lo as int] && orig[1] == s0[lo + 1]);
                        if same {
                            assert(shuffled == orig.update(0, orig[1]).update(1, orig[0]));
                            assert(child@[lo as int] == shuffled[0]);
                            assert(shuffled[0] == orig[1]);
                            assert(child@ != s0);
                        } else {
                            assert(shuffled != orig);
                            assert(shuffled.len() == orig.len());
                            assert(exists|d: int|
                                0 <= d < orig.len() && (#[trigger] shuffled[d]) != orig[d]) by {
                                if forall|d: int|
                                    0 <= d < orig.len() ==> (#[trigger] shuffled[d]) == orig[d] {
                                    assert(shuffled =~= orig);
                                    assert(false);
                                }
                            }
                            let d = choose|d: int|
                                0 <= d < orig.len() && (#[trigger] shuffled[d]) != orig[d];
                            assert(child@[lo + d] == shuffled[d]);
                            assert(s0[lo + d] == orig[d]);
                            assert(child@ != s0);
                        }
                    }
                }
            }
        }
    }
}

/// Placeholder operator slot for a gene-wise swap mutation that never
/// received an implementation.
pub struct SwapMutation {
    pub chance: u32,
}

impl SwapMutation {
    pub fn new(chance: u32) -> (r: Self)
        requires
            chance <= CHANCE_UNIT,
        ensures
            r.chance == chance,
    {
        Self { chance }
    }

    pub fn adjust_chance(&mut self, chance: u32)
        ensures
            final(self).chance == chance,
    {
        self.chance = chance;
    }
}

/// One registered mutation operator.
pub enum MutationItem {
    InRouteInversion(InRouteInversionMutation),
    InRouteScramble(InRouteScrambleMutation),
    InRouteSwap(InRouteSwapMutation),
    InRouteInsert(InRouteInsertMutation),
    CrossRouteSwap(CrossRouteSwapMutation),
    CrossRouteInsert(CrossRouteInsertMutation),
    Inversion(InversionMutation),
    Scramble(ScrambleMutation),
}

impl MutationItem {
    /// The operator's current application probability, in thousandths.
    pub open spec fn spec_chance(&self) -> u32 {
        match self {
            MutationItem::InRouteInversion(m) => m.chance,
            MutationItem::InRouteScramble(m) => m.chance,
            MutationItem::InRouteSwap(m) => m.chance,
            MutationItem::InRouteInsert(m) => m.chance,
            MutationItem::CrossRouteSwap(m) => m.chance,
            MutationItem::CrossRouteInsert(m) => m.chance,
            MutationItem::Inversion(m) => m.chance,
            MutationItem::Scramble(m) => m.chance,
        }
    }

    /// The same operator with its probability replaced.
    pub open spec fn with_chance(self, chance: u32) -> MutationItem {
        match self {
            MutationItem::InRouteInversion(_) => MutationItem::InRouteInversion(
                InRouteInversionMutation { chance },
            ),
            MutationItem::InRouteScramble(_) => MutationItem::InRouteScramble(
                InRouteScrambleMutation { chance },
            ),
            MutationItem::InRouteSwap(_) => MutationItem::InRouteSwap(
                InRouteSwapMutation { chance },
            ),
            MutationItem::InRouteInsert(_) => MutationItem::InRouteInsert(
                InRouteInsertMutation { chance },
            ),
            MutationItem::CrossRouteSwap(_) => MutationItem::CrossRouteSwap(
                CrossRouteSwapMutation { chance },
            ),
            MutationItem::CrossRouteInsert(_) => MutationItem::CrossRouteInsert(
                CrossRouteInsertMutation { chance },
            ),
            MutationItem::Inversion(_) => MutationItem::Inversion(InversionMutation { chance }),
            MutationItem::Scramble(_) => MutationItem::Scramble(ScrambleMutation { chance }),
        }
    }

    /// Apply the operator with its own probability.
    pub fn mutate(&self, rng: &mut ChaCha8Rng, child: &mut Chromosome)
        ensures
            mutated_ok(old(child)@, final(child)@),
            self.spec_chance() == 0 ==> final(child)@ == old(child)@,
    {
        match self {
            MutationItem::InRouteInversion(m) => m.mutate(rng, child),
            MutationItem::InRouteScramble(m) => m.mutate(rng, child),
            MutationItem::InRouteSwap(m) => m.mutate(rng, child),
            MutationItem::InRouteInsert(m) => m.mutate(rng, child),
            MutationItem::CrossRouteSwap(m) => m.mutate(rng, child),
            MutationItem::CrossRouteInsert(m) => m.mutate(rng, child),
            MutationItem::Inversion(m) => m.mutate(rng, child),
            MutationItem::Scramble(m) => m.mutate(rng, child),
        }
    }

    /// Retune the operator's application probability (in thousandths).
    pub fn adjust_chance(&mut self, chance: u32)
        ensures
            *final(self) == old(self).with_chance(chance),
    {
        let next = match &*self {
            MutationItem::InRouteInversion(_) => MutationItem::InRouteInversion(
                InRouteInversionMutation { chance },
            ),
            MutationItem::InRouteScramble(_) => MutationItem::InRouteScramble(
                InRouteScrambleMutation { chance },
            ),
            MutationItem::InRouteSwap(_) => MutationItem::InRouteSwap(
                InRouteSwapMutation { chance },
            ),
            MutationItem::InRouteInsert(_) => MutationItem::InRouteInsert(
                InRouteInsertMutation { chance },
            ),
            MutationItem::CrossRouteSwap(_) => MutationItem::CrossRouteSwap(
                CrossRouteSwapMutation { chance },
            ),
            MutationItem::CrossRouteInsert(_) => MutationItem::CrossRouteInsert(
                CrossRouteInsertMutation { chance },
            ),
            MutationItem::Inversion(_) => MutationItem::Inversion(InversionMutation { chance }),
            MutationItem::Scramble(_) => MutationItem::Scramble(ScrambleMutation { chance }),
        };
        *self = next;
    }
}

/// The ordered collection of mutation operators an engine applies, with
/// bulk probability adjustment for the diversity feedback controller.
pub struct MutationHolder {
    pub mutations: Vec<MutationItem>,
}

impl MutationHolder {
    pub fn new() -> (r: Self)
        ensures
            r.mutations@.len() == 0,
    {
        Self { mutations: Vec::new() }
    }

    /// Register one more operator at the end of the list.
    pub fn register(&mut self, data: MutationItem)
        ensures
            final(self).mutations@.len() == old(self).mutations@.len() + 1,
    {
        self.mutations.push(data);
    }

    /// The registered operators.
    pub fn mutations(&self) -> (r: &Vec<MutationItem>)
        ensures
            r == &self.mutations,
    {
        &self.mutations
    }

    /// Set every operator's application probability (in thousandths).
    pub fn adjust_chances(&mut self, chance: u32)
        ensures
            final(self).mutations@.len() == old(self).mutations@.len(),
            forall|i: int|
                0 <= i < final(self).mutations@.len() ==> (#[trigger] final(self).mutations@[i])
                    == old(self).mutations@[i].with_chance(chance),
    {
        let ghost orig = self.mutations@;
        let n = self.mutations.len();
        let mut i: usize = 0;
        while i < n
            invariant
                n == self.mutations@.len(),
                n == orig.len(),
                i <= n,
                forall|k: int|
                    0 <= k < i ==> (#[trigger] self.mutations@[k]) == orig[k].with_chance(chance),
                forall|k: int| i <= k < n ==> (#[trigger] self.mutations@[k]) == orig[k],
            decreases n - i,
        {
            let mut m = self.mutations.remove(i);
            m.adjust_chance(chance);
            self.mutations.insert(i, m);
            i = i + 1;
        }
    }

    pub fn len(&self) -> (r: usize)
        ensures
            r == self.mutations@.len(),
    {
        self.mutations.len()
    }

    /// Apply the operator at `index` to a chromosome.
    pub fn mutate_at(&self, index: usize, rng: &mut ChaCha8Rng, child: &mut Chromosome)
        requires
            index < self.mutations@.len(),
        ensures
            mutated_ok(old(child)@, final(child)@),
    {
        self.mutations[index].mutate(rng, child)
    }
}

} // verus!
