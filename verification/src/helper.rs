//! Structural helpers on chromosomes: splitting a delimited chromosome into
//! per-nurse routes, recombining routes into a chromosome, and the Hamming
//! distance used by the crowding replacement rule.

use vstd::prelude::*;
use vstd::multiset::Multiset;
use crate::chromosome::{Chromosome, distinct_patients};
use crate::instance::TrainData;
use crate::individual::Route;
use crate::{FITNESS_LIMIT, MAX_POP};

verus! {

broadcast use vstd::multiset::group_multiset_axioms;

/// The per-nurse routes of a gene sequence: a delimiter ends the current
/// route and opens the next one, so a sequence with `z` delimiters yields
/// `z + 1` routes (some possibly empty).
pub open spec fn split_spec(s: Seq<u16>) -> Seq<Seq<u16>>
    decreases s.len(),
{
    if s.len() == 0 {
        seq![Seq::<u16>::empty()]
    } else if s.last() == 0 {
        split_spec(s.drop_last()).push(Seq::<u16>::empty())
    } else {
        let rs = split_spec(s.drop_last());
        rs.update(rs.len() - 1, rs.last().push(s.last()))
    }
}

/// The flat gene sequence of a route list: the routes in order with one
/// delimiter between each pair of consecutive routes.
pub open spec fn join_spec(rs: Seq<Seq<u16>>) -> Seq<u16>
    decreases rs.len(),
{
    if rs.len() <= 1 {
        if rs.len() == 0 {
            Seq::<u16>::empty()
        } else {
            rs[0]
        }
    } else {
        join_spec(rs.drop_last()) + seq![0u16] + rs.last()
    }
}

/// A route list is well-formed when it is non-empty and no route carries a
/// delimiter gene.
pub open spec fn routes_wf(rs: Seq<Seq<u16>>) -> bool {
    &&& rs.len() >= 1
    &&& forall|i: int, j: int|
        0 <= i < rs.len() && 0 <= j < rs[i].len() ==> (#[trigger] rs[i][j]) != 0
}

/// Splitting always yields at least one route.
pub proof fn lemma_split_len(s: Seq<u16>)
    ensures
        split_spec(s).len() >= 1,
    decreases s.len(),
{
    if s.len() > 0 {
        lemma_split_len(s.drop_last());
    }
}

/// The routes of a split carry no delimiter genes.
pub proof fn lemma_split_wf(s: Seq<u16>)
    ensures
        routes_wf(split_spec(s)),
    decreases s.len(),
{
    lemma_split_len(s);
    if s.len() > 0 {
        lemma_split_wf(s.drop_last());
    }
}

/// Joining after splitting reproduces the original chromosome: the
/// round-trip law for the delimited encoding.
pub proof fn lemma_join_split(s: Seq<u16>)
    ensures
        join_spec(split_spec(s)) == s,
    decreases s.len(),
{
    if s.len() == 0 {
        assert(join_spec(split_spec(s)) =~= s);
    } else {
        let d = s.drop_last();
        lemma_join_split(d);
        lemma_split_len(d);
        let rs = split_spec(d);
        if s.last() == 0 {
            assert(split_spec(s) == rs.push(Seq::<u16>::empty()));
            assert(rs.push(Seq::<u16>::empty()).drop_last() =~= rs);
            assert(join_spec(rs.push(Seq::<u16>::empty())) =~= join_spec(rs) + seq![0u16]);
            assert(join_spec(split_spec(s)) =~= s);
        } else {
            let k = rs.len() - 1;
            let rs2 = rs.update(k, rs.last().push(s.last()));
            assert(split_spec(s) == rs2);
            if rs.len() == 1 {
                assert(join_spec(rs2) == rs2[0]);
                assert(join_spec(split_spec(s)) =~= s);
            } else {
                assert(rs2.drop_last() =~= rs.drop_last());
                assert(join_spec(rs2) == join_spec(rs.drop_last()) + seq![0u16] + rs.last().push(s.last()));
                assert(join_spec(rs) == join_spec(rs.drop_last()) + seq![0u16] + rs.last());
                assert(join_spec(rs2) =~= join_spec(rs).push(s.last()));
                assert(join_spec(split_spec(s)) =~= s);
            }
        }
    }
}

/// Splitting after joining reproduces the original route list: joining is
/// injective on well-formed route lists.
pub proof fn lemma_split_join(rs: Seq<Seq<u16>>)
    requires
        routes_wf(rs),
    ensures
        split_spec(join_spec(rs)) == rs,
    decreases join_spec(rs).len(), rs.len(),
{
    let s = join_spec(rs);
    let k = rs.len() - 1;
    if rs.last().len() > 0 {
        let g = rs.last().last();
        assert(g != 0);
        let rs2 = rs.update(k, rs.last().drop_last());
        assert(routes_wf(rs2));
        if rs.len() == 1 {
            assert(s == rs[0]);
            assert(join_spec(rs2) == rs2[0]);
            assert(s =~= join_spec(rs2).push(g));
        } else {
            assert(rs2.drop_last() =~= rs.drop_last());
            assert(join_spec(rs2) == join_spec(rs.drop_last()) + seq![0u16] + rs.last().drop_last());
            assert(s == join_spec(rs.drop_last()) + seq![0u16] + rs.last());
            assert(s =~= join_spec(rs2).push(g));
        }
        assert(join_spec(rs2).len() < s.len());
        lemma_split_join(rs2);
        assert(s.len() > 0);
        assert(s.drop_last() =~= join_spec(rs2));
        assert(s.last() == g);
        let q = split_spec(join_spec(rs2));
        assert(q == rs2);
        lemma_split_len(join_spec(rs2));
        assert(split_spec(s) == q.update(q.len() - 1, q.last().push(g)));
        assert(q.last().push(g) =~= rs.last());
        assert(split_spec(s) =~= rs);
    } else if rs.len() >= 2 {
        let rs2 = rs.drop_last();
        assert(routes_wf(rs2));
        assert(s == join_spec(rs2) + seq![0u16] + rs.last());
        assert(s =~= join_spec(rs2).push(0u16));
        assert(s.len() > 0);
        assert(s.last() == 0);
        assert(s.drop_last() =~= join_spec(rs2));
        assert(join_spec(rs2).len() < s.len());
        lemma_split_join(rs2);
        assert(split_spec(s) == split_spec(join_spec(rs2)).push(Seq::<u16>::empty()));
        assert(Seq::<u16>::empty() =~= rs.last());
        assert(split_spec(s) =~= rs);
    } else {
        assert(rs.len() == 1 && rs[0].len() == 0);
        assert(s == rs[0]);
        assert(s.len() == 0);
        assert(split_spec(s) == seq![Seq::<u16>::empty()]);
        assert(Seq::<u16>::empty() =~= rs[0]);
        assert(split_spec(s) =~= rs);
    }
}

/// The summed multiset of a route list's genes.
pub open spec fn routes_ms(rs: Seq<Seq<u16>>) -> Multiset<u16>
    decreases rs.len(),
{
    if rs.len() == 0 {
        Multiset::empty()
    } else {
        routes_ms(rs.drop_last()).add(rs.last().to_multiset())
    }
}

/// A multiset holding `n` delimiter genes.
pub open spec fn zeros_ms(n: nat) -> Multiset<u16>
    decreases n,
{
    if n == 0 {
        Multiset::empty()
    } else {
        zeros_ms((n - 1) as nat).insert(0u16)
    }
}

/// The genes of a join are the genes of the routes plus one delimiter per
/// route boundary.
pub proof fn lemma_join_ms(rs: Seq<Seq<u16>>)
    requires
        rs.len() >= 1,
    ensures
        join_spec(rs).to_multiset() =~= routes_ms(rs).add(zeros_ms((rs.len() - 1) as nat)),
    decreases rs.len(),
{
    broadcast use vstd::seq_lib::group_to_multiset_ensures;

    if rs.len() == 1 {
        assert(routes_ms(rs.drop_last()) =~= Multiset::empty());
        assert(routes_ms(rs) =~= rs[0].to_multiset());
    } else {
        lemma_join_ms(rs.drop_last());
        let a = join_spec(rs.drop_last());
        let b = rs.last();
        vstd::seq_lib::lemma_multiset_commutative(a + seq![0u16], b);
        vstd::seq_lib::lemma_multiset_commutative(a, seq![0u16]);
        assert(seq![0u16].to_multiset() =~= Multiset::empty().insert(0u16)) by {
            assert(seq![0u16].drop_last() =~= Seq::<u16>::empty());
        }
        assert(join_spec(rs).to_multiset() =~= a.to_multiset().add(
            Multiset::empty().insert(0u16),
        ).add(b.to_multiset()));
    }
}

/// Replacing one route changes the summed multiset by exactly that route's
/// genes.
pub proof fn lemma_routes_ms_update(rs: Seq<Seq<u16>>, i: int, r: Seq<u16>)
    requires
        0 <= i < rs.len(),
        rs[i].to_multiset() == r.to_multiset(),
    ensures
        routes_ms(rs.update(i, r)) =~= routes_ms(rs),
    decreases rs.len(),
{
    if rs.len() > 0 {
        if i == rs.len() - 1 {
            assert(rs.update(i, r).drop_last() =~= rs.drop_last());
        } else {
            lemma_routes_ms_update(rs.drop_last(), i, r);
            assert(rs.update(i, r).drop_last() =~= rs.drop_last().update(i, r));
        }
    }
}

/// Replacing two routes, each by a reordering of itself, keeps the summed
/// multiset.
pub proof fn lemma_routes_ms_update2(
    rs: Seq<Seq<u16>>,
    i: int,
    r1: Seq<u16>,
    j: int,
    r2: Seq<u16>,
)
    requires
        0 <= i < rs.len(),
        0 <= j < rs.len(),
        i != j,
        rs[i].to_multiset().add(rs[j].to_multiset()) == r1.to_multiset().add(r2.to_multiset()),
    ensures
        routes_ms(rs.update(i, r1).update(j, r2)) =~= routes_ms(rs),
    decreases rs.len(),
{
    let k = rs.len() - 1;
    if i == k {
        lemma_routes_ms_swap_tail(rs, i, r1, j, r2);
    } else if j == k {
        assert forall|v: u16|
            rs[j].to_multiset().add(rs[i].to_multiset()).count(v) == r2.to_multiset().add(
                r1.to_multiset(),
            ).count(v) by {
            assert(rs[j].to_multiset().add(rs[i].to_multiset()).count(v) == rs[j].to_multiset().count(v) + rs[i].to_multiset().count(v));
            assert(r2.to_multiset().add(r1.to_multiset()).count(v) == r2.to_multiset().count(v) + r1.to_multiset().count(v));
            assert(rs[i].to_multiset().add(rs[j].to_multiset()).count(v) == rs[i].to_multiset().count(v) + rs[j].to_multiset().count(v));
            assert(r1.to_multiset().add(r2.to_multiset()).count(v) == r1.to_multiset().count(v) + r2.to_multiset().count(v));
            assert(rs[i].to_multiset().add(rs[j].to_multiset()).count(v) == r1.to_multiset().add(
                r2.to_multiset(),
            ).count(v));
        }
        assert(rs[j].to_multiset().add(rs[i].to_multiset()) =~= r2.to_multiset().add(
            r1.to_multiset(),
        ));
        lemma_routes_ms_swap_tail(rs, j, r2, i, r1);
        assert(rs.update(j, r2).update(i, r1) =~= rs.update(i, r1).update(j, r2));
    } else {
        lemma_routes_ms_update2(rs.drop_last(), i, r1, j, r2);
        assert(rs.update(i, r1).update(j, r2).drop_last() =~= rs.drop_last().update(i, r1).update(
            j,
            r2,
        ));
    }
}

proof fn lemma_routes_ms_swap_tail(rs: Seq<Seq<u16>>, i: int, r1: Seq<u16>, j: int, r2: Seq<u16>)
    requires
        0 <= j < rs.len(),
        i == rs.len() - 1,
        i != j,
        rs[i].to_multiset().add(rs[j].to_multiset()) == r1.to_multiset().add(r2.to_multiset()),
    ensures
        routes_ms(rs.update(i, r1).update(j, r2)) =~= routes_ms(rs),
    decreases rs.len(),
{
    let rs2 = rs.update(i, r1).update(j, r2);
    assert(rs2.last() == r1);
    assert(rs2.drop_last() =~= rs.drop_last().update(j, r2));
    lemma_routes_ms_one_change(rs.drop_last(), j, r2);
    let base = routes_ms(rs.drop_last().remove(j));
    assert(routes_ms(rs.drop_last().update(j, r2)) =~= base.add(r2.to_multiset()));
    assert(routes_ms(rs.drop_last()) =~= base.add(rs[j].to_multiset()));
    assert(routes_ms(rs2) =~= base.add(r2.to_multiset()).add(r1.to_multiset()));
    assert(routes_ms(rs) =~= base.add(rs[j].to_multiset()).add(rs[i].to_multiset()));
    assert forall|v: u16|
        routes_ms(rs2).count(v) == routes_ms(rs).count(v) by {
        assert(routes_ms(rs2).count(v) == base.add(r2.to_multiset()).add(
            r1.to_multiset(),
        ).count(v));
        assert(routes_ms(rs).count(v) == base.add(rs[j].to_multiset()).add(
            rs[i].to_multiset(),
        ).count(v));
        assert(base.add(r2.to_multiset()).add(r1.to_multiset()).count(v) == base.add(r2.to_multiset()).count(v) + r1.to_multiset().count(v));
        assert(base.add(r2.to_multiset()).count(v) == base.count(v) + r2.to_multiset().count(v));
        assert(base.add(rs[j].to_multiset()).add(rs[i].to_multiset()).count(v) == base.add(rs[j].to_multiset()).count(v) + rs[i].to_multiset().count(v));
        assert(base.add(rs[j].to_multiset()).count(v) == base.count(v) + rs[j].to_multiset().count(v));
        assert(rs[i].to_multiset().add(rs[j].to_multiset()).count(v) == rs[i].to_multiset().count(v) + rs[j].to_multiset().count(v));
        assert(r1.to_multiset().add(r2.to_multiset()).count(v) == r1.to_multiset().count(v) + r2.to_multiset().count(v));
        assert(rs[i].to_multiset().add(rs[j].to_multiset()).count(v) == r1.to_multiset().add(
            r2.to_multiset(),
        ).count(v));
    }
    assert(routes_ms(rs2) =~= routes_ms(rs));
}

proof fn lemma_routes_ms_one_change(rs: Seq<Seq<u16>>, j: int, r: Seq<u16>)
    requires
        0 <= j < rs.len(),
    ensures
        routes_ms(rs.update(j, r)) =~= routes_ms(rs.remove(j)).add(r.to_multiset()),
        routes_ms(rs) =~= routes_ms(rs.remove(j)).add(rs[j].to_multiset()),
    decreases rs.len(),
{
    let k = rs.len() - 1;
    if j == k {
        assert(rs.update(j, r).drop_last() =~= rs.remove(j));
        assert(rs.drop_last() =~= rs.remove(j));
    } else {
        lemma_routes_ms_one_change(rs.drop_last(), j, r);
        assert(rs.update(j, r).drop_last() =~= rs.drop_last().update(j, r));
        assert(rs.remove(j).drop_last() =~= rs.drop_last().remove(j));
        assert(rs.remove(j).last() == rs.last());
        assert(rs.update(j, r).last() == rs.last());
    }
}

/// Split a delimited chromosome into its per-nurse routes.  The original
/// encoding can be recovered with [`combine_into_chromo`].
pub fn split_into_nurses(chromosome: &Chromosome) -> (r: Vec<Vec<u16>>)
    requires
        exists|i: int| 0 <= i < chromosome@.len() && chromosome@[i] == 0,
    ensures
        r@.len() == split_spec(chromosome@).len(),
        forall|i: int| 0 <= i < r@.len() ==> (#[trigger] r@[i])@ == split_spec(chromosome@)[i],
{
    split_any(chromosome)
}

/// Split any chromosome into routes; a delimiter-free chromosome yields a
/// single route.
pub fn split_any(chromosome: &Chromosome) -> (r: Vec<Vec<u16>>)
    ensures
        r@.len() == split_spec(chromosome@).len(),
        forall|i: int| 0 <= i < r@.len() ==> (#[trigger] r@[i])@ == split_spec(chromosome@)[i],
{
    let mut split: Vec<Vec<u16>> = Vec::new();
    split.push(Vec::new());
    let n = chromosome.genes.len();
    let mut idx: usize = 0;
    let mut nurse_counter: usize = 0;
    while idx < n
        invariant
            n == chromosome@.len(),
            idx <= n,
            split@.len() == split_spec(chromosome@.take(idx as int)).len(),
            nurse_counter == split@.len() - 1,
            nurse_counter <= idx,
            forall|i: int|
                0 <= i < split@.len() ==> (#[trigger] split@[i])@ == split_spec(
                    chromosome@.take(idx as int),
                )[i],
        decreases n - idx,
    {
        let g = chromosome.genes[idx];
        proof {
            assert(chromosome@.take(idx + 1).drop_last() =~= chromosome@.take(idx as int));
            assert(chromosome@.take(idx + 1).last() == chromosome@[idx as int]);
            lemma_split_len(chromosome@.take(idx as int));
        }
        if g == 0 {
            nurse_counter = nurse_counter + 1;
            split.push(Vec::new());
        } else {
            let ghost prev = split_spec(chromosome@.take(idx as int));
            let ghost before = split@;
            let mut last = split.pop().unwrap();
            last.push(g);
            split.push(last);
            proof {
                let cur = split_spec(chromosome@.take(idx + 1));
                assert(cur == prev.update(prev.len() - 1, prev.last().push(chromosome@[idx as int])));
                assert(split@ =~= before.update(before.len() - 1, split@.last()));
                assert forall|i: int| 0 <= i < split@.len() implies (#[trigger] split@[i])@
                    == cur[i] by {
                    if i < split@.len() - 1 {
                        assert(split@[i] == before[i]);
                        assert(before[i]@ == prev[i]);
                    } else {
                        assert(split@[i]@ =~= prev.last().push(chromosome@[idx as int]));
                    }
                }
            }
        }
        idx = idx + 1;
    }
    proof {
        assert(chromosome@.take(n as int) =~= chromosome@);
    }
    split
}

/// Concatenate per-nurse routes back into one delimited chromosome.
pub fn combine_into_chromo(split: &Vec<Vec<u16>>) -> (r: Chromosome)
    requires
        split@.len() >= 1,
    ensures
        r@ == join_spec(split@.map_values(|v: Vec<u16>| v@)),
{
    let ghost rs = split@.map_values(|v: Vec<u16>| v@);
    let mut t: Vec<u16> = Vec::new();
    let n = split.len();
    let mut k: usize = 0;
    while k < n
        invariant
            n == split@.len(),
            rs == split@.map_values(|v: Vec<u16>| v@),
            1 <= n,
            k <= n,
            k == 0 ==> t@ =~= Seq::<u16>::empty(),
            k >= 1 ==> t@ == join_spec(rs.take(k as int)).push(0u16),
        decreases n - k,
    {
        let route = &split[k];
        let m = route.len();
        let ghost t0 = t@;
        let mut p: usize = 0;
        while p < m
            invariant
                m == route@.len(),
                p <= m,
                t@ == t0 + route@.take(p as int),
            decreases m - p,
        {
            t.push(route[p]);
            proof {
                assert(t0 + route@.take(p + 1) =~= (t0 + route@.take(p as int)).push(
                    route@[p as int],
                ));
            }
            p = p + 1;
        }
        proof {
            assert(route@.take(m as int) =~= route@);
        }
        t.push(0);
        proof {
            let tk = rs.take(k + 1);
            assert(tk.drop_last() =~= rs.take(k as int));
            assert(tk.last() == rs[k as int]);
            assert(rs[k as int] == route@);
            if k == 0 {
                assert(join_spec(tk) == rs[0]);
                assert(t@ =~= join_spec(tk).push(0u16));
            } else {
                assert(join_spec(tk) == join_spec(rs.take(k as int)) + seq![0u16] + route@);
                assert(t@ =~= join_spec(tk).push(0u16));
            }
        }
        k = k + 1;
    }
    proof {
        assert(rs.take(n as int) =~= rs);
    }
    let last = t.pop();
    proof {
        assert(t@ =~= join_spec(rs));
    }
    Chromosome { genes: t }
}

/// Number of positions at which two equally long gene sequences differ.
pub open spec fn hamming_spec(a: Seq<u16>, b: Seq<u16>) -> nat
    decreases a.len(),
{
    if a.len() == 0 {
        0
    } else {
        hamming_spec(a.drop_last(), b.drop_last()) + if a.last() == b.last() {
            0nat
        } else {
            1nat
        }
    }
}

/// Hamming distance between two chromosomes of equal length.
pub fn hamming_distance(h1: &Chromosome, h2: &Chromosome) -> (r: u16)
    requires
        h1@.len() == h2@.len(),
        h1@.len() <= u16::MAX,
    ensures
        r == hamming_spec(h1@, h2@),
{
    let n = h1.genes.len();
    let mut h_dist: u16 = 0;
    let mut i: usize = 0;
    while i < n
        invariant
            n == h1@.len(),
            n == h2@.len(),
            n <= u16::MAX,
            i <= n,
            h_dist == hamming_spec(h1@.take(i as int), h2@.take(i as int)),
        decreases n - i,
    {
        proof {
            lemma_hamming_le(h1@.take(i as int), h2@.take(i as int));
            assert(h1@.take(i + 1).drop_last() =~= h1@.take(i as int));
            assert(h2@.take(i + 1).drop_last() =~= h2@.take(i as int));
        }
        if h1.genes[i] != h2.genes[i] {
            h_dist = h_dist + 1;
        }
        i = i + 1;
    }
    proof {
        assert(h1@.take(n as int) =~= h1@);
        assert(h2@.take(n as int) =~= h2@);
    }
    h_dist
}

/// The Hamming distance never exceeds the length.
pub proof fn lemma_hamming_le(a: Seq<u16>, b: Seq<u16>)
    requires
        a.len() == b.len(),
    ensures
        hamming_spec(a, b) <= a.len(),
    decreases a.len(),
{
    if a.len() > 0 {
        lemma_hamming_le(a.drop_last(), b.drop_last());
    }
}

/// The Hamming distance is symmetric, zero exactly on identical chromosomes,
/// and equal to the length exactly when every position differs.
pub proof fn lemma_hamming_properties(a: Seq<u16>, b: Seq<u16>)
    requires
        a.len() == b.len(),
    ensures
        hamming_spec(a, b) == hamming_spec(b, a),
        (hamming_spec(a, b) == 0) <==> a == b,
        (hamming_spec(a, b) == a.len()) <==> (forall|i: int| 0 <= i < a.len() ==> a[i] != b[i]),
    decreases a.len(),
{
    if a.len() == 0 {
        assert(a =~= b);
    } else {
        lemma_hamming_properties(a.drop_last(), b.drop_last());
        lemma_hamming_le(a.drop_last(), b.drop_last());
        if hamming_spec(a, b) == 0 {
            assert(a.drop_last() == b.drop_last());
            assert(a.last() == b.last());
            assert forall|i: int| 0 <= i < a.len() implies a[i] == b[i] by {
                if i < a.len() - 1 {
                    assert(a.drop_last()[i] == b.drop_last()[i]);
                }
            }
            assert(a =~= b);
        }
        if a == b {
            assert(a.drop_last() =~= b.drop_last());
        }
        if hamming_spec(a, b) == a.len() {
            assert(hamming_spec(a.drop_last(), b.drop_last()) == a.len() - 1);
            assert forall|i: int| 0 <= i < a.len() implies a[i] != b[i] by {
                if i < a.len() - 1 {
                    assert(a.drop_last()[i] != b.drop_last()[i]);
                }
            }
        }
        if forall|i: int| 0 <= i < a.len() ==> a[i] != b[i] {
            assert forall|i: int| 0 <= i < a.len() - 1 implies a.drop_last()[i]
                != b.drop_last()[i] by {
                assert(a[i] != b[i]);
            }
        }
    }
}

/// The per-route views of a vector of routes.
pub open spec fn views(v: Seq<Vec<u16>>) -> Seq<Seq<u16>> {
    v.map_values(|x: Vec<u16>| x@)
}

/// Every gene of every route is a patient identifier in range.
pub open spec fn route_elems_in_range(rs: Seq<Seq<u16>>, patients: nat) -> bool {
    forall|i: int, j: int|
        0 <= i < rs.len() && 0 <= j < rs[i].len() ==> 1 <= (#[trigger] rs[i][j]) <= patients
}

/// Insertion slot `k` of a route holding patients only: its origin is the
/// depot for `k == 0` and the `k-1`-th patient otherwise.
pub open spec fn slot_origin(r: Seq<u16>, k: int) -> u16 {
    if k == 0 {
        0u16
    } else {
        r[k - 1]
    }
}

/// The destination of slot `k`: the `k`-th patient, or the depot after the
/// last one.
pub open spec fn slot_dest(r: Seq<u16>, k: int) -> u16 {
    if k == r.len() {
        0u16
    } else {
        r[k]
    }
}

/// Inserting `g` at slot `k` is feasible when the origin's window end plus
/// the travel to `g` precedes `g`'s window start, and `g`'s window end plus
/// the travel onward precedes the destination's window start (the depot's
/// return deadline when the destination is the depot).
pub open spec fn slot_feasible(r: Seq<u16>, k: int, g: u16, t: &TrainData) -> bool {
    let origin = slot_origin(r, k);
    let dest = slot_dest(r, k);
    let origin_end: int = if origin == 0 {
        0
    } else {
        t.spec_patient(origin as int).end_time as int
    };
    let dest_start: int = if dest == 0 {
        t.depot.return_time as int
    } else {
        t.spec_patient(dest as int).start_time as int
    };
    &&& origin_end + t.spec_travel(origin as int, g as int) < t.spec_patient(
        g as int,
    ).start_time
    &&& t.spec_patient(g as int).end_time + t.spec_travel(g as int, dest as int) < dest_start
}

/// Cost of a slot: the onward travel time from `g` to the destination.
pub open spec fn slot_cost(r: Seq<u16>, k: int, g: u16, t: &TrainData) -> int {
    t.spec_travel(g as int, slot_dest(r, k) as int) as int
}

/// The best feasible insertion slot among the first `n` slots: lowest cost,
/// later slots winning ties (index paired with its cost).
pub open spec fn best_slot(r: Seq<u16>, g: u16, t: &TrainData, n: int) -> Option<(int, int)>
    decreases n,
{
    if n <= 0 {
        Option::None
    } else {
        let prev = best_slot(r, g, t, n - 1);
        if slot_feasible(r, n - 1, g, t) {
            match prev {
                Option::None => Option::Some((n - 1, slot_cost(r, n - 1, g, t))),
                Option::Some(p) => if slot_cost(r, n - 1, g, t) <= p.1 {
                    Option::Some((n - 1, slot_cost(r, n - 1, g, t)))
                } else {
                    prev
                },
            }
        } else {
            prev
        }
    }
}

/// Place one patient: the last route absorbs it unconditionally, an empty
/// route under construction takes it directly, and otherwise it goes into
/// the best feasible slot of the current route -- or the route is closed and
/// the next nurse's route tried.
pub open spec fn pfi_place(rs: Seq<Seq<u16>>, rc: int, g: u16, t: &TrainData) -> (
    Seq<Seq<u16>>,
    int,
)
    decreases rs.len() - rc,
{
    if rc >= rs.len() - 1 {
        (rs.update(rs.len() - 1, rs.last().push(g)), rc)
    } else if rs[rc].len() == 0 {
        (rs.update(rc, seq![g]), rc)
    } else {
        match best_slot(rs[rc], g, t, rs[rc].len() as int + 1) {
            Option::Some(p) => (rs.update(rc, rs[rc].insert(p.0, g)), rc),
            Option::None => pfi_place(rs, rc + 1, g, t),
        }
    }
}

/// `n` empty routes.
pub open spec fn empty_routes(n: nat) -> Seq<Seq<u16>> {
    Seq::new(n, |i: int| Seq::<u16>::empty())
}

/// The push-forward insertion heuristic over a delimiter-free gene sequence:
/// routes built so far and the index of the route under construction.
pub open spec fn pfi_state(s: Seq<u16>, t: &TrainData, nn: nat) -> (Seq<Seq<u16>>, int)
    decreases s.len(),
{
    if s.len() == 0 {
        (empty_routes(nn), 0)
    } else {
        let prev = pfi_state(s.drop_last(), t, nn);
        pfi_place(prev.0, prev.1, s.last(), t)
    }
}

/// The routes the heuristic derives for a delimiter-free chromosome.
pub open spec fn pfi_routes(s: Seq<u16>, t: &TrainData, nn: nat) -> Seq<Seq<u16>> {
    pfi_state(s, t, nn).0
}

/// The total number of genes over all routes.
pub open spec fn routes_total_len(rs: Seq<Seq<u16>>) -> int
    decreases rs.len(),
{
    if rs.len() == 0 {
        0
    } else {
        routes_total_len(rs.drop_last()) + rs.last().len()
    }
}

/// Replacing one route changes the total length by the length difference.
pub proof fn lemma_routes_total_len_update(rs: Seq<Seq<u16>>, i: int, r: Seq<u16>)
    requires
        0 <= i < rs.len(),
    ensures
        routes_total_len(rs.update(i, r)) == routes_total_len(rs) - rs[i].len() + r.len(),
    decreases rs.len(),
{
    let k = rs.len() - 1;
    if i == k {
        assert(rs.update(i, r).drop_last() =~= rs.drop_last());
    } else {
        lemma_routes_total_len_update(rs.drop_last(), i, r);
        assert(rs.update(i, r).drop_last() =~= rs.drop_last().update(i, r));
        assert(rs.update(i, r).last() == rs.last());
    }
}

/// Route gene totals are never negative.
pub proof fn lemma_routes_total_len_nonneg(rs: Seq<Seq<u16>>)
    ensures
        routes_total_len(rs) >= 0,
    decreases rs.len(),
{
    if rs.len() > 0 {
        lemma_routes_total_len_nonneg(rs.drop_last());
    }
}

/// The length of a join: all route genes plus one delimiter per boundary.
pub proof fn lemma_join_total_len(rs: Seq<Seq<u16>>)
    requires
        rs.len() >= 1,
    ensures
        join_spec(rs).len() == routes_total_len(rs) + rs.len() - 1,
    decreases rs.len(),
{
    if rs.len() > 1 {
        lemma_join_total_len(rs.drop_last());
    } else {
        assert(rs.drop_last().len() == 0);
        assert(routes_total_len(rs.drop_last()) == 0);
        assert(join_spec(rs) == rs[0]);
    }
}

/// Every gene of a join is a delimiter or a gene of some route.
pub proof fn lemma_join_elems(rs: Seq<Seq<u16>>, patients: nat)
    requires
        rs.len() >= 1,
        route_elems_in_range(rs, patients),
    ensures
        forall|i: int|
            0 <= i < join_spec(rs).len() ==> (#[trigger] join_spec(rs)[i]) <= patients,
    decreases rs.len(),
{
    if rs.len() == 1 {
        assert(join_spec(rs) == rs[0]);
    } else {
        assert(route_elems_in_range(rs.drop_last(), patients)) by {
            assert(forall|i: int, j: int|
                0 <= i < rs.drop_last().len() && 0 <= j < rs.drop_last()[i].len()
                    ==> rs.drop_last()[i][j] == rs[i][j]);
        }
        lemma_join_elems(rs.drop_last(), patients);
        let a = join_spec(rs.drop_last());
        let b = rs.last();
        assert forall|i: int| 0 <= i < join_spec(rs).len() implies (#[trigger] join_spec(rs)[i])
            <= patients by {
            if i < a.len() {
                assert(join_spec(rs)[i] == a[i]);
            } else if i == a.len() {
                assert(join_spec(rs)[i] == 0);
            } else {
                assert(join_spec(rs)[i] == b[i - a.len() - 1]);
                assert(rs[rs.len() - 1][i - a.len() - 1] <= patients);
            }
        }
    }
}

/// Inserting one gene into a sequence adds exactly that gene to its multiset.
pub proof fn lemma_insert_ms<T>(s: Seq<T>, i: int, a: T)
    requires
        0 <= i <= s.len(),
    ensures
        s.insert(i, a).to_multiset() =~= s.to_multiset().insert(a),
{
    broadcast use vstd::seq_lib::group_to_multiset_ensures;

    assert(s.insert(i, a) =~= s.take(i) + seq![a] + s.skip(i));
    vstd::seq_lib::lemma_multiset_commutative(s.take(i) + seq![a], s.skip(i));
    vstd::seq_lib::lemma_multiset_commutative(s.take(i), seq![a]);
    vstd::seq_lib::lemma_multiset_commutative(s.take(i), s.skip(i));
    assert(s.take(i) + s.skip(i) =~= s);
    assert(seq![a].to_multiset() =~= Multiset::empty().insert(a)) by {
        assert(seq![a].drop_last() =~= Seq::<T>::empty());
    }
    assert forall|v: T| s.insert(i, a).to_multiset().count(v) == s.to_multiset().insert(
        a,
    ).count(v) by {
        assert((s.take(i) + seq![a]).to_multiset().count(v) == s.take(i).to_multiset().count(v)
            + seq![a].to_multiset().count(v));
        assert(((s.take(i) + seq![a]) + s.skip(i)).to_multiset().count(v) == (s.take(i)
            + seq![a]).to_multiset().count(v) + s.skip(i).to_multiset().count(v));
        assert((s.take(i) + s.skip(i)).to_multiset().count(v) == s.take(i).to_multiset().count(v)
            + s.skip(i).to_multiset().count(v));
    }
}

/// Placing a patient grows the routes' summed multiset by exactly that
/// patient, and leaves the route count and range invariants intact.
pub proof fn lemma_pfi_place_ms(rs: Seq<Seq<u16>>, rc: int, g: u16, t: &TrainData, patients: nat)
    requires
        rs.len() >= 1,
        0 <= rc < rs.len(),
        route_elems_in_range(rs, patients),
        1 <= g <= patients,
    ensures
        pfi_place(rs, rc, g, t).0.len() == rs.len(),
        rc <= pfi_place(rs, rc, g, t).1 < rs.len(),
        routes_ms(pfi_place(rs, rc, g, t).0) =~= routes_ms(rs).insert(g),
        route_elems_in_range(pfi_place(rs, rc, g, t).0, patients),
        routes_total_len(pfi_place(rs, rc, g, t).0) == routes_total_len(rs) + 1,
    decreases rs.len() - rc,
{
    broadcast use vstd::seq_lib::group_to_multiset_ensures;

    let k = rs.len() - 1;
    if rc >= k {
        let r2 = rs.last().push(g);
        lemma_routes_total_len_update(rs, k, r2);
        lemma_routes_ms_one_change(rs, k, r2);
        assert(routes_ms(rs.update(k, r2)) =~= routes_ms(rs.remove(k)).add(r2.to_multiset()));
        assert(routes_ms(rs) =~= routes_ms(rs.remove(k)).add(rs[k].to_multiset()));
        assert(r2.to_multiset() =~= rs[k].to_multiset().insert(g));
        assert forall|v: u16|
            routes_ms(rs.update(k, r2)).count(v) == routes_ms(rs).insert(g).count(v) by {
            assert(routes_ms(rs.remove(k)).add(r2.to_multiset()).count(v) == routes_ms(
                rs.remove(k),
            ).count(v) + r2.to_multiset().count(v));
            assert(routes_ms(rs.remove(k)).add(rs[k].to_multiset()).count(v) == routes_ms(
                rs.remove(k),
            ).count(v) + rs[k].to_multiset().count(v));
        }
        assert(route_elems_in_range(rs.update(k, r2), patients)) by {
            assert(forall|j: int| 0 <= j < rs[k].len() ==> r2[j] == rs[k][j]);
        }
    } else if rs[rc].len() == 0 {
        let r2 = seq![g];
        lemma_routes_total_len_update(rs, rc, r2);
        lemma_routes_ms_one_change(rs, rc, r2);
        assert(r2.to_multiset() =~= rs[rc].to_multiset().insert(g)) by {
            assert(r2.drop_last() =~= Seq::<u16>::empty());
            assert(rs[rc] =~= Seq::<u16>::empty());
        }
        assert forall|v: u16|
            routes_ms(rs.update(rc, r2)).count(v) == routes_ms(rs).insert(g).count(v) by {
            assert(routes_ms(rs.remove(rc)).add(r2.to_multiset()).count(v) == routes_ms(
                rs.remove(rc),
            ).count(v) + r2.to_multiset().count(v));
            assert(routes_ms(rs.remove(rc)).add(rs[rc].to_multiset()).count(v) == routes_ms(
                rs.remove(rc),
            ).count(v) + rs[rc].to_multiset().count(v));
        }
    } else {
        match best_slot(rs[rc], g, t, rs[rc].len() as int + 1) {
            Option::Some(p) => {
                lemma_best_slot_range(rs[rc], g, t, rs[rc].len() as int + 1);
                let r2 = rs[rc].insert(p.0, g);
                lemma_routes_total_len_update(rs, rc, r2);
                lemma_insert_ms(rs[rc], p.0, g);
                lemma_routes_ms_one_change(rs, rc, r2);
                assert forall|v: u16|
                    routes_ms(rs.update(rc, r2)).count(v) == routes_ms(rs).insert(g).count(
                        v,
                    ) by {
                    assert(routes_ms(rs.remove(rc)).add(r2.to_multiset()).count(v) == routes_ms(
                        rs.remove(rc),
                    ).count(v) + r2.to_multiset().count(v));
                    assert(routes_ms(rs.remove(rc)).add(rs[rc].to_multiset()).count(v)
                        == routes_ms(rs.remove(rc)).count(v) + rs[rc].to_multiset().count(v));
                }
                assert(route_elems_in_range(rs.update(rc, r2), patients)) by {
                    assert(r2 =~= rs[rc].take(p.0) + seq![g] + rs[rc].skip(p.0));
                    assert(forall|j: int| 0 <= j < r2.len() ==> 1 <= (#[trigger] r2[j]) <= patients);
                }
            },
            Option::None => {
                lemma_pfi_place_ms(rs, rc + 1, g, t, patients);
            },
        }
    }
}

/// A best slot, when found, is a valid insertion index.
pub proof fn lemma_best_slot_range(r: Seq<u16>, g: u16, t: &TrainData, n: int)
    requires
        n <= r.len() + 1,
    ensures
        best_slot(r, g, t, n) is Some ==> 0 <= best_slot(r, g, t, n).unwrap().0 < n,
    decreases n,
{
    if n > 0 {
        lemma_best_slot_range(r, g, t, n - 1);
    }
}

/// Push-forward insertion assigns every patient of a delimiter-free
/// chromosome to exactly one route: the routes' summed gene multiset equals
/// the chromosome's.
pub proof fn lemma_pfi_assigns_all(s: Seq<u16>, t: &TrainData, nn: nat, patients: nat)
    requires
        nn >= 1,
        forall|i: int| 0 <= i < s.len() ==> 1 <= (#[trigger] s[i]) <= patients,
    ensures
        pfi_state(s, t, nn).0.len() == nn,
        0 <= pfi_state(s, t, nn).1 < nn,
        routes_ms(pfi_state(s, t, nn).0) =~= s.to_multiset(),
        route_elems_in_range(pfi_state(s, t, nn).0, patients),
        routes_total_len(pfi_state(s, t, nn).0) == s.len(),
    decreases s.len(),
{
    broadcast use vstd::seq_lib::group_to_multiset_ensures;

    if s.len() == 0 {
        lemma_empty_routes_ms(nn);
        lemma_empty_routes_total_len(nn);
        assert(s.to_multiset() =~= Multiset::empty());
    } else {
        assert(forall|i: int|
            0 <= i < s.drop_last().len() ==> 1 <= (#[trigger] s.drop_last()[i]) <= patients);
        lemma_pfi_assigns_all(s.drop_last(), t, nn, patients);
        let prev = pfi_state(s.drop_last(), t, nn);
        lemma_pfi_place_ms(prev.0, prev.1, s.last(), t, patients);
        assert(1 <= s.last() <= patients);
        assert(s =~= s.drop_last().push(s.last()));
        assert(s.drop_last().push(s.last()).to_multiset() =~= s.drop_last().to_multiset().insert(
            s.last(),
        ));
    }
}

proof fn lemma_empty_routes_total_len(n: nat)
    ensures
        routes_total_len(empty_routes(n)) == 0,
    decreases n,
{
    if n > 0 {
        lemma_empty_routes_total_len((n - 1) as nat);
        assert(empty_routes(n).drop_last() =~~= empty_routes((n - 1) as nat));
    }
}

proof fn lemma_empty_routes_ms(n: nat)
    ensures
        routes_ms(empty_routes(n)) =~= Multiset::<u16>::empty(),
    decreases n,
{
    if n > 0 {
        lemma_empty_routes_ms((n - 1) as nat);
        assert(empty_routes(n).drop_last() =~~= empty_routes((n - 1) as nat));
        assert(empty_routes(n).last() =~= Seq::<u16>::empty());
        let e = Seq::<u16>::empty();
        e.to_multiset_ensures();
        assert forall|v: u16| e.to_multiset().count(v) == Multiset::<u16>::empty().count(v) by {
            assert(!e.contains(v));
            assert(e.to_multiset().count(v) > 0 <==> e.contains(v));
        }
        assert(e.to_multiset() =~= Multiset::<u16>::empty());
    }
}

/// Feasibility and cost of one insertion slot.
fn slot_check(route: &Vec<u16>, k: usize, g: u16, t: &TrainData) -> (r: (bool, u64))
    requires
        t.wf(),
        k <= route@.len(),
        1 <= g <= t.spec_patient_count(),
        forall|j: int|
            0 <= j < route@.len() ==> 1 <= (#[trigger] route@[j]) <= t.spec_patient_count(),
    ensures
        r.0 == slot_feasible(route@, k as int, g, t),
        r.0 ==> r.1 == slot_cost(route@, k as int, g, t),
{
    let m = route.len();
    let origin: u16 = if k == 0 {
        0
    } else {
        route[k - 1]
    };
    let dest: u16 = if k == m {
        0
    } else {
        route[k]
    };
    let origin_end: u64 = if origin == 0 {
        0
    } else {
        t.patient(origin).end_time
    };
    let dest_start: u64 = if dest == 0 {
        t.depot.return_time
    } else {
        t.patient(dest).start_time
    };
    let g_start = t.patient(g).start_time;
    let g_end = t.patient(g).end_time;
    let feasible = origin_end + t.travel(origin as usize, g as usize) < g_start && g_end
        + t.travel(g as usize, dest as usize) < dest_start;
    proof {
        assert(origin == slot_origin(route@, k as int));
        assert(dest == slot_dest(route@, k as int));
        assert(feasible == slot_feasible(route@, k as int, g, t));
    }
    let cost = t.travel(g as usize, dest as usize);
    (feasible, cost)
}

/// One step of the heuristic on the route vector.
fn pfi_place_exec(routes: &mut Vec<Vec<u16>>, rc: usize, g: u16, t: &TrainData) -> (r: usize)
    requires
        t.wf(),
        old(routes)@.len() >= 1,
        rc < old(routes)@.len(),
        1 <= g <= t.spec_patient_count(),
        route_elems_in_range(views(old(routes)@), t.spec_patient_count()),
    ensures
        final(routes)@.len() == old(routes)@.len(),
        views(final(routes)@) == pfi_place(views(old(routes)@), rc as int, g, t).0,
        r == pfi_place(views(old(routes)@), rc as int, g, t).1,
        rc <= r < old(routes)@.len(),
    decreases old(routes)@.len() - rc,
{
    let ghost rs = views(old(routes)@);
    proof {
        lemma_pfi_place_ms(rs, rc as int, g, t, t.spec_patient_count());
    }
    let nn = routes.len();
    if rc >= nn - 1 {
        let mut last = routes.remove(nn - 1);
        last.push(g);
        routes.insert(nn - 1, last);
        proof {
            let target = rs.update(rs.len() - 1, rs.last().push(g));
            assert forall|i: int| 0 <= i < routes@.len() implies (#[trigger] views(routes@)[i])
                == target[i] by {
                assert(views(routes@)[i] == routes@[i]@);
                if i < rs.len() - 1 {
                    assert(routes@[i] == old(routes)@[i]);
                } else {
                    assert(routes@[i]@ =~= rs.last().push(g));
                }
            }
            assert(views(routes@) =~= target);
        }
        rc
    } else if routes[rc].len() == 0 {
        let mut r0 = routes.remove(rc);
        r0.push(g);
        routes.insert(rc, r0);
        proof {
            let target = rs.update(rc as int, seq![g]);
            assert forall|i: int| 0 <= i < routes@.len() implies (#[trigger] views(routes@)[i])
                == target[i] by {
                assert(views(routes@)[i] == routes@[i]@);
                if i != rc {
                    assert(routes@[i] == old(routes)@[i]);
                } else {
                    assert(routes@[i]@ =~= seq![g]);
                }
            }
            assert(views(routes@) =~= target);
        }
        rc
    } else {
        let route = &routes[rc];
        let m = route.len();
        let mut found = false;
        let mut bi: usize = 0;
        let mut bc: u64 = 0;
        let mut k: usize = 0;
        while k < m
            invariant
                t.wf(),
                m == route@.len(),
                m >= 1,
                k <= m,
                route@ == rs[rc as int],
                rc < rs.len(),
                1 <= g <= t.spec_patient_count(),
                route_elems_in_range(rs, t.spec_patient_count()),
                found <==> best_slot(route@, g, t, k as int) is Some,
                found ==> best_slot(route@, g, t, k as int) == Option::Some(
                    (bi as int, bc as int),
                ),
            decreases m - k,
        {
            let r = slot_check(route, k, g, t);
            if r.0 {
                if !found || r.1 <= bc {
                    found = true;
                    bi = k;
                    bc = r.1;
                }
            }
            k = k + 1;
        }
        let r = slot_check(route, m, g, t);
        if r.0 {
            if !found || r.1 <= bc {
                found = true;
                bi = m;
                bc = r.1;
            }
        }
        proof {
            assert(found <==> best_slot(route@, g, t, m as int + 1) is Some);
            assert(found ==> best_slot(route@, g, t, m as int + 1) == Option::Some(
                (bi as int, bc as int),
            ));
        }
        if found {
            proof {
                lemma_best_slot_range(route@, g, t, m as int + 1);
            }
            let mut r2 = routes.remove(rc);
            r2.insert(bi, g);
            routes.insert(rc, r2);
            proof {
                let target = rs.update(rc as int, rs[rc as int].insert(bi as int, g));
                assert forall|i: int| 0 <= i < routes@.len() implies (#[trigger] views(routes@)[i])
                    == target[i] by {
                    assert(views(routes@)[i] == routes@[i]@);
                    if i != rc {
                        assert(routes@[i] == old(routes)@[i]);
                    }
                }
                assert(views(routes@) =~= target);
            }
            rc
        } else {
            let r = pfi_place_exec(routes, rc + 1, g, t);
            r
        }
    }
}

/// Derive per-nurse routes for a delimiter-free chromosome by push-forward
/// insertion: each patient goes, in chromosome order, into the
/// lowest-travel-time feasible slot of the route under construction; a route
/// with no feasible slot is closed, and the last nurse's route absorbs
/// whatever remains.
pub fn push_forward_insertion(chromo: &Chromosome, t_data: &TrainData) -> (r: Vec<Vec<u16>>)
    requires
        t_data.wf(),
        chromo@.len() >= 1,
        forall|i: int|
            0 <= i < chromo@.len() ==> 1 <= (#[trigger] chromo@[i])
                <= t_data.spec_patient_count(),
    ensures
        r@.len() == t_data.nbr_nurses,
        views(r@) == pfi_routes(chromo@, t_data, t_data.nbr_nurses as nat),
{
    let ghost npat = t_data.spec_patient_count();
    let nn = t_data.nbr_nurses;
    let mut routes: Vec<Vec<u16>> = Vec::new();
    let mut q: usize = 0;
    while q < nn
        invariant
            q <= nn,
            routes@.len() == q,
            forall|i: int| 0 <= i < q ==> (#[trigger] routes@[i])@ == Seq::<u16>::empty(),
        decreases nn - q,
    {
        routes.push(Vec::new());
        q = q + 1;
    }
    proof {
        assert(views(routes@) =~= empty_routes(nn as nat));
    }
    let n = chromo.genes.len();
    let mut rc: usize = 0;
    let mut i: usize = 0;
    while i < n
        invariant
            t_data.wf(),
            nn == t_data.nbr_nurses,
            1 <= nn,
            npat == t_data.spec_patient_count(),
            n == chromo@.len(),
            forall|j: int| 0 <= j < n ==> 1 <= (#[trigger] chromo@[j]) <= npat,
            i <= n,
            routes@.len() == nn,
            views(routes@) == pfi_state(chromo@.take(i as int), t_data, nn as nat).0,
            rc == pfi_state(chromo@.take(i as int), t_data, nn as nat).1,
            rc < nn,
            route_elems_in_range(views(routes@), npat),
        decreases n - i,
    {
        let g = chromo.genes[i];
        proof {
            assert(chromo@.take(i + 1).drop_last() =~= chromo@.take(i as int));
            assert(chromo@.take(i + 1).last() == chromo@[i as int]);
            lemma_pfi_place_ms(views(routes@), rc as int, g, t_data, npat);
        }
        rc = pfi_place_exec(&mut routes, rc, g, t_data);
        i = i + 1;
    }
    proof {
        assert(chromo@.take(n as int) =~= chromo@);
    }
    routes
}


/// Route lists of equal length and equal summed gene multisets join into
/// chromosomes with equal gene multisets.
pub proof fn lemma_join_ms_eq(rs1: Seq<Seq<u16>>, rs2: Seq<Seq<u16>>)
    requires
        rs1.len() == rs2.len(),
        rs1.len() >= 1,
        routes_ms(rs1) == routes_ms(rs2),
    ensures
        join_spec(rs1).to_multiset() == join_spec(rs2).to_multiset(),
{
    lemma_join_ms(rs1);
    lemma_join_ms(rs2);
    let z = zeros_ms((rs1.len() - 1) as nat);
    assert forall|v: u16|
        join_spec(rs1).to_multiset().count(v) == join_spec(rs2).to_multiset().count(v) by {
        assert(routes_ms(rs1).add(z).count(v) == routes_ms(rs1).count(v) + z.count(v));
        assert(routes_ms(rs2).add(z).count(v) == routes_ms(rs2).count(v) + z.count(v));
    }
    assert(join_spec(rs1).to_multiset() =~= join_spec(rs2).to_multiset());
}

/// The flat position of gene `p` of route `i` inside the join.
pub open spec fn route_pos(rs: Seq<Seq<u16>>, i: int, p: int) -> int
    decreases rs.len(),
{
    if rs.len() <= 1 {
        p
    } else if i >= rs.len() - 1 {
        join_spec(rs.drop_last()).len() + 1 + p
    } else {
        route_pos(rs.drop_last(), i, p)
    }
}

/// `route_pos` lands on the right gene of the join.
pub proof fn lemma_route_pos(rs: Seq<Seq<u16>>, i: int, p: int)
    requires
        0 <= i < rs.len(),
        0 <= p < rs[i].len(),
    ensures
        0 <= route_pos(rs, i, p) < join_spec(rs).len(),
        join_spec(rs)[route_pos(rs, i, p)] == rs[i][p],
    decreases rs.len(),
{
    if i == rs.len() - 1 {
        if rs.len() == 1 {
            assert(join_spec(rs) == rs[0]);
        } else {
            let a = join_spec(rs.drop_last());
            assert(join_spec(rs) == a + seq![0u16] + rs.last());
            assert(join_spec(rs)[a.len() + 1 + p] == rs.last()[p]);
        }
    } else {
        lemma_route_pos(rs.drop_last(), i, p);
        let a = join_spec(rs.drop_last());
        assert(join_spec(rs) == a + seq![0u16] + rs.last());
        assert(join_spec(rs)[route_pos(rs.drop_last(), i, p)] == a[route_pos(
            rs.drop_last(),
            i,
            p,
        )]);
    }
}

/// `route_pos` is strictly increasing in (route, position) order.
pub proof fn lemma_route_pos_mono(rs: Seq<Seq<u16>>, i: int, p: int, j: int, q: int)
    requires
        0 <= i <= j < rs.len(),
        0 <= p < rs[i].len(),
        0 <= q < rs[j].len(),
        i < j || p < q,
    ensures
        route_pos(rs, i, p) < route_pos(rs, j, q),
    decreases rs.len(),
{
    if j == rs.len() - 1 {
        if i == j {
        } else {
            lemma_route_pos(rs.drop_last(), i, p);
        }
    } else {
        lemma_route_pos_mono(rs.drop_last(), i, p, j, q);
    }
}

/// In a well-formed route list whose join has distinct patients, no gene
/// occurs at two different (route, position) places.
pub proof fn lemma_route_elems_distinct(rs: Seq<Seq<u16>>, i: int, p: int, j: int, q: int)
    requires
        routes_wf(rs),
        distinct_patients(join_spec(rs)),
        0 <= i <= j < rs.len(),
        0 <= p < rs[i].len(),
        0 <= q < rs[j].len(),
        i < j || p < q,
    ensures
        rs[i][p] != rs[j][q],
{
    lemma_route_pos(rs, i, p);
    lemma_route_pos(rs, j, q);
    lemma_route_pos_mono(rs, i, p, j, q);
    if rs[i][p] == rs[j][q] {
        let a = route_pos(rs, i, p);
        let b = route_pos(rs, j, q);
        assert(join_spec(rs)[a] == join_spec(rs)[b]);
        assert(rs[i][p] != 0);
        assert(false);
    }
}


/// Counts after removing one occurrence.
pub proof fn lemma_ms_remove_counts<T>(m: Multiset<T>, a: T)
    requires
        m.count(a) >= 1,
    ensures
        m.remove(a).count(a) == m.count(a) - 1,
        forall|v: T| v != a ==> (#[trigger] m.remove(a).count(v)) == m.count(v),
{
    vstd::multiset::lemma_update_same(m, a, (m.count(a) - 1) as nat);
    assert forall|v: T| v != a implies (#[trigger] m.remove(a).count(v)) == m.count(v) by {
        vstd::multiset::lemma_update_different(m, a, (m.count(a) - 1) as nat, v);
    }
}

/// Counts after inserting one occurrence.
pub proof fn lemma_ms_insert_counts<T>(m: Multiset<T>, a: T)
    ensures
        m.insert(a).count(a) == m.count(a) + 1,
        forall|v: T| v != a ==> (#[trigger] m.insert(a).count(v)) == m.count(v),
{
    vstd::multiset::lemma_insert_increases_count_by_1(m, a);
    assert forall|v: T| v != a implies (#[trigger] m.insert(a).count(v)) == m.count(v) by {
        vstd::multiset::lemma_insert_other_elements_unchanged(m, a, v);
    }
}

/// Overwriting position `i` exchanges the old gene for the new one in the
/// multiset.
pub proof fn lemma_update_ms(s: Seq<u16>, i: int, x: u16)
    requires
        0 <= i < s.len(),
    ensures
        s.update(i, x).to_multiset() =~= s.to_multiset().remove(s[i]).insert(x),
{
    broadcast use vstd::seq_lib::group_to_multiset_ensures;

    assert(s.update(i, x) =~= s.remove(i).insert(i, x));
    assert(s.remove(i).to_multiset() =~= s.to_multiset().remove(s[i]));
    lemma_insert_ms(s.remove(i), i, x);
    assert(s.remove(i).insert(i, x).to_multiset() =~= s.remove(i).to_multiset().insert(x));
}

/// Swapping two positions keeps the multiset.
pub proof fn lemma_swap_ms(s: Seq<u16>, i: int, j: int)
    requires
        0 <= i < s.len(),
        0 <= j < s.len(),
        i != j,
    ensures
        s.update(i, s[j]).update(j, s[i]).to_multiset() =~= s.to_multiset(),
{
    broadcast use vstd::seq_lib::group_to_multiset_ensures;

    let a = s[i];
    let b = s[j];
    let m = s.to_multiset();
    let s1 = s.update(i, b);
    lemma_update_ms(s, i, b);
    assert(s1[j] == b);
    lemma_update_ms(s1, j, a);
    assert(s.contains(a));
    assert(m.count(a) >= 1);
    lemma_ms_remove_counts(m, a);
    lemma_ms_insert_counts(m.remove(a), b);
    let m1 = m.remove(a).insert(b);
    assert(s1.to_multiset() == m1);
    assert(m1.count(b) >= 1);
    lemma_ms_remove_counts(m1, b);
    lemma_ms_insert_counts(m1.remove(b), a);
    assert forall|v: u16|
        s.update(i, s[j]).update(j, s[i]).to_multiset().count(v) == m.count(v) by {
        lemma_ms_remove_counts(m, a);
        lemma_ms_insert_counts(m.remove(a), b);
        lemma_ms_remove_counts(m1, b);
        lemma_ms_insert_counts(m1.remove(b), a);
    }
    assert(s.update(i, s[j]).update(j, s[i]).to_multiset() =~= m);
}

/// Moving one gene from position `p` to slot `q` keeps the multiset.
pub proof fn lemma_move_ms<T>(s: Seq<T>, p: int, q: int)
    requires
        0 <= p < s.len(),
        0 <= q <= s.len() - 1,
    ensures
        s.remove(p).insert(q, s[p]).to_multiset() =~= s.to_multiset(),
{
    broadcast use vstd::seq_lib::group_to_multiset_ensures;

    let g = s[p];
    let m = s.to_multiset();
    assert(s.remove(p).to_multiset() =~= m.remove(g));
    lemma_insert_ms(s.remove(p), q, g);
    assert(s.contains(g));
    assert(m.count(g) >= 1);
    assert forall|v: T| s.remove(p).insert(q, g).to_multiset().count(v) == m.count(v) by {
        lemma_ms_remove_counts(m, g);
        lemma_ms_insert_counts(m.remove(g), g);
    }
    assert(s.remove(p).insert(q, g).to_multiset() =~= m);
}

/// Reversal keeps the multiset.
pub proof fn lemma_reverse_ms(s: Seq<u16>)
    ensures
        s.reverse().to_multiset() =~= s.to_multiset(),
    decreases s.len(),
{
    broadcast use vstd::seq_lib::group_to_multiset_ensures;

    if s.len() == 0 {
        assert(s.reverse() =~= s);
    } else {
        lemma_reverse_ms(s.drop_last());
        assert(s.reverse() =~= s.drop_last().reverse().insert(0, s.last()));
        lemma_insert_ms(s.drop_last().reverse(), 0, s.last());
        assert forall|v: u16| s.reverse().to_multiset().count(v) == s.to_multiset().count(v) by {
            lemma_ms_insert_counts(s.drop_last().reverse().to_multiset(), s.last());
            lemma_ms_insert_counts(s.drop_last().to_multiset(), s.last());
            assert(s =~= s.drop_last().push(s.last()));
            assert(s.drop_last().push(s.last()).to_multiset() =~= s.drop_last().to_multiset().insert(s.last()));
        }
        assert(s.reverse().to_multiset() =~= s.to_multiset());
    }
}


/// The summed fitness of a population.
pub open spec fn sum_fitness(s: Seq<Route>) -> int
    decreases s.len(),
{
    if s.len() == 0 {
        0
    } else {
        sum_fitness(s.drop_last()) + s.last().fitness
    }
}

/// The summed squared deviation from `mean`.
pub open spec fn dev_sq_sum(s: Seq<Route>, mean: int) -> int
    decreases s.len(),
{
    if s.len() == 0 {
        0
    } else {
        dev_sq_sum(s.drop_last(), mean) + (s.last().fitness - mean) * (s.last().fitness - mean)
    }
}

/// Every fitness value of the population is inside the evaluator's range.
pub open spec fn fitness_bounded(s: Seq<Route>) -> bool {
    forall|i: int| 0 <= i < s.len() ==> (#[trigger] s[i]).fitness < FITNESS_LIMIT
}

pub proof fn lemma_sum_fitness_bound(s: Seq<Route>)
    requires
        fitness_bounded(s),
    ensures
        0 <= sum_fitness(s) <= s.len() * (FITNESS_LIMIT as int - 1),
    decreases s.len(),
{
    if s.len() > 0 {
        assert(fitness_bounded(s.drop_last())) by {
            assert(forall|i: int|
                0 <= i < s.drop_last().len() ==> s.drop_last()[i] == s[i]);
        }
        lemma_sum_fitness_bound(s.drop_last());
    }
}

pub proof fn lemma_dev_sq_bound(s: Seq<Route>, mean: int)
    requires
        fitness_bounded(s),
        0 <= mean < FITNESS_LIMIT,
    ensures
        0 <= dev_sq_sum(s, mean) <= s.len() * 0x4_0000_0000_0000_0000_0000_0000,
    decreases s.len(),
{
    if s.len() > 0 {
        assert(fitness_bounded(s.drop_last())) by {
            assert(forall|i: int|
                0 <= i < s.drop_last().len() ==> s.drop_last()[i] == s[i]);
        }
        lemma_dev_sq_bound(s.drop_last(), mean);
        let d = s.last().fitness - mean;
        assert(0 <= d * d <= 0x4_0000_0000_0000_0000_0000_0000) by (nonlinear_arith)
            requires
                -0x2_0000_0000_0000 < d < 0x2_0000_0000_0000,
        ;
    }
}

/// Floor of the square root.
fn isqrt_u128(x: u128) -> (r: u64)
    requires
        x < 0x1_0000_0000_0000_0000_0000_0000_0000,
    ensures
        (r as int) * (r as int) <= x < (r as int + 1) * (r as int + 1),
{
    let mut lo: u128 = 0;
    let mut hi: u128 = 0x100_0000_0000_0000;
    proof {
        assert((0x100_0000_0000_0000int + 1) * (0x100_0000_0000_0000int + 1)
            > 0x1_0000_0000_0000_0000_0000_0000_0000int) by (nonlinear_arith);
    }
    while lo < hi
        invariant
            lo <= hi <= 0x100_0000_0000_0000,
            (lo as int) * (lo as int) <= x,
            (hi as int + 1) * (hi as int + 1) > x,
        decreases hi - lo,
    {
        let mid = lo + (hi - lo + 1) / 2;
        proof {
            assert((mid as int) * (mid as int) <= (0x100_0000_0000_0000int)
                * 0x100_0000_0000_0000int) by (nonlinear_arith)
                requires
                    0 <= mid <= 0x100_0000_0000_0000int,
            ;
        }
        if mid * mid <= x {
            lo = mid;
        } else {
            hi = mid - 1;
        }
    }
    proof {
        assert(lo <= 0x100_0000_0000_0000 < u64::MAX);
    }
    lo as u64
}

/// The population's fitness standard deviation, as the floor square root of
/// the sample variance around the floor mean.
pub fn pop_std_dev(population: &Vec<Route>) -> (r: u64)
    requires
        2 <= population@.len() <= MAX_POP,
        fitness_bounded(population@),
    ensures
        ({
            let mean = sum_fitness(population@) / (population@.len() as int);
            let var = dev_sq_sum(population@, mean) / (population@.len() - 1);
            &&& (r as int) * (r as int) <= var
            &&& var < (r as int + 1) * (r as int + 1)
        }),
{
    let n = population.len();
    let mut sum: u64 = 0;
    let mut i: usize = 0;
    while i < n
        invariant
            n == population@.len(),
            n <= MAX_POP,
            fitness_bounded(population@),
            i <= n,
            sum == sum_fitness(population@.take(i as int)),
        decreases n - i,
    {
        proof {
            assert(population@.take(i + 1).drop_last() =~= population@.take(i as int));
            assert(population@.take(i + 1).last() == population@[i as int]);
            assert(fitness_bounded(population@.take(i + 1))) by {
                assert(forall|k: int|
                    0 <= k < i + 1 ==> population@.take(i + 1)[k] == population@[k]);
            }
            lemma_sum_fitness_bound(population@.take(i + 1));
        }
        sum = sum + population[i].fitness;
        i = i + 1;
    }
    proof {
        assert(population@.take(n as int) =~= population@);
    }
    let mean = sum / (n as u64);
    let ghost mean_i = sum_fitness(population@) / (population@.len() as int);
    proof {
        assert(mean == mean_i);
        lemma_sum_fitness_bound(population@);
        assert(0 <= mean_i < FITNESS_LIMIT) by (nonlinear_arith)
            requires
                0 <= sum_fitness(population@) <= population@.len() * (FITNESS_LIMIT as int - 1),
                2 <= population@.len(),
                mean_i == sum_fitness(population@) / (population@.len() as int),
        ;
    }
    let mut devsq: u128 = 0;
    let mut i: usize = 0;
    while i < n
        invariant
            n == population@.len(),
            n <= MAX_POP,
            fitness_bounded(population@),
            i <= n,
            mean == mean_i,
            0 <= mean_i < FITNESS_LIMIT,
            devsq == dev_sq_sum(population@.take(i as int), mean_i),
        decreases n - i,
    {
        proof {
            assert(population@.take(i + 1).drop_last() =~= population@.take(i as int));
            assert(population@.take(i + 1).last() == population@[i as int]);
            assert(fitness_bounded(population@.take(i + 1))) by {
                assert(forall|k: int|
                    0 <= k < i + 1 ==> population@.take(i + 1)[k] == population@[k]);
            }
            lemma_dev_sq_bound(population@.take(i + 1), mean_i);
            lemma_dev_sq_bound(population@.take(i as int), mean_i);
        }
        let f = population[i].fitness;
        let d: u64 = if f >= mean {
            f - mean
        } else {
            mean - f
        };
        proof {
            let dd = population@[i as int].fitness - mean_i;
            assert((d as int) * (d as int) == dd * dd) by (nonlinear_arith)
                requires
                    d == if dd >= 0 {
                        dd
                    } else {
                        -dd
                    },
            ;
            assert((d as int) * (d as int) <= 0x4_0000_0000_0000_0000_0000_0000int)
                by (nonlinear_arith)
                requires
                    0 <= d < 0x2_0000_0000_0000,
            ;
        }
        devsq = devsq + (d as u128) * (d as u128);
        i = i + 1;
    }
    proof {
        assert(population@.take(n as int) =~= population@);
        lemma_dev_sq_bound(population@, mean_i);
    }
    let var = devsq / ((n - 1) as u128);
    proof {
        let vi = dev_sq_sum(population@, mean_i) / (population@.len() - 1);
        assert(var == vi);
        assert(var < 0x1_0000_0000_0000_0000_0000_0000_0000) by (nonlinear_arith)
            requires
                0 <= devsq <= population@.len() * 0x4_0000_0000_0000_0000_0000_0000int,
                2 <= population@.len() <= 10_000,
                var == (devsq as int) / (population@.len() - 1),
        ;
    }
    isqrt_u128(var)
}

/// The population's mean fitness, rounded down.
pub fn avg_fitness(population: &Vec<Route>) -> (r: u64)
    requires
        1 <= population@.len() <= MAX_POP,
        fitness_bounded(population@),
    ensures
        r == sum_fitness(population@) / (population@.len() as int),
{
    let n = population.len();
    let mut sum: u64 = 0;
    let mut i: usize = 0;
    while i < n
        invariant
            n == population@.len(),
            n <= MAX_POP,
            fitness_bounded(population@),
            i <= n,
            sum == sum_fitness(population@.take(i as int)),
        decreases n - i,
    {
        proof {
            assert(population@.take(i + 1).drop_last() =~= population@.take(i as int));
            assert(population@.take(i + 1).last() == population@[i as int]);
            assert(fitness_bounded(population@.take(i + 1))) by {
                assert(forall|k: int|
                    0 <= k < i + 1 ==> population@.take(i + 1)[k] == population@[k]);
            }
            lemma_sum_fitness_bound(population@.take(i + 1));
        }
        sum = sum + population[i].fitness;
        i = i + 1;
    }
    proof {
        assert(population@.take(n as int) =~= population@);
    }
    sum / (n as u64)
}

/// The lowest-fitness individual of a non-empty population.
pub fn best_fitness(population: &Vec<Route>) -> (r: &Route)
    requires
        population@.len() >= 1,
    ensures
        exists|i: int| 0 <= i < population@.len() && population@[i] == *r,
        forall|j: int| 0 <= j < population@.len() ==> (#[trigger] population@[j]).fitness >= r.fitness,
{
    let n = population.len();
    let mut best: usize = 0;
    let mut i: usize = 1;
    while i < n
        invariant
            n == population@.len(),
            best < n,
            1 <= i <= n,
            forall|j: int| 0 <= j < i ==> (#[trigger] population@[j]).fitness >= population@[best as int].fitness,
        decreases n - i,
    {
        if population[i].fitness < population[best].fitness {
            best = i;
        }
        i = i + 1;
    }
    &population[best]
}

/// Keep only the `n` lowest-fitness individuals; a request larger than the
/// population keeps everyone, sorted.
pub fn keep_best_n(population: &mut Vec<Route>, n: usize)
    ensures
        final(population)@.len() == if n <= old(population)@.len() {
            n as int
        } else {
            old(population)@.len() as int
        },
        crate::selection::sorted_by_fitness(final(population)@),
        forall|x: Route| final(population)@.contains(x) ==> old(population)@.contains(x),
        exists|all: Seq<Route>|
            #![auto]
            all.to_multiset() == old(population)@.to_multiset() && crate::selection::sorted_by_fitness(all)
                && final(population)@ == (if n <= all.len() {
                all.take(n as int)
            } else {
                all
            }),
{
    crate::selection::sort_by_fitness(population);
    let ghost all = population@;
    population.truncate(n);
    proof {
        if n <= all.len() {
            assert(population@ == all.take(n as int));
        }
        assert forall|x: Route| population@.contains(x) implies old(population)@.contains(x) by {
            let i = choose|i: int| 0 <= i < population@.len() && population@[i] == x;
            assert(all.contains(x)) by {
                if n <= all.len() {
                    assert(all[i] == x);
                }
            }
        }
    }
}


/// A sequence pair differing at exactly one position has Hamming distance
/// one.
pub proof fn lemma_hamming_single(a: Seq<u16>, b: Seq<u16>, d: int)
    requires
        a.len() == b.len(),
        0 <= d < a.len(),
        a[d] != b[d],
        forall|j: int| 0 <= j < a.len() && j != d ==> a[j] == b[j],
    ensures
        hamming_spec(a, b) == 1,
    decreases a.len(),
{
    if d == a.len() - 1 {
        assert(a.drop_last() =~= b.drop_last());
        lemma_hamming_properties(a.drop_last(), b.drop_last());
    } else {
        assert(forall|j: int|
            0 <= j < a.drop_last().len() && j != d ==> a.drop_last()[j] == b.drop_last()[j]);
        lemma_hamming_single(a.drop_last(), b.drop_last(), d);
    }
}

/// A sequence pair differing at exactly two positions has Hamming distance
/// two.
pub proof fn lemma_hamming_double(a: Seq<u16>, b: Seq<u16>, d1: int, d2: int)
    requires
        a.len() == b.len(),
        0 <= d1 < d2 < a.len(),
        a[d1] != b[d1],
        a[d2] != b[d2],
        forall|j: int| 0 <= j < a.len() && j != d1 && j != d2 ==> a[j] == b[j],
    ensures
        hamming_spec(a, b) == 2,
    decreases a.len(),
{
    if d2 == a.len() - 1 {
        assert(forall|j: int|
            0 <= j < a.drop_last().len() && j != d1 ==> a.drop_last()[j] == b.drop_last()[j]);
        lemma_hamming_single(a.drop_last(), b.drop_last(), d1);
    } else {
        assert(forall|j: int|
            0 <= j < a.drop_last().len() && j != d1 && j != d2 ==> a.drop_last()[j]
                == b.drop_last()[j]);
        lemma_hamming_double(a.drop_last(), b.drop_last(), d1, d2);
    }
}

/// Replacing one route by another of the same length moves the join only at
/// that route's own flat positions, and puts the new genes exactly there.
pub proof fn lemma_join_update_index(rs: Seq<Seq<u16>>, k: int, r2: Seq<u16>)
    requires
        0 <= k < rs.len(),
        r2.len() == rs[k].len(),
    ensures
        join_spec(rs.update(k, r2)).len() == join_spec(rs).len(),
        forall|p: int|
            0 <= p < rs[k].len() ==> join_spec(rs.update(k, r2))[crate::helper::route_pos(
                rs,
                k,
                p,
            )] == r2[p],
        forall|j: int|
            0 <= j < join_spec(rs).len() && join_spec(rs.update(k, r2))[j] != join_spec(rs)[j]
                ==> exists|p: int| 0 <= p < rs[k].len() && j == route_pos(rs, k, p),
    decreases rs.len(),
{
    let upd = rs.update(k, r2);
    if k == rs.len() - 1 {
        if rs.len() == 1 {
            assert(join_spec(rs) == rs[0]);
            assert(join_spec(upd) == r2);
            assert forall|p: int|
                0 <= p < rs[k].len() implies join_spec(upd)[route_pos(rs, k, p)] == r2[p] by {
                assert(route_pos(rs, k, p) == p);
            }
        } else {
            let a = join_spec(rs.drop_last());
            assert(upd.drop_last() =~= rs.drop_last());
            assert(join_spec(rs) == a + seq![0u16] + rs[k]);
            assert(join_spec(upd) == a + seq![0u16] + r2);
            assert(forall|p: int|
                0 <= p < rs[k].len() ==> route_pos(rs, k, p) == a.len() + 1 + p);
            assert forall|p: int|
                0 <= p < rs[k].len() implies join_spec(upd)[route_pos(rs, k, p)] == r2[p] by {
                assert(route_pos(rs, k, p) == a.len() + 1 + p);
                assert(join_spec(upd)[a.len() + 1 + p] == r2[p]);
            }
            assert forall|j: int|
                0 <= j < join_spec(rs).len() && join_spec(upd)[j] != join_spec(rs)[j]
                implies exists|p: int| 0 <= p < rs[k].len() && j == route_pos(rs, k, p) by {
                if j < a.len() + 1 {
                    assert(join_spec(upd)[j] == join_spec(rs)[j]);
                } else {
                    let p = j - a.len() - 1;
                    assert(j == route_pos(rs, k, p));
                }
            }
        }
    } else {
        let d = rs.drop_last();
        assert(upd.drop_last() =~= d.update(k, r2));
        assert(upd.last() == rs.last());
        lemma_join_update_index(d, k, r2);
        let a = join_spec(d);
        let a2 = join_spec(d.update(k, r2));
        assert(join_spec(rs) == a + seq![0u16] + rs.last());
        assert(join_spec(upd) == a2 + seq![0u16] + rs.last());
        assert(a2.len() == a.len());
        assert(forall|p: int| 0 <= p < d[k].len() ==> route_pos(rs, k, p) == route_pos(d, k, p));
        assert forall|p: int|
            0 <= p < rs[k].len() implies join_spec(upd)[route_pos(rs, k, p)] == r2[p] by {
            lemma_route_pos(d, k, p);
            assert(route_pos(rs, k, p) == route_pos(d, k, p));
            assert(join_spec(upd)[route_pos(d, k, p)] == a2[route_pos(d, k, p)]);
            assert(a2[route_pos(d, k, p)] == r2[p]);
        }
        assert forall|j: int|
            0 <= j < join_spec(rs).len() && join_spec(upd)[j] != join_spec(rs)[j]
            implies exists|p: int| 0 <= p < rs[k].len() && j == route_pos(rs, k, p) by {
            if j < a.len() {
                assert(join_spec(upd)[j] == a2[j]);
                assert(join_spec(rs)[j] == a[j]);
                let p = choose|p: int| 0 <= p < d[k].len() && j == route_pos(d, k, p);
                assert(j == route_pos(rs, k, p));
            } else {
                assert(join_spec(upd)[j] == join_spec(rs)[j]);
            }
        }
    }
}

/// `route_pos` only depends on the route lengths, so updating one route in
/// place leaves every position unchanged.
pub proof fn lemma_route_pos_update(rs: Seq<Seq<u16>>, k1: int, r2: Seq<u16>, k2: int, p: int)
    requires
        0 <= k1 < rs.len(),
        r2.len() == rs[k1].len(),
        0 <= k2 < rs.len(),
        0 <= p < rs[k2].len(),
    ensures
        route_pos(rs.update(k1, r2), k2, p) == route_pos(rs, k2, p),
    decreases rs.len(),
{
    let upd = rs.update(k1, r2);
    if rs.len() <= 1 {
    } else if k2 == rs.len() - 1 {
        if k1 == rs.len() - 1 {
            assert(upd.drop_last() =~= rs.drop_last());
        } else {
            lemma_join_update_index(rs.drop_last(), k1, r2);
            assert(upd.drop_last() =~= rs.drop_last().update(k1, r2));
        }
    } else {
        if k1 == rs.len() - 1 {
            assert(upd.drop_last() =~= rs.drop_last());
            assert(route_pos(upd, k2, p) == route_pos(rs.drop_last(), k2, p));
        } else {
            assert(upd.drop_last() =~= rs.drop_last().update(k1, r2));
            lemma_route_pos_update(rs.drop_last(), k1, r2, k2, p);
        }
    }
}

} // verus!
