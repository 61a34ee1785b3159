//! Crossover operators: each produces one offspring chromosome from two
//! parents and preserves the encoding invariant, so the offspring is again
//! a valid permutation.

use vstd::prelude::*;
use vstd::pervasive::VecAdditionalExecFns;
use rand_chacha::ChaCha8Rng;
use crate::chromosome::{
    Chromosome, valid_delimited, valid_no_delim, lemma_valid_of_multiset_eq, lemma_valid_ms_eq,
    lemma_valid_distinct, distinct_patients,
};
use crate::instance::TrainData;
use crate::helper::{lemma_ms_insert_counts, lemma_swap_ms};
use crate::rng::rng_below;

verus! {

pub open spec fn min_int(a: int, b: int) -> int {
    if a < b {
        a
    } else {
        b
    }
}

/// Occurrences within a slice never exceed occurrences in the whole.
pub proof fn lemma_subrange_counts(s: Seq<u16>, lo: int, hi: int)
    requires
        0 <= lo <= hi <= s.len(),
    ensures
        forall|v: u16| #[trigger]
            s.subrange(lo, hi).to_multiset().count(v) <= s.to_multiset().count(v),
{
    broadcast use vstd::seq_lib::group_to_multiset_ensures;

    let w = s.subrange(lo, hi);
    assert(s =~= s.take(lo) + w + s.skip(hi));
    vstd::seq_lib::lemma_multiset_commutative(s.take(lo) + w, s.skip(hi));
    vstd::seq_lib::lemma_multiset_commutative(s.take(lo), w);
    assert forall|v: u16| #[trigger]
        w.to_multiset().count(v) <= s.to_multiset().count(v) by {
        assert(((s.take(lo) + w) + s.skip(hi)).to_multiset().count(v) == (s.take(lo)
            + w).to_multiset().count(v) + s.skip(hi).to_multiset().count(v));
        assert((s.take(lo) + w).to_multiset().count(v) == s.take(lo).to_multiset().count(v)
            + w.to_multiset().count(v));
    }
}

/// A copy of the genes between two positions.
fn copy_range(v: &Vec<u16>, lo: usize, hi: usize) -> (r: Vec<u16>)
    requires
        lo <= hi <= v@.len(),
    ensures
        r@ == v@.subrange(lo as int, hi as int),
{
    let mut r: Vec<u16> = Vec::new();
    let mut i: usize = lo;
    while i < hi
        invariant
            lo <= i <= hi <= v@.len(),
            r@ == v@.subrange(lo as int, i as int),
        decreases hi - i,
    {
        r.push(v[i]);
        proof {
            assert(v@.subrange(lo as int, i + 1) =~= v@.subrange(lo as int, i as int).push(
                v@[i as int],
            ));
        }
        i = i + 1;
    }
    r
}

/// How often a gene occurs in a vector.
fn count_gene(v: &Vec<u16>, g: u16) -> (r: usize)
    ensures
        r == v@.to_multiset().count(g),
{
    broadcast use vstd::seq_lib::group_to_multiset_ensures;

    let n = v.len();
    let mut count: usize = 0;
    let mut i: usize = 0;
    while i < n
        invariant
            n == v@.len(),
            i <= n,
            count == v@.take(i as int).to_multiset().count(g),
            count <= i,
        decreases n - i,
    {
        proof {
            assert(v@.take(i + 1) =~= v@.take(i as int).push(v@[i as int]));
            v@.take(i as int).to_multiset_ensures();
            assert(v@.take(i as int).push(v@[i as int]).to_multiset() =~= v@.take(
                i as int,
            ).to_multiset().insert(v@[i as int]));
            lemma_ms_insert_counts(v@.take(i as int).to_multiset(), v@[i as int]);
        }
        if v[i] == g {
            count = count + 1;
        }
        i = i + 1;
    }
    proof {
        assert(v@.take(n as int) =~= v@);
    }
    count
}

/// Whether a vector holds a gene.
fn contains_gene(v: &Vec<u16>, g: u16) -> (r: bool)
    ensures
        r <==> v@.contains(g),
{
    let n = v.len();
    let mut i: usize = 0;
    while i < n
        invariant
            n == v@.len(),
            i <= n,
            forall|j: int| 0 <= j < i ==> v@[j] != g,
        decreases n - i,
    {
        if v[i] == g {
            return true;
        }
        i = i + 1;
    }
    false
}

/// The genes of a parent in wrap-around order starting at `hi`.
pub open spec fn rotate_from(a: Seq<u16>, hi: int) -> Seq<u16> {
    a.skip(hi) + a.take(hi)
}

/// The fill pass as a deterministic function: after the first `k` genes of
/// the rotated parent, the fill collected so far and the delimiter quota
/// still open.  A delimiter is kept while the quota lasts; a patient is kept
/// unless the window already holds it.
pub open spec fn ox_fill_state(rot: Seq<u16>, w: Seq<u16>, quota0: int, k: int) -> (Seq<u16>, int)
    decreases k,
{
    if k <= 0 {
        (Seq::<u16>::empty(), quota0)
    } else {
        let prev = ox_fill_state(rot, w, quota0, k - 1);
        let g = rot[k - 1];
        if g == 0 {
            if prev.1 > 0 {
                (prev.0.push(0u16), prev.1 - 1)
            } else {
                prev
            }
        } else if w.contains(g) {
            prev
        } else {
            (prev.0.push(g), prev.1)
        }
    }
}

/// The order-one construction: the copied window of the second parent keeps
/// its positions, and the remaining positions, walked in wrap-around order
/// starting just after the window, hold the first parent's fill genes.
pub open spec fn ox_shape(child: Seq<u16>, a: Seq<u16>, b: Seq<u16>, lo: int, hi: int) -> bool {
    let w = b.subrange(lo, hi);
    let quota0 = a.to_multiset().count(0u16) - w.to_multiset().count(0u16);
    let fill = ox_fill_state(rotate_from(a, hi), w, quota0, a.len() as int).0;
    &&& child.len() == a.len()
    &&& child.subrange(lo, hi) == w
    &&& fill.len() == a.len() - (hi - lo)
    &&& forall|m: int| 0 <= m < fill.len() ==> child[(hi + m) % (a.len() as int)] == fill[m]
}

/// Derive the construction shape from the assembly layout.
proof fn lemma_ox_shape(
    child: Seq<u16>,
    a: Seq<u16>,
    b: Seq<u16>,
    lo: int,
    hi: int,
    fill: Seq<u16>,
    w: Seq<u16>,
)
    requires
        0 <= lo <= hi <= a.len(),
        a.len() >= 1,
        b.len() == a.len(),
        w == b.subrange(lo, hi),
        fill == ox_fill_state(
            rotate_from(a, hi),
            w,
            a.to_multiset().count(0u16) - w.to_multiset().count(0u16),
            a.len() as int,
        ).0,
        fill.len() == a.len() - (hi - lo),
        child.len() == fill.len() + w.len(),
        forall|j: int|
            0 <= j < child.len() ==> child[j] == (fill + w)[if j < hi {
                j + (fill.len() + w.len()) - hi
            } else {
                j - hi
            }],
    ensures
        ox_shape(child, a, b, lo, hi),
{
    assert(w.len() == hi - lo);
    assert forall|j: int| lo <= j < hi implies child[j] == w[j - lo] by {
        let lenw = fill.len() + w.len();
        assert(child[j] == (fill + w)[j + lenw - hi]);
        assert(j + lenw - hi >= fill.len());
        assert((fill + w)[j + lenw - hi] == w[j + lenw - hi - fill.len()]);
        assert(j + lenw - hi - fill.len() == j - lo);
    }
    assert(child.subrange(lo, hi) =~= w);
    let len = a.len() as int;
    assert forall|m: int|
        0 <= m < fill.len() implies child[(hi + m) % len] == fill[m] by {
        if hi + m < len {
            assert((hi + m) % len == hi + m) by (nonlinear_arith)
                requires
                    0 <= hi + m < len,
            ;
            assert(child[hi + m] == (fill + w)[m]);
        } else {
            assert((hi + m) % len == hi + m - len) by (nonlinear_arith)
                requires
                    len <= hi + m < 2 * len,
                    len >= 1,
            ;
            let j = hi + m - len;
            assert(j < lo);
            assert(child[j] == (fill + w)[j + len - hi]);
        }
    }
}

/// The fill pass of order-one crossover: walk the first parent's genes in
/// rotated order starting just after the copied window, keep every patient
/// the window does not already hold, and keep delimiters only while the
/// delimiter quota lasts.
fn ox_fill(a: &Vec<u16>, window: &Vec<u16>, quota0: usize, hi: usize) -> (fill: Vec<u16>)
    requires
        hi <= a@.len(),
    ensures
        forall|v: u16| #[trigger]
            fill@.to_multiset().count(v) == (if v == 0 {
                min_int(quota0 as int, a@.to_multiset().count(0u16) as int)
            } else if window@.contains(v) {
                0int
            } else {
                a@.to_multiset().count(v) as int
            }),
        fill@ == ox_fill_state(
            rotate_from(a@, hi as int),
            window@,
            quota0 as int,
            a@.len() as int,
        ).0,
{
    broadcast use vstd::seq_lib::group_to_multiset_ensures;

    let n = a.len();
    let ghost rot = a@.skip(hi as int) + a@.take(hi as int);
    proof {
        vstd::seq_lib::lemma_multiset_commutative(a@.skip(hi as int), a@.take(hi as int));
        vstd::seq_lib::lemma_multiset_commutative(a@.take(hi as int), a@.skip(hi as int));
        assert(a@.take(hi as int) + a@.skip(hi as int) =~= a@);
        assert forall|v: u16| rot.to_multiset().count(v) == a@.to_multiset().count(v) by {
            assert((a@.skip(hi as int) + a@.take(hi as int)).to_multiset().count(v) == a@.skip(
                hi as int,
            ).to_multiset().count(v) + a@.take(hi as int).to_multiset().count(v));
            assert((a@.take(hi as int) + a@.skip(hi as int)).to_multiset().count(v) == a@.take(
                hi as int,
            ).to_multiset().count(v) + a@.skip(hi as int).to_multiset().count(v));
        }
        assert(rot.to_multiset() =~= a@.to_multiset());
    }
    let mut fill: Vec<u16> = Vec::new();
    let mut quota = quota0;
    let mut k: usize = 0;
    while k < n
        invariant
            n == a@.len(),
            hi <= n,
            rot == a@.skip(hi as int) + a@.take(hi as int),
            rot.len() == n,
            k <= n,
            quota <= quota0,
            quota0 - quota == min_int(quota0 as int, rot.take(k as int).to_multiset().count(0u16) as int),
            fill@.to_multiset().count(0u16) == quota0 - quota,
            (fill@, quota as int) == ox_fill_state(rot, window@, quota0 as int, k as int),
            forall|v: u16|
                v != 0 ==> #[trigger] fill@.to_multiset().count(v) == (if window@.contains(v) {
                    0int
                } else {
                    rot.take(k as int).to_multiset().count(v) as int
                }),
        decreases n - k,
    {
        let idx = if k < n - hi {
            hi + k
        } else {
            k - (n - hi)
        };
        let g = a[idx];
        proof {
            assert(rot[k as int] == a@[idx as int]);
            assert(rot.take(k + 1) =~= rot.take(k as int).push(rot[k as int]));
            rot.take(k as int).to_multiset_ensures();
            assert(rot.take(k as int).push(rot[k as int]).to_multiset() =~= rot.take(
                k as int,
            ).to_multiset().insert(rot[k as int]));
            lemma_ms_insert_counts(rot.take(k as int).to_multiset(), rot[k as int]);
        }
        if g == 0 {
            if quota > 0 {
                let ghost f0 = fill@;
                fill.push(0);
                proof {
                    f0.to_multiset_ensures();
                    assert(fill@.to_multiset() =~= f0.to_multiset().insert(0u16));
                    lemma_ms_insert_counts(f0.to_multiset(), 0u16);
                }
                quota = quota - 1;
            }
        } else {
            if !contains_gene(window, g) {
                let ghost f0 = fill@;
                fill.push(g);
                proof {
                    f0.to_multiset_ensures();
                    assert(fill@.to_multiset() =~= f0.to_multiset().insert(g));
                    lemma_ms_insert_counts(f0.to_multiset(), g);
                }
            }
        }
        k = k + 1;
    }
    proof {
        assert(rot.take(n as int) =~= rot);
    }
    fill
}

/// Lay the fill genes cyclically around the copied window: the window keeps
/// its positions, the fill starts just after it and wraps around.
fn ox_assemble(fill: &Vec<u16>, window: &Vec<u16>, lo: usize, hi: usize) -> (r: Vec<u16>)
    requires
        lo <= hi,
        window@.len() == hi - lo,
        hi <= fill@.len() + window@.len(),
        fill@.len() + window@.len() <= usize::MAX,
    ensures
        r@.len() == fill@.len() + window@.len(),
        r@.to_multiset() == (fill@ + window@).to_multiset(),
        forall|j: int|
            0 <= j < r@.len() ==> r@[j] == (fill@ + window@)[if j < hi {
                j + (fill@.len() + window@.len()) - hi as int
            } else {
                j - hi
            }],
{
    broadcast use vstd::seq_lib::group_to_multiset_ensures;

    let ghost rot = fill@ + window@;
    let len = fill.len() + window.len();
    let mut r: Vec<u16> = Vec::new();
    let mut i: usize = 0;
    while i < len
        invariant
            len == rot.len(),
            rot == fill@ + window@,
            hi <= len,
            lo <= hi,
            window@.len() == hi - lo,
            i <= len,
            r@.len() == i,
            forall|j: int|
                0 <= j < i ==> r@[j] == rot[if j < hi { j + len - hi } else { j - hi }],
        decreases len - i,
    {
        let idx = if i < hi {
            i + (len - hi)
        } else {
            i - hi
        };
        let g = if idx < fill.len() {
            fill[idx]
        } else {
            window[idx - fill.len()]
        };
        proof {
            assert(rot[idx as int] == g);
        }
        r.push(g);
        i = i + 1;
    }
    proof {
        let o = len - hi;
        assert(r@ =~= rot.subrange(o as int, len as int) + rot.subrange(0, o as int));
        vstd::seq_lib::lemma_multiset_commutative(
            rot.subrange(o as int, len as int),
            rot.subrange(0, o as int),
        );
        vstd::seq_lib::lemma_multiset_commutative(
            rot.subrange(0, o as int),
            rot.subrange(o as int, len as int),
        );
        assert(rot.subrange(0, o as int) + rot.subrange(o as int, len as int) =~= rot);
        assert forall|v: u16| r@.to_multiset().count(v) == rot.to_multiset().count(v) by {
            assert((rot.subrange(o as int, len as int) + rot.subrange(0, o as int)).to_multiset().count(v)
                == rot.subrange(o as int, len as int).to_multiset().count(v) + rot.subrange(
                0,
                o as int,
            ).to_multiset().count(v));
            assert((rot.subrange(0, o as int) + rot.subrange(o as int, len as int)).to_multiset().count(v)
                == rot.subrange(0, o as int).to_multiset().count(v) + rot.subrange(
                o as int,
                len as int,
            ).to_multiset().count(v));
        }
        assert(r@.to_multiset() =~= rot.to_multiset());
    }
    r
}

/// Order-one crossover for the delimited encoding: copy a random window of
/// the second parent, then fill the remaining positions from the first
/// parent in rotated order, skipping genes the window already holds and
/// emitting delimiters only while the delimiter quota remains.
pub struct OrderOneCrossover;

impl OrderOneCrossover {
    pub fn new() -> (r: Self) {
        Self
    }

    pub fn crossover(
        &self,
        rng: &mut ChaCha8Rng,
        parent_a: &Chromosome,
        parent_b: &Chromosome,
        t_data: &TrainData,
    ) -> (r: Chromosome)
        requires
            t_data.wf(),
            valid_delimited(parent_a@, t_data.spec_patient_count(), t_data.nbr_nurses as nat),
            valid_delimited(parent_b@, t_data.spec_patient_count(), t_data.nbr_nurses as nat),
            parent_a@.len() >= 1,
        ensures
            valid_delimited(r@, t_data.spec_patient_count(), t_data.nbr_nurses as nat),
            exists|lo: int, hi: int|
                0 <= lo <= hi <= parent_a@.len() && #[trigger] ox_shape(
                    r@,
                    parent_a@,
                    parent_b@,
                    lo,
                    hi,
                ),
    {
        broadcast use vstd::seq_lib::group_to_multiset_ensures;

        let ghost np = t_data.spec_patient_count();
        let ghost nn = t_data.nbr_nurses as nat;
        let len = parent_a.genes.len();
        proof {
            lemma_valid_ms_eq(parent_a@, parent_b@, np, nn);
        }
        let t1 = rng_below(rng, len);
        let t2 = rng_below(rng, len);
        let lo = if t1 < t2 {
            t1
        } else {
            t2
        };
        let hi = if t1 < t2 {
            t2
        } else {
            t1
        };
        let window = copy_range(&parent_b.genes, lo, hi);
        let zw = count_gene(&window, 0);
        proof {
            lemma_subrange_counts(parent_b@, lo as int, hi as int);
            assert(window@.to_multiset().count(0u16) <= parent_b@.to_multiset().count(0u16));
        }
        let nurse_count = t_data.nbr_nurses;
        let quota = (nurse_count - 1) - zw;
        let fill = ox_fill(&parent_a.genes, &window, quota, hi);
        proof {
            let ams = parent_a@.to_multiset();
            let wms = window@.to_multiset();
            assert forall|v: u16| wms.count(v) <= ams.count(v) by {
                assert(window@.to_multiset().count(v) <= parent_b@.to_multiset().count(v));
            }
            assert(wms.subset_of(ams));
            assert forall|v: u16| #[trigger]
                fill@.to_multiset().count(v) == ams.count(v) - wms.count(v) by {
                if v == 0 {
                    assert(ams.count(0u16) == nn - 1);
                    assert(fill@.to_multiset().count(v) == min_int(
                        quota as int,
                        ams.count(0u16) as int,
                    ));
                } else if window@.contains(v) {
                    assert(wms.count(v) > 0);
                    let i = choose|i: int| 0 <= i < window@.len() && window@[i] == v;
                    assert(parent_b@.subrange(lo as int, hi as int)[i] == v);
                    assert(parent_b@[lo + i] == v);
                    assert(1 <= v <= np);
                    assert(ams.count(v) == 1);
                    assert(wms.count(v) == 1);
                } else {
                    assert(wms.count(v) == 0);
                }
            }
            assert(fill@.to_multiset() =~= ams.sub(wms)) by {
                assert forall|v: u16|
                    fill@.to_multiset().count(v) == ams.sub(wms).count(v) by {
                    assert(ams.sub(wms).count(v) == if ams.count(v) >= wms.count(v) {
                        ams.count(v) - wms.count(v)
                    } else {
                        0
                    }) by {
                        vstd::multiset::axiom_multiset_sub(ams, wms, v);
                    }
                }
            }
            vstd::multiset::axiom_len_sub(ams, wms);
            assert(fill@.to_multiset().len() == ams.len() - wms.len());
            assert(fill@.len() == len - (hi - lo));
        }
        let genes = ox_assemble(&fill, &window, lo, hi);
        let r = Chromosome { genes };
        proof {
            let ams = parent_a@.to_multiset();
            let wms = window@.to_multiset();
            assert forall|v: u16| r@.to_multiset().count(v) == ams.count(v) by {
                assert(r@.to_multiset().count(v) == (fill@ + window@).to_multiset().count(v));
                vstd::seq_lib::lemma_multiset_commutative(fill@, window@);
                assert((fill@ + window@).to_multiset().count(v) == fill@.to_multiset().count(v)
                    + wms.count(v));
                vstd::multiset::axiom_multiset_sub(ams, wms, v);
            }
            assert(r@.to_multiset() =~= ams);
            lemma_valid_of_multiset_eq(parent_a@, r@, np, nn);
            assert(quota == ams.count(0u16) - wms.count(0u16));
            lemma_ox_shape(r@, parent_a@, parent_b@, lo as int, hi as int, fill@, window@);
            assert(0 <= lo <= hi <= parent_a@.len() && ox_shape(
                r@,
                parent_a@,
                parent_b@,
                lo as int,
                hi as int,
            ));
        }
        r
    }
}

/// Order-one crossover for the delimiter-free encoding: the same window and
/// fill passes, with no delimiter bookkeeping.
pub struct OrderOneCrossoverNoDelim;

impl OrderOneCrossoverNoDelim {
    pub fn new() -> (r: Self) {
        Self
    }

    pub fn crossover(
        &self,
        rng: &mut ChaCha8Rng,
        parent_a: &Chromosome,
        parent_b: &Chromosome,
        t_data: &TrainData,
    ) -> (r: Chromosome)
        requires
            t_data.wf(),
            valid_no_delim(parent_a@, t_data.spec_patient_count()),
            valid_no_delim(parent_b@, t_data.spec_patient_count()),
            parent_a@.len() >= 1,
        ensures
            valid_no_delim(r@, t_data.spec_patient_count()),
            exists|lo: int, hi: int|
                0 <= lo <= hi <= parent_a@.len() && #[trigger] ox_shape(
                    r@,
                    parent_a@,
                    parent_b@,
                    lo,
                    hi,
                ),
    {
        broadcast use vstd::seq_lib::group_to_multiset_ensures;

        let ghost np = t_data.spec_patient_count();
        let len = parent_a.genes.len();
        proof {
            lemma_valid_ms_eq(parent_a@, parent_b@, np, 1);
        }
        let t1 = rng_below(rng, len);
        let t2 = rng_below(rng, len);
        let lo = if t1 < t2 {
            t1
        } else {
            t2
        };
        let hi = if t1 < t2 {
            t2
        } else {
            t1
        };
        let window = copy_range(&parent_b.genes, lo, hi);
        let fill = ox_fill(&parent_a.genes, &window, 0, hi);
        proof {
            let ams = parent_a@.to_multiset();
            let wms = window@.to_multiset();
            lemma_subrange_counts(parent_b@, lo as int, hi as int);
            assert forall|v: u16| wms.count(v) <= ams.count(v) by {
                assert(window@.to_multiset().count(v) <= parent_b@.to_multiset().count(v));
            }
            assert(wms.subset_of(ams));
            assert forall|v: u16| #[trigger]
                fill@.to_multiset().count(v) == ams.count(v) - wms.count(v) by {
                if v == 0 {
                    assert(ams.count(0u16) == 0);
                    assert(wms.count(0u16) == 0);
                } else if window@.contains(v) {
                    assert(wms.count(v) > 0);
                    let i = choose|i: int| 0 <= i < window@.len() && window@[i] == v;
                    assert(parent_b@.subrange(lo as int, hi as int)[i] == v);
                    assert(parent_b@[lo + i] == v);
                    assert(1 <= v <= np);
                    assert(ams.count(v) == 1);
                    assert(wms.count(v) == 1);
                } else {
                    assert(wms.count(v) == 0);
                }
            }
            assert(fill@.to_multiset() =~= ams.sub(wms)) by {
                assert forall|v: u16|
                    fill@.to_multiset().count(v) == ams.sub(wms).count(v) by {
                    vstd::multiset::axiom_multiset_sub(ams, wms, v);
                }
            }
            vstd::multiset::axiom_len_sub(ams, wms);
            assert(fill@.len() == len - (hi - lo));
        }
        let genes = ox_assemble(&fill, &window, lo, hi);
        let r = Chromosome { genes };
        proof {
            let ams = parent_a@.to_multiset();
            let wms = window@.to_multiset();
            assert forall|v: u16| r@.to_multiset().count(v) == ams.count(v) by {
                assert(r@.to_multiset().count(v) == (fill@ + window@).to_multiset().count(v));
                vstd::seq_lib::lemma_multiset_commutative(fill@, window@);
                assert((fill@ + window@).to_multiset().count(v) == fill@.to_multiset().count(v)
                    + wms.count(v));
                vstd::multiset::axiom_multiset_sub(ams, wms, v);
            }
            assert(r@.to_multiset() =~= ams);
            lemma_valid_of_multiset_eq(parent_a@, r@, np, 1);
            assert(0 == ams.count(0u16) - wms.count(0u16));
            lemma_ox_shape(r@, parent_a@, parent_b@, lo as int, hi as int, fill@, window@);
            assert(0 <= lo <= hi <= parent_a@.len() && ox_shape(
                r@,
                parent_a@,
                parent_b@,
                lo as int,
                hi as int,
            ));
        }
        r
    }
}

/// Placeholder operator slot kept for a distance-preserving crossover that
/// never received an implementation.
pub struct DPXCrossover;

impl DPXCrossover {
    pub fn new() -> (r: Self) {
        Self
    }
}


/// Every gene of a delimiter-free chromosome is a patient identifier.
pub proof fn lemma_nodelim_nonzero(s: Seq<u16>, patients: nat, i: int)
    requires
        valid_no_delim(s, patients),
        0 <= i < s.len(),
    ensures
        1 <= s[i] <= patients,
{
    broadcast use vstd::seq_lib::group_to_multiset_ensures;

    if s[i] == 0 {
        assert(s.contains(0u16));
        assert(s.to_multiset().count(0u16) > 0);
        assert(false);
    }
}

/// Index of the first occurrence of a gene.
fn find_position(v: &Vec<u16>, g: u16) -> (r: usize)
    requires
        v@.contains(g),
    ensures
        r < v@.len(),
        v@[r as int] == g,
{
    let n = v.len();
    let mut i: usize = 0;
    while i < n
        invariant
            n == v@.len(),
            i <= n,
            forall|j: int| 0 <= j < i ==> v@[j] != g,
        decreases n - i,
    {
        if v[i] == g {
            return i;
        }
        i = i + 1;
    }
    proof {
        let j = choose|j: int| 0 <= j < v@.len() && v@[j] == g;
        assert(false);
    }
    0
}

/// The comparison key of the edge-greedy walk at position `i`: the onward
/// travel time, or -- in the merge operator's first window -- the current
/// gene's window slack.
pub open spec fn walk_cost(p: Seq<u16>, i: int, t: &TrainData, use_slack: bool) -> int {
    if use_slack {
        t.spec_patient(p[i] as int).end_time - t.spec_patient(p[i] as int).care_time
    } else {
        t.spec_travel(p[i] as int, p[i + 1] as int) as int
    }
}

/// The position of a gene in a parent (unique on valid parents).
pub open spec fn pos_of(s: Seq<u16>, v: u16) -> int {
    choose|j: int| 0 <= j < s.len() && s[j] == v
}

/// On a valid delimiter-free parent a patient's position is unique, so the
/// chosen position is the one where it stands.
pub proof fn lemma_unique_pos(s: Seq<u16>, np: nat, j: int, v: u16)
    requires
        valid_no_delim(s, np),
        0 <= j < s.len(),
        s[j] == v,
        v != 0,
    ensures
        pos_of(s, v) == j,
{
    lemma_valid_distinct(s, np, 1);
    assert(exists|k: int| 0 <= k < s.len() && s[k] == v) by {
        assert(0 <= j < s.len() && s[j] == v);
    }
    let k = pos_of(s, v);
    assert(0 <= k < s.len() && s[k] == v);
}

/// Repair a parent: swap gene `v` forward into position `tgt`.
pub open spec fn walk_align(p: Seq<u16>, tgt: int, v: u16) -> Seq<u16> {
    p.update(pos_of(p, v), p[tgt]).update(tgt, v)
}

/// The walk's evolving state: both repaired parents and the child built so
/// far.
pub ghost struct WalkState {
    pub p1: Seq<u16>,
    pub p2: Seq<u16>,
    pub child: Seq<u16>,
}

/// One step of the edge-greedy walk at position `i`: the parent whose key is
/// not larger supplies its gene at `i + 1`, and the other parent is repaired
/// by swapping that gene into `i + 1`.
pub open spec fn walk_step(st: WalkState, i: int, t: &TrainData, use_slack: bool) -> WalkState {
    if walk_cost(st.p1, i, t, use_slack) > walk_cost(st.p2, i, t, use_slack) {
        WalkState {
            p1: walk_align(st.p1, i + 1, st.p2[i + 1]),
            p2: st.p2,
            child: st.child.push(st.p2[i + 1]),
        }
    } else {
        WalkState {
            p1: st.p1,
            p2: walk_align(st.p2, i + 1, st.p1[i + 1]),
            child: st.child.push(st.p1[i + 1]),
        }
    }
}

/// The walk over positions `from..to`.
pub open spec fn walk_phase(
    st: WalkState,
    from: int,
    to: int,
    t: &TrainData,
    use_slack: bool,
) -> WalkState
    decreases to - from,
{
    if from >= to {
        st
    } else {
        walk_phase(walk_step(st, from, t, use_slack), from + 1, to, t, use_slack)
    }
}

proof fn lemma_walk_phase_snoc(st: WalkState, from: int, to: int, t: &TrainData, use_slack: bool)
    requires
        from <= to,
    ensures
        walk_phase(st, from, to + 1, t, use_slack) == walk_step(
            walk_phase(st, from, to, t, use_slack),
            to,
            t,
            use_slack,
        ),
    decreases to - from,
{
    if from >= to {
        assert(walk_phase(st, from, to + 1, t, use_slack) == walk_phase(
            walk_step(st, from, t, use_slack),
            from + 1,
            to + 1,
            t,
            use_slack,
        ));
        assert(walk_phase(walk_step(st, from, t, use_slack), from + 1, to + 1, t, use_slack)
            == walk_step(st, from, t, use_slack));
        assert(walk_phase(st, from, to, t, use_slack) == st);
    } else {
        lemma_walk_phase_snoc(walk_step(st, from, t, use_slack), from + 1, to, t, use_slack);
        assert(walk_phase(st, from, to + 1, t, use_slack) == walk_phase(
            walk_step(st, from, t, use_slack),
            from + 1,
            to + 1,
            t,
            use_slack,
        ));
        assert(walk_phase(st, from, to, t, use_slack) == walk_phase(
            walk_step(st, from, t, use_slack),
            from + 1,
            to,
            t,
            use_slack,
        ));
    }
}

/// The whole edge-greedy crossover as a function of the cut: the anchor gene
/// and alignment, the forward window, the wrapped window, and -- when the
/// cut lies past the middle -- the one remaining gene that completes the
/// tour.
pub open spec fn edge_walk_spec(
    a: Seq<u16>,
    b: Seq<u16>,
    t: &TrainData,
    cut: int,
    slack_first: bool,
) -> Seq<u16> {
    let len = a.len() as int;
    if cut <= len / 2 {
        let st0 = WalkState { p1: a, p2: walk_align(b, 0, a[0]), child: seq![a[0]] };
        if slack_first {
            let st1 = walk_phase(st0, 0, cut, t, true);
            walk_phase(st1, cut, len - 1, t, false).child
        } else {
            walk_phase(st0, 0, len - 1, t, false).child
        }
    } else {
        let st0 = WalkState { p1: a, p2: walk_align(b, cut, a[cut]), child: seq![a[cut]] };
        let st1 = walk_phase(st0, cut, len - 1, t, slack_first);
        let st2 = walk_phase(st1, 0, cut - 1, t, false);
        st2.child.push(st2.p1[0])
    }
}

/// The consumed region of a parent during the edge-greedy walk: the fixed
/// block already built in an earlier pass, then the positions the walk has
/// claimed so far.
pub open spec fn walk_consumed(p: Seq<u16>, blk_lo: int, blk_hi: int, wlo: int, upto: int) -> Seq<
    u16,
> {
    p.subrange(blk_lo, blk_hi) + p.subrange(wlo + 1, upto)
}

/// One pass of the edge-greedy walk shared by the heuristic and merge
/// crossovers: at each step the cheaper parent edge decides the next gene,
/// and the losing parent is repaired by swapping that gene forward so both
/// parents keep agreeing with the child on consumed positions.
fn heur_phase(
    child: &mut Vec<u16>,
    p1: &mut Vec<u16>,
    p2: &mut Vec<u16>,
    blk_lo: usize,
    blk_hi: usize,
    wlo: usize,
    wend: usize,
    t_data: &TrainData,
    use_slack: bool,
)
    requires
        t_data.wf(),
        old(p1)@.len() == old(p2)@.len(),
        valid_no_delim(old(p1)@, t_data.spec_patient_count()),
        old(p2)@.to_multiset() == old(p1)@.to_multiset(),
        blk_lo <= blk_hi <= old(p1)@.len(),
        wlo <= wend,
        wend < old(p1)@.len(),
        blk_hi <= wlo + 1 || blk_lo >= wend + 1,
        old(child)@ == walk_consumed(old(p1)@, blk_lo as int, blk_hi as int, wlo as int, wlo + 1),
        old(child)@ == walk_consumed(old(p2)@, blk_lo as int, blk_hi as int, wlo as int, wlo + 1),
    ensures
        final(p1)@.len() == old(p1)@.len(),
        final(p2)@.len() == old(p2)@.len(),
        final(p1)@.to_multiset() == old(p1)@.to_multiset(),
        final(p2)@.to_multiset() == old(p2)@.to_multiset(),
        final(child)@ == walk_consumed(
            final(p1)@,
            blk_lo as int,
            blk_hi as int,
            wlo as int,
            wend + 1,
        ),
        final(child)@ == walk_consumed(
            final(p2)@,
            blk_lo as int,
            blk_hi as int,
            wlo as int,
            wend + 1,
        ),
        (WalkState { p1: final(p1)@, p2: final(p2)@, child: final(child)@ }) == walk_phase(
            WalkState { p1: old(p1)@, p2: old(p2)@, child: old(child)@ },
            wlo as int,
            wend as int,
            t_data,
            use_slack,
        ),
{
    let ghost np = t_data.spec_patient_count();
    let ghost ms0 = old(p1)@.to_multiset();
    let ghost init = WalkState { p1: old(p1)@, p2: old(p2)@, child: old(child)@ };
    let n = p1.len();
    let mut i: usize = wlo;
    while i < wend
        invariant
            t_data.wf(),
            np == t_data.spec_patient_count(),
            n == p1@.len(),
            p1@.len() == old(p1)@.len(),
            p2@.len() == old(p2)@.len(),
            p1@.to_multiset() == ms0,
            p2@.to_multiset() == ms0,
            ms0 == old(p1)@.to_multiset(),
            valid_no_delim(old(p1)@, np),
            blk_lo <= blk_hi <= n,
            wlo <= i <= wend,
            wend < n,
            blk_hi <= wlo + 1 || blk_lo >= wend + 1,
            child@ == walk_consumed(p1@, blk_lo as int, blk_hi as int, wlo as int, i + 1),
            child@ == walk_consumed(p2@, blk_lo as int, blk_hi as int, wlo as int, i + 1),
            init == (WalkState { p1: old(p1)@, p2: old(p2)@, child: old(child)@ }),
            (WalkState { p1: p1@, p2: p2@, child: child@ }) == walk_phase(
                init,
                wlo as int,
                i as int,
                t_data,
                use_slack,
            ),
        decreases wend - i,
    {
        let ghost st_pre = WalkState { p1: p1@, p2: p2@, child: child@ };
        proof {
            lemma_valid_of_multiset_eq(old(p1)@, p1@, np, 1);
            lemma_valid_of_multiset_eq(old(p1)@, p2@, np, 1);
            lemma_valid_distinct(p1@, np, 1);
            lemma_valid_distinct(p2@, np, 1);
            lemma_nodelim_nonzero(p1@, np, i as int);
            lemma_nodelim_nonzero(p1@, np, i + 1);
            lemma_nodelim_nonzero(p2@, np, i as int);
            lemma_nodelim_nonzero(p2@, np, i + 1);
        }
        let d1: u64;
        let d2: u64;
        if use_slack {
            let pa = t_data.patient(p1[i]);
            d1 = pa.end_time - pa.care_time;
            let pb = t_data.patient(p2[i]);
            d2 = pb.end_time - pb.care_time;
        } else {
            d1 = t_data.travel(p1[i] as usize, p1[i + 1] as usize);
            d2 = t_data.travel(p2[i] as usize, p2[i + 1] as usize);
        }
        proof {
            assert(d1 == walk_cost(st_pre.p1, i as int, t_data, use_slack));
            assert(d2 == walk_cost(st_pre.p2, i as int, t_data, use_slack));
        }
        let take_second = d1 > d2;
        let v = if take_second {
            p2[i + 1]
        } else {
            p1[i + 1]
        };
        let ghost c0 = child@;
        child.push(v);
        proof {
            broadcast use vstd::seq_lib::group_to_multiset_ensures;

            if take_second {
                assert(p2@.contains(v));
                assert(p2@.to_multiset().count(v) > 0);
                assert(p1@.to_multiset().count(v) > 0);
                assert(p1@.contains(v));
            } else {
                assert(p1@.contains(v));
                assert(p1@.to_multiset().count(v) > 0);
                assert(p2@.to_multiset().count(v) > 0);
                assert(p2@.contains(v));
            }
        }
        if take_second {
            // p2 supplied the gene; repair p1
            let pos = find_position(p1, v);
            proof {
                lemma_walk_pos_fresh(
                    p2@,
                    p1@,
                    c0,
                    blk_lo as int,
                    blk_hi as int,
                    wlo as int,
                    i as int,
                    pos as int,
                    v,
                    np,
                );
            }
            proof {
                lemma_valid_of_multiset_eq(old(p1)@, st_pre.p1, np, 1);
                lemma_unique_pos(st_pre.p1, np, pos as int, v);
            }
            if pos != i + 1 {
                let x = p1[pos];
                let y = p1[i + 1];
                p1.set(pos, y);
                p1.set(i + 1, x);
                proof {
                    lemma_swap_ms(pre_swap_view(p1@, pos as int, i + 1, x, y), pos as int, i + 1);
                }
            }
            proof {
                assert(p1@ =~= walk_align(st_pre.p1, i + 1, v));
                assert(child@ =~= walk_consumed(
                    p1@,
                    blk_lo as int,
                    blk_hi as int,
                    wlo as int,
                    i + 2,
                ));
                assert(child@ =~= walk_consumed(
                    p2@,
                    blk_lo as int,
                    blk_hi as int,
                    wlo as int,
                    i + 2,
                ));
                assert(WalkState { p1: p1@, p2: p2@, child: child@ } == walk_step(
                    st_pre,
                    i as int,
                    t_data,
                    use_slack,
                ));
                lemma_walk_phase_snoc(init, wlo as int, i as int, t_data, use_slack);
            }
        } else {
            let pos = find_position(p2, v);
            proof {
                lemma_walk_pos_fresh(
                    p1@,
                    p2@,
                    c0,
                    blk_lo as int,
                    blk_hi as int,
                    wlo as int,
                    i as int,
                    pos as int,
                    v,
                    np,
                );
            }
            proof {
                lemma_valid_of_multiset_eq(old(p1)@, st_pre.p2, np, 1);
                lemma_unique_pos(st_pre.p2, np, pos as int, v);
            }
            if pos != i + 1 {
                let x = p2[pos];
                let y = p2[i + 1];
                p2.set(pos, y);
                p2.set(i + 1, x);
                proof {
                    lemma_swap_ms(pre_swap_view(p2@, pos as int, i + 1, x, y), pos as int, i + 1);
                }
            }
            proof {
                assert(p2@ =~= walk_align(st_pre.p2, i + 1, v));
                assert(child@ =~= walk_consumed(
                    p1@,
                    blk_lo as int,
                    blk_hi as int,
                    wlo as int,
                    i + 2,
                ));
                assert(child@ =~= walk_consumed(
                    p2@,
                    blk_lo as int,
                    blk_hi as int,
                    wlo as int,
                    i + 2,
                ));
                assert(WalkState { p1: p1@, p2: p2@, child: child@ } == walk_step(
                    st_pre,
                    i as int,
                    t_data,
                    use_slack,
                ));
                lemma_walk_phase_snoc(init, wlo as int, i as int, t_data, use_slack);
            }
        }
        i = i + 1;
    }
}

/// Reconstruct a parent as it stood before a repair swap (proof shorthand).
pub open spec fn pre_swap_view(p_now: Seq<u16>, pos: int, tgt: int, x: u16, y: u16) -> Seq<u16> {
    p_now.update(pos, x).update(tgt, y)
}

/// The repaired gene's current position in the losing parent lies outside
/// the consumed region: otherwise the winning parent would hold that gene
/// twice.
proof fn lemma_walk_pos_fresh(
    w: Seq<u16>,
    l: Seq<u16>,
    child0: Seq<u16>,
    blk_lo: int,
    blk_hi: int,
    wlo: int,
    i: int,
    pos: int,
    v: u16,
    np: nat,
)
    requires
        w.len() == l.len(),
        valid_no_delim(w, np),
        valid_no_delim(l, np),
        0 <= blk_lo <= blk_hi <= w.len(),
        0 <= wlo <= i,
        i + 1 < w.len(),
        blk_hi <= wlo + 1 || blk_lo >= i + 2,
        child0 == walk_consumed(w, blk_lo, blk_hi, wlo, i + 1),
        child0 == walk_consumed(l, blk_lo, blk_hi, wlo, i + 1),
        w[i + 1] == v,
        0 <= pos < l.len(),
        l[pos] == v,
    ensures
        !(blk_lo <= pos < blk_hi),
        !(wlo + 1 <= pos < i + 1),
{
    lemma_valid_distinct(w, np, 1);
    lemma_nodelim_nonzero(w, np, i + 1);
    if blk_lo <= pos < blk_hi {
        assert(child0[pos - blk_lo] == l[pos]);
        assert(child0[pos - blk_lo] == w[pos]);
        assert(w[pos] == v);
        assert(pos != i + 1);
        assert(false);
    }
    if wlo + 1 <= pos < i + 1 {
        let k = (blk_hi - blk_lo) + (pos - (wlo + 1));
        assert(child0[k] == l[pos]);
        assert(child0[k] == w[pos]);
        assert(w[pos] == v);
        assert(pos != i + 1);
        assert(false);
    }
}

/// Heuristic crossover for the delimiter-free encoding: build the child one
/// gene at a time, always continuing along the parent whose next edge is
/// the cheaper travel, repairing the losing parent so no gene is used
/// twice.  The walk covers a forward slice from a random cut point and then
/// the wrapped remainder.
pub struct HeuristicCrossover;

impl HeuristicCrossover {
    pub fn new() -> (r: Self) {
        Self
    }

    pub fn crossover(
        &self,
        rng: &mut ChaCha8Rng,
        parent_a: &Chromosome,
        parent_b: &Chromosome,
        t_data: &TrainData,
    ) -> (r: Chromosome)
        requires
            t_data.wf(),
            valid_no_delim(parent_a@, t_data.spec_patient_count()),
            valid_no_delim(parent_b@, t_data.spec_patient_count()),
            parent_a@.len() >= 1,
        ensures
            valid_no_delim(r@, t_data.spec_patient_count()),
            exists|cut: int|
                0 <= cut < parent_a@.len() && r@ == #[trigger] edge_walk_spec(
                    parent_a@,
                    parent_b@,
                    t_data,
                    cut,
                    false,
                ),
    {
        edge_greedy_crossover(rng, parent_a, parent_b, t_data, false)
    }
}

/// Merge crossover: the same two-phase edge-greedy walk as the heuristic
/// crossover, but the first window compares each candidate's own window
/// slack (window end minus care time) instead of travel.
pub struct MergeCrossover;

impl MergeCrossover {
    pub fn new() -> (r: Self) {
        Self
    }

    pub fn crossover(
        &self,
        rng: &mut ChaCha8Rng,
        parent_a: &Chromosome,
        parent_b: &Chromosome,
        t_data: &TrainData,
    ) -> (r: Chromosome)
        requires
            t_data.wf(),
            valid_no_delim(parent_a@, t_data.spec_patient_count()),
            valid_no_delim(parent_b@, t_data.spec_patient_count()),
            parent_a@.len() >= 1,
        ensures
            valid_no_delim(r@, t_data.spec_patient_count()),
            exists|cut: int|
                0 <= cut < parent_a@.len() && r@ == #[trigger] edge_walk_spec(
                    parent_a@,
                    parent_b@,
                    t_data,
                    cut,
                    true,
                ),
    {
        edge_greedy_crossover(rng, parent_a, parent_b, t_data, true)
    }
}

/// The shared edge-greedy walk: `slack_first` selects the merge variant.
fn edge_greedy_crossover(
    rng: &mut ChaCha8Rng,
    parent_a: &Chromosome,
    parent_b: &Chromosome,
    t_data: &TrainData,
    slack_first: bool,
) -> (r: Chromosome)
    requires
        t_data.wf(),
        valid_no_delim(parent_a@, t_data.spec_patient_count()),
        valid_no_delim(parent_b@, t_data.spec_patient_count()),
        parent_a@.len() >= 1,
    ensures
        valid_no_delim(r@, t_data.spec_patient_count()),
        exists|cut: int|
            0 <= cut < parent_a@.len() && r@ == #[trigger] edge_walk_spec(
                parent_a@,
                parent_b@,
                t_data,
                cut,
                slack_first,
            ),
{
    broadcast use vstd::seq_lib::group_to_multiset_ensures;

    let ghost np = t_data.spec_patient_count();
    let len = parent_a.genes.len();
    proof {
        lemma_valid_ms_eq(parent_a@, parent_b@, np, 1);
    }
    let ghost ms0 = parent_a@.to_multiset();
    let mut p1 = crate::chromosome::copy_genes(&parent_a.genes);
    let mut p2 = crate::chromosome::copy_genes(&parent_b.genes);
    let cut = rng_below(rng, len);
    let mut child: Vec<u16> = Vec::new();
    if cut <= len / 2 {
        child.push(p1[0]);
        let v0 = p1[0];
        proof {
            lemma_nodelim_nonzero(p1@, np, 0);
            assert(p1@.contains(v0));
            assert(p1@.to_multiset().count(v0) > 0);
            assert(p2@.to_multiset().count(v0) > 0);
            assert(p2@.contains(v0));
        }
        let pos = find_position(&p2, v0);
        proof {
            lemma_unique_pos(p2@, np, pos as int, v0);
        }
        if pos != 0 {
            let ghost p2z = p2@;
            let x = p2[pos];
            let y = p2[0];
            p2.set(pos, y);
            p2.set(0, x);
            proof {
                assert(p2@ =~= p2z.update(pos as int, p2z[0]).update(0, p2z[pos as int]));
                lemma_swap_ms(p2z, pos as int, 0);
                assert(p2@ =~= walk_align(parent_b@, 0, v0));
            }
        } else {
            proof {
                assert(p2@ =~= walk_align(parent_b@, 0, v0));
            }
        }
        let ghost st0 = WalkState { p1: parent_a@, p2: walk_align(parent_b@, 0, v0), child: seq![v0] };
        proof {
            assert(child@ =~= st0.child);
            assert(child@ =~= walk_consumed(p1@, 0, 1, 0, 1));
            assert(child@ =~= walk_consumed(p2@, 0, 1, 0, 1));
        }
        if slack_first {
            heur_phase(&mut child, &mut p1, &mut p2, 0, 1, 0, cut, t_data, true);
            proof {
                assert(child@ =~= p1@.subrange(0, cut + 1)) by {
                    assert(child@ == p1@.subrange(0, 1) + p1@.subrange(1, cut + 1));
                }
                assert(child@ =~= p2@.subrange(0, cut + 1)) by {
                    assert(child@ == p2@.subrange(0, 1) + p2@.subrange(1, cut + 1));
                }
                assert(child@ == walk_consumed(p1@, 0, cut + 1, cut as int, cut + 1)) by {
                    assert(walk_consumed(p1@, 0, cut + 1, cut as int, cut + 1) =~= p1@.subrange(
                        0,
                        cut + 1,
                    ));
                }
                assert(child@ == walk_consumed(p2@, 0, cut + 1, cut as int, cut + 1)) by {
                    assert(walk_consumed(p2@, 0, cut + 1, cut as int, cut + 1) =~= p2@.subrange(
                        0,
                        cut + 1,
                    ));
                }
            }
            proof {
                lemma_valid_of_multiset_eq(parent_a@, p1@, np, 1);
            }
            let ghost st1 = walk_phase(st0, 0, cut as int, t_data, true);
            proof {
                assert((WalkState { p1: p1@, p2: p2@, child: child@ }) == st1);
            }
            heur_phase(&mut child, &mut p1, &mut p2, 0, cut + 1, cut, len - 1, t_data, false);
            proof {
                assert(child@ =~= p1@) by {
                    assert(child@ == p1@.subrange(0, cut + 1) + p1@.subrange(cut + 1, len as int));
                }
                assert(child@ == walk_phase(st1, cut as int, len - 1, t_data, false).child);
                assert(child@ == edge_walk_spec(parent_a@, parent_b@, t_data, cut as int, true));
            }
        } else {
            heur_phase(&mut child, &mut p1, &mut p2, 0, 1, 0, len - 1, t_data, false);
            proof {
                assert(child@ =~= p1@) by {
                    assert(child@ == p1@.subrange(0, 1) + p1@.subrange(1, len as int));
                }
                assert(child@ == walk_phase(st0, 0, len - 1, t_data, false).child);
                assert(child@ == edge_walk_spec(parent_a@, parent_b@, t_data, cut as int, false));
            }
        }
    } else {
        child.push(p1[cut]);
        let v0 = p1[cut];
        proof {
            lemma_nodelim_nonzero(p1@, np, cut as int);
            assert(p1@.contains(v0));
            assert(p1@.to_multiset().count(v0) > 0);
            assert(p2@.to_multiset().count(v0) > 0);
            assert(p2@.contains(v0));
        }
        let pos = find_position(&p2, v0);
        proof {
            lemma_unique_pos(p2@, np, pos as int, v0);
        }
        if pos != cut {
            let ghost p2z = p2@;
            let x = p2[pos];
            let y = p2[cut];
            p2.set(pos, y);
            p2.set(cut, x);
            proof {
                assert(p2@ =~= p2z.update(pos as int, p2z[cut as int]).update(
                    cut as int,
                    p2z[pos as int],
                ));
                lemma_swap_ms(p2z, pos as int, cut as int);
                assert(p2@ =~= walk_align(parent_b@, cut as int, v0));
            }
        } else {
            proof {
                assert(p2@ =~= walk_align(parent_b@, cut as int, v0));
            }
        }
        let ghost st0 = WalkState {
            p1: parent_a@,
            p2: walk_align(parent_b@, cut as int, v0),
            child: seq![v0],
        };
        proof {
            assert(child@ =~= st0.child);
            assert(child@ =~= walk_consumed(p1@, cut as int, cut + 1, cut as int, cut + 1));
            assert(child@ =~= walk_consumed(p2@, cut as int, cut + 1, cut as int, cut + 1));
        }
        heur_phase(&mut child, &mut p1, &mut p2, cut, cut + 1, cut, len - 1, t_data, slack_first);
        let ghost st1 = walk_phase(st0, cut as int, len - 1, t_data, slack_first);
        proof {
            assert((WalkState { p1: p1@, p2: p2@, child: child@ }) == st1);
        }
        proof {
            assert(child@ =~= p1@.subrange(cut as int, len as int)) by {
                assert(child@ == p1@.subrange(cut as int, cut + 1) + p1@.subrange(
                    cut + 1,
                    len as int,
                ));
            }
            assert(child@ =~= p2@.subrange(cut as int, len as int)) by {
                assert(child@ == p2@.subrange(cut as int, cut + 1) + p2@.subrange(
                    cut + 1,
                    len as int,
                ));
            }
            assert(child@ == walk_consumed(p1@, cut as int, len as int, 0, 1)) by {
                assert(walk_consumed(p1@, cut as int, len as int, 0, 1) =~= p1@.subrange(
                    cut as int,
                    len as int,
                ));
            }
            assert(child@ == walk_consumed(p2@, cut as int, len as int, 0, 1)) by {
                assert(walk_consumed(p2@, cut as int, len as int, 0, 1) =~= p2@.subrange(
                    cut as int,
                    len as int,
                ));
            }
        }
        proof {
            lemma_valid_of_multiset_eq(parent_a@, p1@, np, 1);
        }
        heur_phase(&mut child, &mut p1, &mut p2, cut, len, 0, cut - 1, t_data, false);
        let ghost st2 = walk_phase(st1, 0, cut - 1, t_data, false);
        proof {
            assert((WalkState { p1: p1@, p2: p2@, child: child@ }) == st2);
        }
        child.push(p1[0]);
        proof {
            assert(child@ =~= p1@.subrange(cut as int, len as int) + p1@.subrange(1, cut as int)
                + p1@.subrange(0, 1)) by {
                assert(child@.drop_last() == p1@.subrange(cut as int, len as int) + p1@.subrange(
                    1,
                    cut as int,
                ));
                assert(child@ =~= child@.drop_last().push(p1@[0]));
            }
            assert(child@ == st2.child.push(st2.p1[0]));
            assert(child@ == edge_walk_spec(
                parent_a@,
                parent_b@,
                t_data,
                cut as int,
                slack_first,
            ));
        }
    }
    let r = Chromosome { genes: child };
    proof {
        let fin = p1@;
        assert(fin.to_multiset() == ms0);
        if cut <= len / 2 {
            assert(r@.to_multiset() == ms0);
        } else {
            let a1 = fin.subrange(cut as int, len as int);
            let a2 = fin.subrange(1, cut as int);
            let a3 = fin.subrange(0, 1);
            assert(r@ == a1 + a2 + a3);
            vstd::seq_lib::lemma_multiset_commutative(a1 + a2, a3);
            vstd::seq_lib::lemma_multiset_commutative(a1, a2);
            vstd::seq_lib::lemma_multiset_commutative(a3 + a2, a1);
            vstd::seq_lib::lemma_multiset_commutative(a3, a2);
            assert(a3 + a2 + a1 =~= fin);
            assert forall|v: u16| r@.to_multiset().count(v) == fin.to_multiset().count(v) by {
                assert(((a1 + a2) + a3).to_multiset().count(v) == (a1 + a2).to_multiset().count(v)
                    + a3.to_multiset().count(v));
                assert((a1 + a2).to_multiset().count(v) == a1.to_multiset().count(v)
                    + a2.to_multiset().count(v));
                assert(((a3 + a2) + a1).to_multiset().count(v) == (a3 + a2).to_multiset().count(v)
                    + a1.to_multiset().count(v));
                assert((a3 + a2).to_multiset().count(v) == a3.to_multiset().count(v)
                    + a2.to_multiset().count(v));
            }
            assert(r@.to_multiset() =~= fin.to_multiset());
        }
        lemma_valid_of_multiset_eq(parent_a@, r@, np, 1);
        assert(0 <= cut < parent_a@.len() && r@ == edge_walk_spec(
            parent_a@,
            parent_b@,
            t_data,
            cut as int,
            slack_first,
        ));
    }
    r
}

} // verus!
