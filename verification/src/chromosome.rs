//! The chromosome encoding: an ordered sequence of genes, where a gene is
//! either a patient identifier (`1..=patient_count`) or the delimiter `0`
//! separating two consecutive nurse routes.

use vstd::prelude::*;

verus! {

/// A candidate visit ordering.  In the delimited encoding the genes are a
/// permutation of `1..=patient_count` with exactly `nurse_count - 1` zero
/// delimiters; in the delimiter-free encoding they are the permutation alone.
#[derive(Clone, Debug)]
pub struct Chromosome {
    pub genes: Vec<u16>,
}

impl View for Chromosome {
    type V = Seq<u16>;

    open spec fn view(&self) -> Seq<u16> {
        self.genes@
    }
}

/// Every gene is either the delimiter or a patient identifier in range.
pub open spec fn genes_in_range(s: Seq<u16>, patients: nat) -> bool {
    forall|i: int| 0 <= i < s.len() ==> s[i] <= patients
}

/// The delimited encoding: each patient identifier occurs exactly once and
/// the delimiter occurs exactly `nurses - 1` times.
pub open spec fn valid_delimited(s: Seq<u16>, patients: nat, nurses: nat) -> bool {
    &&& nurses >= 1
    &&& s.len() == patients + nurses - 1
    &&& genes_in_range(s, patients)
    &&& forall|p: u16| 1 <= p <= patients ==> s.to_multiset().count(p) == 1
    &&& s.to_multiset().count(0u16) == nurses - 1
}

/// The delimiter-free encoding: each patient identifier occurs exactly once
/// and the delimiter does not occur at all.
pub open spec fn valid_no_delim(s: Seq<u16>, patients: nat) -> bool {
    &&& s.len() == patients
    &&& genes_in_range(s, patients)
    &&& forall|p: u16| 1 <= p <= patients ==> s.to_multiset().count(p) == 1
    &&& s.to_multiset().count(0u16) == 0
}

/// No patient identifier occurs twice (delimiters may repeat).
pub open spec fn distinct_patients(s: Seq<u16>) -> bool {
    forall|i: int, j: int| #![trigger s[i], s[j]]
        0 <= i < j < s.len() && s[i] == s[j] ==> s[i] == 0
}

/// Two equal non-delimiter genes at two positions would make the count of
/// that gene at least two, so a valid chromosome has distinct patients.
pub proof fn lemma_valid_distinct(s: Seq<u16>, patients: nat, nurses: nat)
    requires
        valid_delimited(s, patients, nurses) || valid_no_delim(s, patients),
    ensures
        distinct_patients(s),
{
    broadcast use vstd::seq_lib::group_to_multiset_ensures;

    assert forall|i: int, j: int| #![trigger s[i], s[j]]
        0 <= i < j < s.len() && s[i] == s[j] implies s[i] == 0 by {
        if s[i] != 0 {
            let v = s[i];
            assert(1 <= v <= patients);
            assert(s.to_multiset().count(v) == 1);
            assert(s.remove(j).to_multiset() =~= s.to_multiset().remove(s[j]));
            assert(s.remove(j)[i] == v);
            assert(s.remove(j).contains(v));
            assert(s.remove(j).to_multiset().count(v) > 0);
            assert(s.to_multiset().remove(v).count(v) == 0);
            assert(false);
        }
    }
}

/// Two gene sequences with equal multisets agree on validity: the encoding
/// invariants only speak about occurrence counts and lengths.
pub proof fn lemma_valid_of_multiset_eq(s1: Seq<u16>, s2: Seq<u16>, patients: nat, nurses: nat)
    requires
        s1.to_multiset() == s2.to_multiset(),
    ensures
        valid_delimited(s1, patients, nurses) ==> valid_delimited(s2, patients, nurses),
        valid_no_delim(s1, patients) ==> valid_no_delim(s2, patients),
{
    s1.to_multiset_ensures();
    s2.to_multiset_ensures();
    assert(s1.to_multiset().len() == s1.len());
    assert(s2.to_multiset().len() == s2.len());
    if genes_in_range(s1, patients) {
        assert forall|i: int| 0 <= i < s2.len() implies s2[i] <= patients by {
            assert(s2.to_multiset().count(s2[i]) > 0);
            assert(s1.to_multiset().count(s2[i]) > 0);
            assert(s1.contains(s2[i]));
            let j = choose|j: int| 0 <= j < s1.len() && s1[j] == s2[i];
            assert(s1[j] <= patients);
        }
    }
}

impl Chromosome {
    /// Number of genes.
    pub fn len(&self) -> (r: usize)
        ensures
            r == self@.len(),
    {
        self.genes.len()
    }

    /// The gene at position `i`.
    pub fn gene(&self, i: usize) -> (r: u16)
        requires
            i < self@.len(),
        ensures
            r == self@[i as int],
    {
        self.genes[i]
    }

    /// A fresh chromosome with the same genes.  Operators work on such a
    /// copy; they never share a buffer with a parent.
    pub fn duplicate(&self) -> (r: Chromosome)
        ensures
            r@ == self@,
    {
        Chromosome { genes: copy_genes(&self.genes) }
    }

    /// The bracketed route-list text of this chromosome, one inner bracket
    /// pair per nurse.
    pub fn format_chromosome(&self) -> (r: String)
        ensures
            r@ == crate::report::fmt_chromosome(self@),
    {
        crate::report::format_genes(self)
    }
}

/// A fresh vector with the same genes.
pub fn copy_genes(v: &Vec<u16>) -> (r: Vec<u16>)
    ensures
        r@ == v@,
{
    let n = v.len();
    let mut r: Vec<u16> = Vec::new();
    let mut i: usize = 0;
    while i < n
        invariant
            n == v@.len(),
            i <= n,
            r@ == v@.take(i as int),
        decreases n - i,
    {
        r.push(v[i]);
        proof {
            assert(v@.take(i + 1) =~= v@.take(i as int).push(v@[i as int]));
        }
        i = i + 1;
    }
    proof {
        assert(v@.take(n as int) =~= v@);
    }
    r
}


/// Two valid chromosomes over the same instance hold the same genes.
pub proof fn lemma_valid_ms_eq(s1: Seq<u16>, s2: Seq<u16>, patients: nat, nurses: nat)
    requires
        valid_delimited(s1, patients, nurses) && valid_delimited(s2, patients, nurses)
            || valid_no_delim(s1, patients) && valid_no_delim(s2, patients),
    ensures
        s1.to_multiset() == s2.to_multiset(),
{
    broadcast use vstd::seq_lib::group_to_multiset_ensures;

    assert forall|v: u16| s1.to_multiset().count(v) == s2.to_multiset().count(v) by {
        if v == 0 || 1 <= v <= patients {
        } else {
            if s1.to_multiset().count(v) > 0 {
                assert(s1.contains(v));
                let i = choose|i: int| 0 <= i < s1.len() && s1[i] == v;
                assert(s1[i] <= patients);
                assert(false);
            }
            if s2.to_multiset().count(v) > 0 {
                assert(s2.contains(v));
                let i = choose|i: int| 0 <= i < s2.len() && s2[i] == v;
                assert(s2[i] <= patients);
                assert(false);
            }
        }
    }
    assert(s1.to_multiset() =~= s2.to_multiset());
}


/// How often a gene occurs in a chromosome.
pub fn gene_occurrences(c: &Chromosome, g: u16) -> (r: usize)
    ensures
        r == c@.to_multiset().count(g),
{
    broadcast use vstd::seq_lib::group_to_multiset_ensures;

    let n = c.genes.len();
    let mut count: usize = 0;
    let mut i: usize = 0;
    while i < n
        invariant
            n == c@.len(),
            i <= n,
            count == c@.take(i as int).to_multiset().count(g),
            count <= i,
        decreases n - i,
    {
        proof {
            assert(c@.take(i + 1) =~= c@.take(i as int).push(c@[i as int]));
            c@.take(i as int).to_multiset_ensures();
            assert(c@.take(i as int).push(c@[i as int]).to_multiset() =~= c@.take(
                i as int,
            ).to_multiset().insert(c@[i as int]));
            crate::helper::lemma_ms_insert_counts(c@.take(i as int).to_multiset(), c@[i as int]);
        }
        if c.genes[i] == g {
            count = count + 1;
        }
        i = i + 1;
    }
    proof {
        assert(c@.take(n as int) =~= c@);
    }
    count
}

/// Whether a chromosome is a valid member of the delimited encoding.
pub fn check_valid_delimited(c: &Chromosome, patients: u16, nurses: usize) -> (r: bool)
    requires
        nurses >= 1,
        patients as nat + nurses as nat <= usize::MAX,
    ensures
        r <==> valid_delimited(c@, patients as nat, nurses as nat),
{
    broadcast use vstd::seq_lib::group_to_multiset_ensures;

    let n = c.genes.len();
    if n != patients as usize + (nurses - 1) {
        return false;
    }
    let mut i: usize = 0;
    while i < n
        invariant
            n == c@.len(),
            i <= n,
            forall|j: int| 0 <= j < i ==> (#[trigger] c@[j]) <= patients,
        decreases n - i,
    {
        if c.genes[i] > patients {
            proof {
                assert(!genes_in_range(c@, patients as nat));
            }
            return false;
        }
        i = i + 1;
    }
    if gene_occurrences(c, 0) != nurses - 1 {
        return false;
    }
    let mut p: u32 = 1;
    while p <= patients as u32
        invariant
            1 <= p <= patients as int + 1,
            n == c@.len(),
            n == patients as int + nurses - 1,
            nurses >= 1,
            genes_in_range(c@, patients as nat),
            c@.to_multiset().count(0u16) == nurses - 1,
            forall|v: u16| 1 <= v < p ==> c@.to_multiset().count(v) == 1,
        decreases patients + 1 - p,
    {
        if gene_occurrences(c, p as u16) != 1 {
            return false;
        }
        p = p + 1;
    }
    true
}

/// Whether every patient identifier in `1..=patients` occurs exactly once.
pub fn check_each_patient_once(c: &Chromosome, patients: u16) -> (r: bool)
    ensures
        r <==> (forall|v: u16| 1 <= v <= patients ==> c@.to_multiset().count(v) == 1),
{
    let mut p: u32 = 1;
    while p <= patients as u32
        invariant
            1 <= p <= patients as int + 1,
            forall|v: u16| 1 <= v < p ==> c@.to_multiset().count(v) == 1,
        decreases patients + 1 - p,
    {
        if gene_occurrences(c, p as u16) != 1 {
            return false;
        }
        p = p + 1;
    }
    true
}

/// Whether a chromosome is a valid member of the delimiter-free encoding.
pub fn check_valid_no_delim(c: &Chromosome, patients: u16) -> (r: bool)
    ensures
        r <==> valid_no_delim(c@, patients as nat),
{
    broadcast use vstd::seq_lib::group_to_multiset_ensures;

    let n = c.genes.len();
    if n != patients as usize {
        return false;
    }
    let mut i: usize = 0;
    while i < n
        invariant
            n == c@.len(),
            i <= n,
            forall|j: int| 0 <= j < i ==> (#[trigger] c@[j]) <= patients,
        decreases n - i,
    {
        if c.genes[i] > patients {
            proof {
                assert(!genes_in_range(c@, patients as nat));
            }
            return false;
        }
        i = i + 1;
    }
    if gene_occurrences(c, 0) != 0 {
        return false;
    }
    check_each_patient_once(c, patients)
}

/// The structural check used by the benchmark tests: one hundred patients,
/// each exactly once, and twenty-four delimiters.
pub fn valid_chromosome(chromo: &Chromosome) -> (r: bool)
    ensures
        r <==> valid_delimited(chromo@, 100, 25),
{
    check_valid_delimited(chromo, 100, 25)
}

/// The delimiter-free counterpart: each of one hundred patients exactly
/// once (delimiters are not counted here).
pub fn valid_chromosome_nurseless(chromo: &Chromosome) -> (r: bool)
    ensures
        r <==> (forall|v: u16| 1 <= v <= 100 ==> chromo@.to_multiset().count(v) == 1),
{
    check_each_patient_once(chromo, 100)
}

} // verus!
