//! The term hierarchy the similarity metric works over: every term carries its
//! information content (in scaled integer units) and its ancestor closure
//! (which includes the term itself).
//!
//! The ontology is built once, validated, and then shared read-only. All
//! summation specs are phrased over `Set<u32>` of term ids, so that statements
//! about unions and intersections of closures do not depend on any order.

use vstd::prelude::*;

verus! {

use crate::SimError;
use vstd::arithmetic::mul::lemma_mul_inequality;

/// Largest number of terms an ontology may hold, and the largest single
/// information-content value: both bounded by `u32::MAX` so every closure sum
/// fits in a `u64`.
pub const MAX_TERMS: u64 = 0xFFFF_FFFF;

/// One ontology term: its numeric id, its information content in scaled
/// integer units, and its ancestor closure (self-inclusive).
#[derive(Debug)]
pub struct TermEntry {
    pub id: u32,
    pub ic: u32,
    pub ancestors: Vec<u32>,
}

/// Sum of the information content of every entry whose id lies in `s`.
///
/// Because ids are unique in a well-formed ontology, this is the
/// information-content mass of the id set `s`.
pub open spec fn ic_sum_over(entries: Seq<TermEntry>, s: Set<u32>) -> int
    decreases entries.len(),
{
    if entries.len() == 0 {
        0
    } else {
        (if s.contains(entries[0].id) {
            entries[0].ic as int
        } else {
            0
        }) + ic_sum_over(entries.drop_first(), s)
    }
}

/// The id set `s` meets the same entries as `t` does.
pub proof fn lemma_ic_sum_congruence(entries: Seq<TermEntry>, s: Set<u32>, t: Set<u32>)
    requires
        forall|i: int|
            0 <= i < entries.len() ==> s.contains(#[trigger] entries[i].id) == t.contains(
                entries[i].id,
            ),
    ensures
        ic_sum_over(entries, s) == ic_sum_over(entries, t),
    decreases entries.len(),
{
    if entries.len() > 0 {
        assert(forall|i: int|
            0 <= i < entries.drop_first().len() ==> #[trigger] entries.drop_first()[i]
                == entries[i + 1]);
        lemma_ic_sum_congruence(entries.drop_first(), s, t);
    }
}

/// A smaller id set never carries more information content.
pub proof fn lemma_ic_sum_monotone(entries: Seq<TermEntry>, s: Set<u32>, t: Set<u32>)
    requires
        forall|x: u32| s.contains(x) ==> t.contains(x),
    ensures
        ic_sum_over(entries, s) <= ic_sum_over(entries, t),
    decreases entries.len(),
{
    if entries.len() > 0 {
        lemma_ic_sum_monotone(entries.drop_first(), s, t);
    }
}

/// Inclusion-exclusion for information-content sums.
pub proof fn lemma_ic_sum_inclusion_exclusion(entries: Seq<TermEntry>, s: Set<u32>, t: Set<u32>)
    ensures
        ic_sum_over(entries, s.union(t)) + ic_sum_over(entries, s.intersect(t)) == ic_sum_over(
            entries,
            s,
        ) + ic_sum_over(entries, t),
    decreases entries.len(),
{
    if entries.len() > 0 {
        lemma_ic_sum_inclusion_exclusion(entries.drop_first(), s, t);
    }
}

/// Information-content sums are non-negative.
pub proof fn lemma_ic_sum_nonneg(entries: Seq<TermEntry>, s: Set<u32>)
    ensures
        0 <= ic_sum_over(entries, s),
    decreases entries.len(),
{
    if entries.len() > 0 {
        lemma_ic_sum_nonneg(entries.drop_first(), s);
    }
}

/// No sum exceeds the entry count times the largest single value.
pub proof fn lemma_ic_sum_bound(entries: Seq<TermEntry>, s: Set<u32>)
    ensures
        ic_sum_over(entries, s) <= entries.len() * (MAX_TERMS as int),
    decreases entries.len(),
{
    if entries.len() > 0 {
        lemma_ic_sum_bound(entries.drop_first(), s);
        assert((entries.len() - 1) * (MAX_TERMS as int) + (MAX_TERMS as int) == entries.len() * (
        MAX_TERMS as int)) by (nonlinear_arith);
    }
}

/// A set with no members carries no information content.
pub proof fn lemma_ic_sum_none(entries: Seq<TermEntry>, s: Set<u32>)
    requires
        forall|x: u32| !s.contains(x),
    ensures
        ic_sum_over(entries, s) == 0,
    decreases entries.len(),
{
    if entries.len() > 0 {
        lemma_ic_sum_none(entries.drop_first(), s);
    }
}

/// Ids absent from the entries contribute nothing: removing one changes no sum.
pub proof fn lemma_ic_sum_foreign_id(entries: Seq<TermEntry>, s: Set<u32>, t: u32)
    requires
        forall|i: int| 0 <= i < entries.len() ==> #[trigger] entries[i].id != t,
    ensures
        ic_sum_over(entries, s.remove(t)) == ic_sum_over(entries, s),
{
    lemma_ic_sum_congruence(entries, s.remove(t), s);
}

/// Removing a present id takes exactly its information content out of the sum.
pub proof fn lemma_ic_sum_remove(entries: Seq<TermEntry>, s: Set<u32>, t: u32, i: int)
    requires
        entries.map_values(|e: TermEntry| e.id).no_duplicates(),
        0 <= i < entries.len(),
        entries[i].id == t,
        s.contains(t),
    ensures
        ic_sum_over(entries, s) == entries[i].ic + ic_sum_over(entries, s.remove(t)),
    decreases entries.len(),
{
    let ids = entries.map_values(|e: TermEntry| e.id);
    assert(forall|j: int| 0 <= j < entries.len() ==> #[trigger] entries[j].id == ids[j]);
    assert(entries.drop_first().map_values(|e: TermEntry| e.id) =~= ids.drop_first());
    assert(forall|j: int|
        0 <= j < entries.drop_first().len() ==> #[trigger] entries.drop_first()[j] == entries[j
            + 1]);
    if i == 0 {
        assert(forall|j: int|
            0 <= j < entries.drop_first().len() ==> (#[trigger] entries.drop_first()[j]).id != t);
        lemma_ic_sum_foreign_id(entries.drop_first(), s, t);
    } else {
        assert(entries.drop_first()[i - 1] == entries[i]);
        lemma_ic_sum_remove(entries.drop_first(), s, t, i - 1);
        assert(entries[0].id != t);
    }
}

/// Adding a fresh id puts exactly its information content into the sum.
pub proof fn lemma_ic_sum_insert(entries: Seq<TermEntry>, s: Set<u32>, t: u32, i: int)
    requires
        entries.map_values(|e: TermEntry| e.id).no_duplicates(),
        0 <= i < entries.len(),
        entries[i].id == t,
        !s.contains(t),
    ensures
        ic_sum_over(entries, s.insert(t)) == entries[i].ic + ic_sum_over(entries, s),
{
    lemma_ic_sum_remove(entries, s.insert(t), t, i);
    assert(s.insert(t).remove(t) =~= s);
}

/// The ids of the entries, in order.
pub open spec fn ids_of(entries: Seq<TermEntry>) -> Seq<u32> {
    entries.map_values(|e: TermEntry| e.id)
}

/// Some entry carries the id `t`.
pub open spec fn has_id(entries: Seq<TermEntry>, t: u32) -> bool {
    ids_of(entries).contains(t)
}

/// The entry carrying the id `t`.
pub open spec fn entry_of(entries: Seq<TermEntry>, t: u32) -> TermEntry {
    entries[ids_of(entries).index_of(t)]
}

/// A single entry is well formed against the whole list: its closure has no
/// duplicates, holds the term itself, and every ancestor resolves.
pub open spec fn entry_ok(entries: Seq<TermEntry>, e: TermEntry) -> bool {
    &&& e.ancestors@.no_duplicates()
    &&& e.ancestors@.contains(e.id)
    &&& forall|k: int| 0 <= k < e.ancestors@.len() ==> has_id(entries, #[trigger] e.ancestors@[k])
}

/// The closure of `e` is downward consistent: each proper ancestor brings its
/// own closure along (transitivity) and never has `e` among its ancestors in
/// turn (the hierarchy has no cycles).
pub open spec fn closure_ok(entries: Seq<TermEntry>, e: TermEntry) -> bool {
    forall|k: int|
        0 <= k < e.ancestors@.len() ==> (#[trigger] e.ancestors@[k] == e.id || (entry_of(
            entries,
            e.ancestors@[k],
        ).ancestors@.to_set().subset_of(e.ancestors@.to_set()) && !entry_of(
            entries,
            e.ancestors@[k],
        ).ancestors@.contains(e.id)))
}

/// The whole entry list is a well-formed ontology.
pub open spec fn entries_wf(entries: Seq<TermEntry>) -> bool {
    &&& entries.len() <= MAX_TERMS
    &&& ids_of(entries).no_duplicates()
    &&& forall|i: int| 0 <= i < entries.len() ==> entry_ok(entries, #[trigger] entries[i])
    &&& forall|i: int| 0 <= i < entries.len() ==> closure_ok(entries, #[trigger] entries[i])
}

/// The ontology: a validated list of term entries with unique ids.
pub struct Ontology {
    pub terms: Vec<TermEntry>,
}

impl Ontology {
    /// The ids of all terms, in entry order.
    pub open spec fn ids(self) -> Seq<u32> {
        ids_of(self.terms@)
    }

    /// The ontology resolves the term id `t`.
    pub open spec fn contains_term(self, t: u32) -> bool {
        has_id(self.terms@, t)
    }

    /// The entry of a resolvable term id.
    pub open spec fn entry_spec(self, t: u32) -> TermEntry {
        entry_of(self.terms@, t)
    }

    /// The information content of a resolvable term id.
    pub open spec fn ic_of(self, t: u32) -> u32 {
        self.entry_spec(t).ic
    }

    /// The ancestor closure of a resolvable term id, in stored order.
    pub open spec fn anc_seq(self, t: u32) -> Seq<u32> {
        self.entry_spec(t).ancestors@
    }

    /// The ancestor closure of a resolvable term id, as a set.
    pub open spec fn anc_set(self, t: u32) -> Set<u32> {
        self.anc_seq(t).to_set()
    }

    /// The information-content mass of an id set.
    pub open spec fn set_ic(self, s: Set<u32>) -> int {
        ic_sum_over(self.terms@, s)
    }

    /// Every id of `s` resolves.
    pub open spec fn resolves_all(self, s: Seq<u32>) -> bool {
        forall|k: int| 0 <= k < s.len() ==> self.contains_term(#[trigger] s[k])
    }

    /// A single entry is well formed: see `entry_ok`.
    pub open spec fn entry_wf(self, e: TermEntry) -> bool {
        entry_ok(self.terms@, e)
    }

    /// The closure of `e` is downward consistent: see `closure_ok`.
    pub open spec fn closure_ordered(self, e: TermEntry) -> bool {
        closure_ok(self.terms@, e)
    }

    /// The whole ontology is well formed.
    pub open spec fn wf(self) -> bool {
        entries_wf(self.terms@)
    }

    /// For a resolvable id, the chosen entry index is valid, carries that id,
    /// and is the only one that does.
    pub proof fn lemma_entry(self, t: u32)
        requires
            self.wf(),
            self.contains_term(t),
        ensures
            0 <= self.ids().index_of(t) < self.terms@.len(),
            self.terms@[self.ids().index_of(t)].id == t,
            self.entry_wf(self.entry_spec(t)),
            self.closure_ordered(self.entry_spec(t)),
            self.anc_set(t).contains(t),
    {
        assert(forall|j: int|
            0 <= j < self.terms@.len() ==> #[trigger] self.ids()[j] == self.terms@[j].id);
        let w = choose|i: int| 0 <= i < self.ids().len() && self.ids()[i] == t;
        assert(self.ids()[self.ids().index_of(t)] == t);
        assert(self.entry_spec(t).ancestors@.contains(t));
    }

    /// An index holding id `t` is the index `entry_spec` resolves to.
    pub proof fn lemma_entry_at(self, i: int)
        requires
            self.wf(),
            0 <= i < self.terms@.len(),
        ensures
            self.contains_term(self.terms@[i].id),
            self.entry_spec(self.terms@[i].id) == self.terms@[i],
    {
        assert(forall|j: int|
            0 <= j < self.terms@.len() ==> #[trigger] self.ids()[j] == self.terms@[j].id);
        assert(self.ids()[i] == self.terms@[i].id);
        let t = self.terms@[i].id;
        assert(self.ids()[self.ids().index_of(t)] == t);
        assert(self.ids().index_of(t) == i);
    }

    /// Every closure sum is bounded by `MAX_TERMS * MAX_TERMS`: no `u64`
    /// overflow is possible when adding at most two more single values.
    pub proof fn lemma_set_ic_fits(self, s: Set<u32>)
        requires
            self.wf(),
        ensures
            0 <= self.set_ic(s) <= (MAX_TERMS as int) * (MAX_TERMS as int),
    {
        lemma_ic_sum_nonneg(self.terms@, s);
        lemma_ic_sum_bound(self.terms@, s);
        lemma_mul_inequality(self.terms@.len() as int, MAX_TERMS as int, MAX_TERMS as int);
    }

    /// Looks a term id up; `Some` exactly when the ontology resolves it.
    pub fn find_term(&self, t: u32) -> (r: Option<usize>)
        requires
            self.wf(),
        ensures
            match r {
                Some(i) => self.contains_term(t) && i < self.terms@.len() && self.terms@[i as int]
                    == self.entry_spec(t) && self.terms@[i as int].id == t,
                None => !self.contains_term(t),
            },
    {
        let n = self.terms.len();
        let mut i: usize = 0;
        while i < n
            invariant
                self.wf(),
                i <= n,
                n == self.terms@.len(),
                forall|j: int| 0 <= j < i ==> #[trigger] self.terms@[j].id != t,
            decreases n - i,
        {
            if self.terms[i].id == t {
                proof {
                    self.lemma_entry_at(i as int);
                }
                return Some(i);
            }
            i += 1;
        }
        proof {
            assert(forall|j: int|
                0 <= j < self.terms@.len() ==> #[trigger] self.ids()[j] == self.terms@[j].id);
        }
        None
    }

    /// Whether the ontology resolves the term id `t`.
    pub fn resolves(&self, t: u32) -> (r: bool)
        requires
            self.wf(),
        ensures
            r == self.contains_term(t),
    {
        self.find_term(t).is_some()
    }

    /// The information content of a resolvable term.
    pub fn ic_value(&self, t: u32) -> (r: u32)
        requires
            self.wf(),
            self.contains_term(t),
        ensures
            r == self.ic_of(t),
    {
        match self.find_term(t) {
            Some(i) => self.terms[i].ic,
            None => 0,
        }
    }

    /// Sum of the information content over a duplicate-free list of
    /// resolvable ids, as the mass of its id set.
    pub fn closure_ic_sum(&self, ids_v: &Vec<u32>) -> (r: u64)
        requires
            self.wf(),
            ids_v@.no_duplicates(),
            self.resolves_all(ids_v@),
        ensures
            r == self.set_ic(ids_v@.to_set()),
            r <= (MAX_TERMS as int) * (MAX_TERMS as int),
    {
        proof {
            lemma_ic_sum_none(self.terms@, ids_v@.take(0).to_set());
        }
        let n = ids_v.len();
        let mut acc: u64 = 0;
        let mut i: usize = 0;
        while i < n
            invariant
                self.wf(),
                ids_v@.no_duplicates(),
                self.resolves_all(ids_v@),
                i <= n,
                n == ids_v@.len(),
                acc == self.set_ic(ids_v@.take(i as int).to_set()),
                acc <= (MAX_TERMS as int) * (MAX_TERMS as int),
            decreases n - i,
        {
            let t = ids_v[i];
            let ic = self.ic_value(t);
            proof {
                let pre = ids_v@.take(i as int);
                let grown = ids_v@.take(i + 1);
                assert(grown =~= pre.push(t));
                assert(!pre.contains(t)) by {
                    if pre.contains(t) {
                        let j = choose|j: int| 0 <= j < pre.len() && pre[j] == t;
                        assert(ids_v@[j] == t && ids_v@[i as int] == t && j != i);
                    }
                }
                self.lemma_entry(t);
                lemma_ic_sum_insert(self.terms@, pre.to_set(), t, self.ids().index_of(t));
                pre.lemma_push_to_set_commute(t);
                assert(grown.to_set() =~= pre.to_set().insert(t));
                self.lemma_set_ic_fits(grown.to_set());
                assert((MAX_TERMS as int) * (MAX_TERMS as int) < u64::MAX) by (nonlinear_arith);
            }
            acc = acc + (ic as u64);
            i += 1;
        }
        proof {
            assert(ids_v@.take(n as int) =~= ids_v@);
        }
        acc
    }

    /// Sum of the information content over the ids of `a_v` that also occur in
    /// `b_v`: the mass of the intersection of the two id sets.
    pub fn intersect_ic_sum(&self, a_v: &Vec<u32>, b_v: &Vec<u32>) -> (r: u64)
        requires
            self.wf(),
            a_v@.no_duplicates(),
            self.resolves_all(a_v@),
        ensures
            r == self.set_ic(a_v@.to_set().intersect(b_v@.to_set())),
            r <= (MAX_TERMS as int) * (MAX_TERMS as int),
    {
        proof {
            lemma_ic_sum_none(self.terms@, a_v@.take(0).to_set().intersect(b_v@.to_set()));
        }
        let n = a_v.len();
        let bset = Ghost(b_v@.to_set());
        let mut acc: u64 = 0;
        let mut i: usize = 0;
        while i < n
            invariant
                self.wf(),
                a_v@.no_duplicates(),
                self.resolves_all(a_v@),
                i <= n,
                n == a_v@.len(),
                bset@ == b_v@.to_set(),
                acc == self.set_ic(a_v@.take(i as int).to_set().intersect(bset@)),
                acc <= (MAX_TERMS as int) * (MAX_TERMS as int),
            decreases n - i,
        {
            let t = a_v[i];
            let hit = contains_id(b_v, t);
            proof {
                let pre = a_v@.take(i as int);
                let grown = a_v@.take(i + 1);
                assert(grown =~= pre.push(t));
                assert(!pre.contains(t)) by {
                    if pre.contains(t) {
                        let j = choose|j: int| 0 <= j < pre.len() && pre[j] == t;
                        assert(a_v@[j] == t && a_v@[i as int] == t && j != i);
                    }
                }
                pre.lemma_push_to_set_commute(t);
                if hit {
                    self.lemma_entry(t);
                    lemma_ic_sum_insert(
                        self.terms@,
                        pre.to_set().intersect(bset@),
                        t,
                        self.ids().index_of(t),
                    );
                    assert(grown.to_set().intersect(bset@) =~= pre.to_set().intersect(
                        bset@,
                    ).insert(t));
                    self.lemma_set_ic_fits(grown.to_set().intersect(bset@));
                    assert((MAX_TERMS as int) * (MAX_TERMS as int) < u64::MAX) by (nonlinear_arith);
                } else {
                    assert(grown.to_set().intersect(bset@) =~= pre.to_set().intersect(bset@));
                }
            }
            if hit {
                let ic = self.ic_value(t);
                acc = acc + (ic as u64);
            }
            i += 1;
        }
        proof {
            assert(a_v@.take(n as int) =~= a_v@);
        }
        acc
    }
}

/// For unique ids, the entry found at an index is the entry of its id.
pub proof fn lemma_entry_of_at(entries: Seq<TermEntry>, i: int)
    requires
        ids_of(entries).no_duplicates(),
        0 <= i < entries.len(),
    ensures
        has_id(entries, entries[i].id),
        entry_of(entries, entries[i].id) == entries[i],
{
    assert(forall|j: int| 0 <= j < entries.len() ==> #[trigger] entries[j].id == ids_of(entries)[j]);
    let t = entries[i].id;
    assert(ids_of(entries)[i] == t);
    assert(ids_of(entries)[ids_of(entries).index_of(t)] == t);
}

/// Searches the raw entry list for an id, before any well-formedness holds.
fn find_entry(terms: &Vec<TermEntry>, t: u32) -> (r: Option<usize>)
    ensures
        match r {
            Some(i) => i < terms@.len() && terms@[i as int].id == t && has_id(terms@, t),
            None => !has_id(terms@, t),
        },
{
    let n = terms.len();
    let mut i: usize = 0;
    while i < n
        invariant
            i <= n,
            n == terms@.len(),
            forall|j: int| 0 <= j < i ==> #[trigger] terms@[j].id != t,
        decreases n - i,
    {
        if terms[i].id == t {
            proof {
                assert(ids_of(terms@)[i as int] == t);
            }
            return Some(i);
        }
        i += 1;
    }
    proof {
        assert(forall|j: int|
            0 <= j < terms@.len() ==> #[trigger] ids_of(terms@)[j] == terms@[j].id);
    }
    None
}

/// Whether every id of the entry list is distinct.
fn check_unique_ids(terms: &Vec<TermEntry>) -> (r: bool)
    ensures
        r == ids_of(terms@).no_duplicates(),
{
    proof {
        assert(forall|j: int|
            0 <= j < terms@.len() ==> #[trigger] ids_of(terms@)[j] == terms@[j].id);
    }
    let n = terms.len();
    let mut i: usize = 0;
    while i < n
        invariant
            i <= n,
            n == terms@.len(),
            forall|p: int, q: int| 0 <= q < p < i ==> (#[trigger] terms@[q].id) != (#[trigger] terms@[p].id),
        decreases n - i,
    {
        let mut j: usize = 0;
        while j < i
            invariant
                j <= i,
                i < n,
                n == terms@.len(),
                forall|q: int| 0 <= q < j ==> #[trigger] terms@[q].id != terms@[i as int].id,
            decreases i - j,
        {
            if terms[j].id == terms[i].id {
                proof {
                    assert(ids_of(terms@)[j as int] == ids_of(terms@)[i as int]);
                }
                return false;
            }
            j += 1;
        }
        i += 1;
    }
    true
}

/// Whether the id list holds no duplicates.
fn check_no_dup_ids(v: &Vec<u32>) -> (r: bool)
    ensures
        r == v@.no_duplicates(),
{
    let n = v.len();
    let mut i: usize = 0;
    while i < n
        invariant
            i <= n,
            n == v@.len(),
            forall|p: int, q: int| 0 <= q < p < i ==> (#[trigger] v@[q]) != (#[trigger] v@[p]),
        decreases n - i,
    {
        let mut j: usize = 0;
        while j < i
            invariant
                j <= i,
                i < n,
                n == v@.len(),
                forall|q: int| 0 <= q < j ==> #[trigger] v@[q] != v@[i as int],
            decreases i - j,
        {
            if v[j] == v[i] {
                return false;
            }
            j += 1;
        }
        i += 1;
    }
    true
}

/// Whether every id of `sub` also occurs in `sup`.
fn check_subset_ids(sub: &Vec<u32>, sup: &Vec<u32>) -> (r: bool)
    ensures
        r == sub@.to_set().subset_of(sup@.to_set()),
{
    let n = sub.len();
    let mut i: usize = 0;
    while i < n
        invariant
            i <= n,
            n == sub@.len(),
            forall|j: int| 0 <= j < i ==> sup@.contains(#[trigger] sub@[j]),
        decreases n - i,
    {
        if !contains_id(sup, sub[i]) {
            proof {
                assert(sub@.to_set().contains(sub@[i as int]));
                assert(!sup@.to_set().contains(sub@[i as int]));
            }
            return false;
        }
        i += 1;
    }
    true
}

/// Whether the entry at `i` is well formed against the list.
fn check_entry_ok(terms: &Vec<TermEntry>, i: usize) -> (r: bool)
    requires
        i < terms@.len(),
    ensures
        r == entry_ok(terms@, terms@[i as int]),
{
    let e_anc: &Vec<u32> = &terms[i].ancestors;
    if !check_no_dup_ids(e_anc) {
        return false;
    }
    if !contains_id(e_anc, terms[i].id) {
        return false;
    }
    let m = e_anc.len();
    let mut k: usize = 0;
    while k < m
        invariant
            k <= m,
            i < terms@.len(),
            m == terms@[i as int].ancestors@.len(),
            e_anc@ == terms@[i as int].ancestors@,
            forall|j: int| 0 <= j < k ==> has_id(terms@, #[trigger] e_anc@[j]),
        decreases m - k,
    {
        if find_entry(terms, e_anc[k]).is_none() {
            return false;
        }
        k += 1;
    }
    true
}

/// Whether the closure of the entry at `i` is downward consistent.
fn check_closure_ok(terms: &Vec<TermEntry>, i: usize) -> (r: bool)
    requires
        i < terms@.len(),
        ids_of(terms@).no_duplicates(),
        entry_ok(terms@, terms@[i as int]),
    ensures
        r == closure_ok(terms@, terms@[i as int]),
{
    let e_id = terms[i].id;
    let m = terms[i].ancestors.len();
    let mut k: usize = 0;
    while k < m
        invariant
            k <= m,
            i < terms@.len(),
            ids_of(terms@).no_duplicates(),
            entry_ok(terms@, terms@[i as int]),
            e_id == terms@[i as int].id,
            m == terms@[i as int].ancestors@.len(),
            forall|j: int|
                0 <= j < k ==> {
                    let a = #[trigger] terms@[i as int].ancestors@[j];
                    a == terms@[i as int].id || (entry_of(terms@, a).ancestors@.to_set().subset_of(
                        terms@[i as int].ancestors@.to_set(),
                    ) && !entry_of(terms@, a).ancestors@.contains(terms@[i as int].id))
                },
        decreases m - k,
    {
        let a = terms[i].ancestors[k];
        if a != e_id {
            match find_entry(terms, a) {
                Some(ai) => {
                    proof {
                        lemma_entry_of_at(terms@, ai as int);
                    }
                    if !check_subset_ids(&terms[ai].ancestors, &terms[i].ancestors) {
                        return false;
                    }
                    if contains_id(&terms[ai].ancestors, e_id) {
                        return false;
                    }
                },
                None => {
                    proof {
                        assert(has_id(terms@, terms@[i as int].ancestors@[k as int]));
                    }
                    return false;
                },
            }
        }
        k += 1;
    }
    true
}

impl Ontology {
    /// Validates a raw entry list and seals it as an ontology.
    ///
    /// Succeeds exactly when the entries are well formed: unique ids, every
    /// closure duplicate-free, self-inclusive and resolvable, and every
    /// closure downward consistent. A malformed list is a data error.
    pub fn new(terms: Vec<TermEntry>) -> (r: Result<Ontology, SimError>)
        ensures
            match r {
                Ok(o) => o.terms@ == terms@ && o.wf(),
                Err(e) => e == SimError::DataError && !entries_wf(terms@),
            },
    {
        if terms.len() > (MAX_TERMS as usize) {
            return Err(SimError::DataError);
        }
        if !check_unique_ids(&terms) {
            return Err(SimError::DataError);
        }
        let n = terms.len();
        let mut i: usize = 0;
        while i < n
            invariant
                i <= n,
                n == terms@.len() <= MAX_TERMS,
                ids_of(terms@).no_duplicates(),
                forall|p: int| 0 <= p < i ==> entry_ok(terms@, #[trigger] terms@[p]),
                forall|p: int| 0 <= p < i ==> closure_ok(terms@, #[trigger] terms@[p]),
            decreases n - i,
        {
            if !check_entry_ok(&terms, i) {
                return Err(SimError::DataError);
            }
            if !check_closure_ok(&terms, i) {
                return Err(SimError::DataError);
            }
            i += 1;
        }
        Ok(Ontology { terms })
    }
}

/// Whether every id of the list resolves in the ontology.
pub fn resolves_all_exec(o: &Ontology, ids_v: &Vec<u32>) -> (r: bool)
    requires
        o.wf(),
    ensures
        r == o.resolves_all(ids_v@),
{
    let n = ids_v.len();
    let mut i: usize = 0;
    while i < n
        invariant
            o.wf(),
            i <= n,
            n == ids_v@.len(),
            forall|j: int| 0 <= j < i ==> o.contains_term(#[trigger] ids_v@[j]),
        decreases n - i,
    {
        if !o.resolves(ids_v[i]) {
            return false;
        }
        i += 1;
    }
    true
}

/// Whether the id list holds `x`.
pub fn contains_id(v: &Vec<u32>, x: u32) -> (r: bool)
    ensures
        r == v@.contains(x),
{
    let n = v.len();
    let mut i: usize = 0;
    while i < n
        invariant
            i <= n,
            n == v@.len(),
            forall|j: int| 0 <= j < i ==> v@[j] != x,
        decreases n - i,
    {
        if v[i] == x {
            return true;
        }
        i += 1;
    }
    false
}

/// A duplicate-free list of resolvable ids is no longer than the term list.
pub proof fn lemma_resolvable_unique_len(o: Ontology, s: Seq<u32>)
    requires
        o.wf(),
        s.no_duplicates(),
        o.resolves_all(s),
    ensures
        s.len() <= MAX_TERMS,
{
    broadcast use vstd::seq_lib::seq_to_set_is_finite;

    s.unique_seq_to_set();
    assert forall|x: u32| s.to_set().contains(x) implies o.ids().to_set().contains(x) by {
        let k = choose|k: int| 0 <= k < s.len() && s[k] == x;
        assert(o.contains_term(s[k]));
    }
    vstd::set_lib::lemma_len_subset(s.to_set(), o.ids().to_set());
    o.ids().lemma_cardinality_of_set();
}

} // verus!
