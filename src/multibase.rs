//! The multi-base encoder: a sequence of positions, each bound to a base
//! (a literal separator, a list of choices, the word list, or a nested
//! encoder), that writes an integer below the product of the bases'
//! cardinalities as a string, least significant position last.

use crate::bignum::{BigNat, be_value, bit_length};
use crate::error::{PassacreError, PassacreErrorKind};
use vstd::prelude::*;
use vstd::string::*;

verus! {

broadcast use vstd::std_specs::vec::group_vec_axioms;

pub enum Base {
    Separator(String),
    Choices(Vec<String>),
    Words,
    NestedBase(MultiBase),
}

/// One distinct base, with its cardinality.
struct BaseInfo {
    base: Base,
    length: BigNat,
}

pub struct MultiBase {
    /// The distinct bases, in the order of their first position.
    bases: Vec<BaseInfo>,
    /// For each distinct base, the number of positions bound to it.
    counts: Vec<usize>,
    /// For each position, the index in `bases` of its base.
    slots: Vec<usize>,
    words: Option<Vec<String>>,
    length_product: BigNat,
    shuffle: bool,
}

pub open spec fn strings_view(v: Seq<String>) -> Seq<Seq<char>> {
    v.map_values(|s: String| s@)
}

/// `s[j]` occurs nowhere before `j`.
pub open spec fn first_at(s: Seq<usize>, j: int) -> bool {
    forall|k: int| 0 <= k < j ==> s[k] != s[j]
}

/// How many times `e` occurs in `s`.
pub open spec fn occurrences(s: Seq<usize>, e: int) -> nat
    decreases s.len(),
{
    if s.len() == 0 {
        0
    } else {
        occurrences(s.drop_last(), e) + if s.last() == e {
            1nat
        } else {
            0nat
        }
    }
}

pub open spec fn factorial(n: nat) -> nat
    decreases n,
{
    if n == 0 {
        1
    } else {
        n * factorial((n - 1) as nat)
    }
}

/// The number of distinct values a base contributes, given the word list of
/// the encoder that holds it.
pub open spec fn base_card(b: Base, words: Option<Vec<String>>) -> nat {
    match b {
        Base::Separator(_) => 1,
        Base::Choices(cs) => cs@.len(),
        Base::Words => match words {
            Some(w) => w@.len(),
            None => 0,
        },
        Base::NestedBase(m) => m.length(),
    }
}

/// A base as an argument: a nested encoder in it is well formed.
pub open spec fn base_wf(b: Base) -> bool {
    match b {
        Base::NestedBase(m) => m.wf(),
        _ => true,
    }
}

/// Structural equality of bases, by the contents of their strings.
pub open spec fn base_equiv(a: Base, b: Base) -> bool
    decreases a,
{
    match (a, b) {
        (Base::Separator(x), Base::Separator(y)) => x@ == y@,
        (Base::Choices(x), Base::Choices(y)) => strings_view(x@) == strings_view(y@),
        (Base::Words, Base::Words) => true,
        (Base::NestedBase(m1), Base::NestedBase(m2)) => mb_equiv(m1, m2),
        _ => false,
    }
}

pub open spec fn words_equiv(a: Option<Vec<String>>, b: Option<Vec<String>>) -> bool {
    match (a, b) {
        (Some(x), Some(y)) => strings_view(x@) == strings_view(y@),
        (None, None) => true,
        _ => false,
    }
}

/// Structural equality of encoders.
pub closed spec fn mb_equiv(m1: MultiBase, m2: MultiBase) -> bool
    decreases m1, m1.n_entries() + 1,
{
    &&& m1.slots@ == m2.slots@
    &&& m1.bases@.len() == m2.bases@.len()
    &&& entries_equiv(m1, m2, m1.bases@.len())
    &&& words_equiv(m1.words, m2.words)
    &&& m1.shuffle == m2.shuffle
    &&& m1.length_product@ == m2.length_product@
}

closed spec fn entries_equiv(m1: MultiBase, m2: MultiBase, k: nat) -> bool
    decreases m1, k,
{
    if k == 0 {
        true
    } else if k <= m1.bases@.len() && k <= m2.bases@.len() {
        &&& entries_equiv(m1, m2, (k - 1) as nat)
        &&& base_equiv(m1.bases@[k - 1].base, m2.bases@[k - 1].base)
    } else {
        false
    }
}

impl MultiBase {
    /// The size of the addressable space: `encode` takes the integers below it.
    pub closed spec fn length(self) -> nat {
        self.length_product@
    }

    /// The number of logical positions.
    pub closed spec fn n_positions(self) -> nat {
        self.slots@.len()
    }

    /// The base bound to position `i`.
    pub closed spec fn position_base(self, i: int) -> Base {
        self.bases@[self.slots@[i] as int].base
    }

    /// Which stored base position `i` shares: two positions share one exactly
    /// when their indices here are equal.
    pub closed spec fn entry_of(self, i: int) -> nat {
        self.slots@[i] as nat
    }

    /// The number of distinct bases.
    pub closed spec fn n_entries(self) -> nat {
        self.bases@.len()
    }

    pub closed spec fn word_list(self) -> Option<Vec<String>> {
        self.words
    }

    pub closed spec fn shuffled(self) -> bool {
        self.shuffle
    }

    /// The index of the first stored base equivalent to `b`, or the number of
    /// stored bases where there is none.
    pub closed spec fn find_entry(self, b: Base) -> nat {
        self.find_entry_from(b, 0)
    }

    closed spec fn find_entry_from(self, b: Base, e: nat) -> nat
        decreases self.bases@.len() - e,
    {
        if e >= self.bases@.len() {
            self.bases@.len()
        } else if base_equiv(self.bases@[e as int].base, b) {
            e
        } else {
            self.find_entry_from(b, e + 1)
        }
    }

    /// The product of the cardinalities of the first `k` positions.
    pub closed spec fn product_upto(self, k: nat) -> nat
        decreases k,
    {
        if k == 0 {
            1
        } else if k <= self.slots@.len() && self.slots@[k - 1] < self.bases@.len() {
            self.product_upto((k - 1) as nat) * self.bases@[self.slots@[k - 1] as int].length@
        } else {
            0
        }
    }

    /// `acc` divided in turn by the factorial of each of the first `k` stored
    /// bases' position counts.
    pub closed spec fn divide_by_counts(self, acc: nat, k: nat) -> nat
        decreases k,
    {
        if k == 0 || k > self.bases@.len() {
            acc
        } else {
            self.divide_by_counts(acc, (k - 1) as nat) / factorial(self.counts@[k - 1] as nat)
        }
    }

    /// The size of the space once positions may be permuted: the product of
    /// the cardinalities times the number of distinct orderings of the
    /// positions, `n! / (k1! k2! ...)` where `ki` counts the positions that
    /// share one base.
    pub closed spec fn shuffled_length(self) -> nat {
        self.divide_by_counts(
            self.product_upto(self.slots@.len()) * factorial(self.slots@.len()),
            self.bases@.len(),
        )
    }

    pub closed spec fn wf(self) -> bool
        decreases self, self.n_entries() + 1,
    {
        &&& self.counts@.len() == self.bases@.len()
        &&& self.slots@.len() <= usize::MAX
        &&& self.bases@.len() <= self.slots@.len()
        &&& forall|i: int| 0 <= i < self.slots@.len() ==> self.slots@[i] < self.bases@.len()
        &&& forall|e: int|
            #![trigger self.bases@[e]]
            #![trigger self.counts@[e]]
            0 <= e < self.bases@.len() ==> {
                &&& self.counts@[e] == occurrences(self.slots@, e)
                &&& self.counts@[e] >= 1
                &&& self.bases@[e].length@ == base_card(self.bases@[e].base, self.words)
                &&& self.bases@[e].length@ >= 1
            }
        &&& forall|e1: int, e2: int|
            0 <= e1 < e2 < self.bases@.len() ==> !base_equiv(
                self.bases@[e1].base,
                self.bases@[e2].base,
            )
        &&& self.length_product@ == if self.shuffle {
            self.shuffled_length()
        } else {
            self.product_upto(self.slots@.len())
        }
        &&& self.length_product@ >= 1
        &&& forall|i: int, j: int|
            #![trigger self.slots@[i], first_at(self.slots@, j)]
            0 <= i < j < self.slots@.len() && first_at(self.slots@, j) ==> self.slots@[i]
                < self.slots@[j]
        &&& self.nested_wf(self.bases@.len())
    }

    closed spec fn nested_wf(self, k: nat) -> bool
        decreases self, k,
    {
        if k == 0 {
            true
        } else if k <= self.bases@.len() {
            &&& self.nested_wf((k - 1) as nat)
            &&& match self.bases@[k - 1].base {
                Base::NestedBase(m) => m.wf(),
                _ => true,
            }
        } else {
            false
        }
    }
}

/// The unassigned slots of a partial arrangement, in increasing order.
pub open spec fn free_slots(ret: Seq<Option<usize>>) -> Seq<usize>
    decreases ret.len(),
{
    if ret.len() == 0 {
        Seq::empty()
    } else {
        let f = free_slots(ret.drop_last());
        if ret.last() is None {
            f.push((ret.len() - 1) as usize)
        } else {
            f
        }
    }
}

/// The binomial coefficient: the number of `k`-element subsets of `n` things.
pub open spec fn binom(n: nat, k: nat) -> nat
    decreases n,
{
    if k == 0 {
        1
    } else if n == 0 {
        0
    } else {
        binom((n - 1) as nat, (k - 1) as nat) + binom((n - 1) as nat, k)
    }
}

/// The `c`-th `k`-element subset of `free`, in lexicographic order of
/// positions in `free`, listed in that order.
pub open spec fn unrank(free: Seq<usize>, k: nat, c: nat) -> Seq<usize>
    decreases free.len(),
{
    if free.len() == 0 || k == 0 {
        Seq::empty()
    } else {
        let with_first = binom((free.len() - 1) as nat, (k - 1) as nat);
        if c < with_first {
            seq![free[0]] + unrank(free.drop_first(), (k - 1) as nat, c)
        } else {
            unrank(free.drop_first(), k, (c - with_first) as nat)
        }
    }
}

/// Whether slot `i` is among `chosen`.
pub open spec fn chosen_slot(chosen: Seq<usize>, i: int) -> bool {
    exists|w: int| 0 <= w < chosen.len() && chosen[w] as int == i
}

/// `ret` with the slots in `chosen` assigned to stored base `e`.
pub open spec fn mark(ret: Seq<Option<usize>>, chosen: Seq<usize>, e: usize) -> Seq<
    Option<usize>,
> {
    Seq::new(
        ret.len(),
        |i: int|
            if chosen_slot(chosen, i) {
                Some(e)
            } else {
                ret[i]
            },
    )
}

/// Places the `count` positions of stored base `e` as one choice of a set of
/// free slots: `n mod C(f, count)` (with `f` free slots) picks the set, and
/// `n` is divided by `C(f, count)`.
pub open spec fn place_entry(ret: Seq<Option<usize>>, e: usize, count: nat, n: nat) -> (
    Seq<Option<usize>>,
    nat,
) {
    let free = free_slots(ret);
    let total = binom(free.len(), count);
    if total == 0 {
        (ret, n)
    } else {
        (mark(ret, unrank(free, count, n % total), e), n / total)
    }
}

/// Every unassigned slot goes to stored base `e`.
pub open spec fn fill_free(ret: Seq<Option<usize>>, e: usize) -> Seq<usize> {
    Seq::new(
        ret.len(),
        |i: int|
            match ret[i] {
                Some(v) => v,
                None => e,
            },
    )
}

pub open spec fn indices(k: nat) -> Seq<usize> {
    Seq::new(k, |i: int| i as usize)
}

pub open spec fn unassigned(k: nat) -> Seq<Option<usize>> {
    Seq::new(k, |i: int| None::<usize>)
}

impl MultiBase {
    /// The order in which shuffling places stored bases: fewer positions
    /// first, then smaller cardinality, then earlier first position.
    pub closed spec fn key_less(self, a: usize, b: usize) -> bool {
        let ca = self.counts@[a as int];
        let cb = self.counts@[b as int];
        let la = self.bases@[a as int].length@;
        let lb = self.bases@[b as int].length@;
        ca < cb || (ca == cb && (la < lb || (la == lb && a < b)))
    }

    /// The index in `rest` of its least element by `key_less`.
    pub closed spec fn argmin(self, rest: Seq<usize>) -> int
        decreases rest.len(),
    {
        if rest.len() <= 1 {
            0
        } else {
            let j = self.argmin(rest.drop_last());
            if self.key_less(rest.last(), rest[j]) {
                rest.len() - 1
            } else {
                j
            }
        }
    }

    /// `rest` sorted by `key_less`.
    pub closed spec fn selection_order(self, rest: Seq<usize>) -> Seq<usize>
        decreases rest.len(),
    {
        let j = self.argmin(rest);
        if rest.len() == 0 || j < 0 || j >= rest.len() {
            Seq::empty()
        } else {
            seq![rest[j]] + self.selection_order(rest.remove(j))
        }
    }

    /// Places the positions of the stored bases of `order`, first to last.
    pub closed spec fn place_all(self, order: Seq<usize>, ret: Seq<Option<usize>>, n: nat) -> (
        Seq<Option<usize>>,
        nat,
    )
        decreases order.len(),
    {
        if order.len() == 0 {
            (ret, n)
        } else {
            let (r2, n2) = self.place_all(order.drop_last(), ret, n);
            let e = order.last();
            if e < self.counts@.len() {
                place_entry(r2, e, self.counts@[e as int] as nat, n2)
            } else {
                (r2, n2)
            }
        }
    }

    /// With shuffling: the stored base of each position, drawn from `n`, and
    /// what is left of `n`. All stored bases but the last in `key_less` order
    /// are placed; the last takes the slots left over.
    pub closed spec fn shuffled_arrangement(self, n: nat) -> (Seq<usize>, nat) {
        let order = self.selection_order(indices(self.bases@.len()));
        if order.len() == 0 {
            (Seq::empty(), n)
        } else {
            let (ret, n2) = self.place_all(order.drop_last(), unassigned(self.slots@.len()), n);
            (fill_free(ret, order.last()), n2)
        }
    }

    /// The stored base of each position when encoding `n`, and what is left
    /// of `n` for the digits.
    pub closed spec fn arrangement(self, n: nat) -> (Seq<usize>, nat) {
        if self.shuffle {
            self.shuffled_arrangement(n)
        } else {
            (self.slots@, n)
        }
    }

    /// The string for `n` over the positions `arr` (stored-base indices):
    /// the last position takes the least significant digit.
    pub closed spec fn encode_slots(self, arr: Seq<usize>, n: nat) -> Seq<char>
        decreases self, arr.len(),
    {
        if arr.len() == 0 {
            Seq::empty()
        } else {
            let e = arr.last() as int;
            let rest = arr.drop_last();
            if e >= self.bases@.len() {
                self.encode_slots(rest, n)
            } else {
                let k = self.bases@[e].length@;
                match self.bases@[e].base {
                    Base::Separator(s) => self.encode_slots(rest, n) + s@,
                    Base::Choices(cs) => self.encode_slots(rest, n / k) + cs@[(n % k) as int]@,
                    Base::Words => self.encode_slots(rest, n / k) + match self.words {
                        Some(w) => w@[(n % k) as int]@,
                        None => Seq::empty(),
                    },
                    Base::NestedBase(m) => self.encode_slots(rest, n / k) + m.encode_slots(
                        m.arrangement(n % k).0,
                        m.arrangement(n % k).1,
                    ),
                }
            }
        }
    }

    /// The string that `encode` writes for `n`.
    pub closed spec fn encode_value(self, n: nat) -> Seq<char> {
        self.encode_slots(self.arrangement(n).0, self.arrangement(n).1)
    }
}

proof fn lemma_occurrences_absent(s: Seq<usize>, e: int)
    requires
        forall|i: int| 0 <= i < s.len() ==> s[i] != e,
    ensures
        occurrences(s, e) == 0,
    decreases s.len(),
{
    if s.len() > 0 {
        lemma_occurrences_absent(s.drop_last(), e);
    }
}

proof fn lemma_occurrences_push(s: Seq<usize>, x: usize, f: int)
    ensures
        occurrences(s.push(x), f) == occurrences(s, f) + if x == f {
            1nat
        } else {
            0nat
        },
{
    assert(s.push(x).drop_last() =~= s);
}

proof fn lemma_occurrences_bound(s: Seq<usize>, e: int)
    ensures
        occurrences(s, e) <= s.len(),
    decreases s.len(),
{
    if s.len() > 0 {
        lemma_occurrences_bound(s.drop_last(), e);
    }
}

proof fn lemma_entries_equiv_prefix(m1: MultiBase, m2: MultiBase, j: nat, k: nat)
    requires
        k <= j,
        entries_equiv(m1, m2, j),
    ensures
        entries_equiv(m1, m2, k),
    decreases j,
{
    if k < j {
        lemma_entries_equiv_prefix(m1, m2, (j - 1) as nat, k);
    }
}

impl MultiBase {
    proof fn lemma_product_agree(a: MultiBase, b: MultiBase, k: nat)
        requires
            k <= a.slots@.len(),
            k <= b.slots@.len(),
            forall|i: int| 0 <= i < k ==> a.slots@[i] == b.slots@[i],
            a.bases@.len() <= b.bases@.len(),
            forall|e: int| 0 <= e < a.bases@.len() ==> a.bases@[e] == b.bases@[e],
            forall|i: int| 0 <= i < k ==> a.slots@[i] < a.bases@.len(),
        ensures
            a.product_upto(k) == b.product_upto(k),
        decreases k,
    {
        if k > 0 {
            MultiBase::lemma_product_agree(a, b, (k - 1) as nat);
        }
    }

    proof fn lemma_divide_agree(a: MultiBase, b: MultiBase, acc: nat, k: nat)
        requires
            a.bases@.len() == b.bases@.len(),
            a.counts@ == b.counts@,
        ensures
            a.divide_by_counts(acc, k) == b.divide_by_counts(acc, k),
        decreases k,
    {
        if k > 0 {
            MultiBase::lemma_divide_agree(a, b, acc, (k - 1) as nat);
        }
    }

    proof fn lemma_nested_agree(a: MultiBase, b: MultiBase, k: nat)
        requires
            k <= a.bases@.len(),
            k <= b.bases@.len(),
            forall|e: int| 0 <= e < k ==> a.bases@[e] == b.bases@[e],
        ensures
            a.nested_wf(k) == b.nested_wf(k),
        decreases k,
    {
        if k > 0 {
            MultiBase::lemma_nested_agree(a, b, (k - 1) as nat);
        }
    }

    proof fn lemma_nested_wf_at(self, k: nat, e: int)
        requires
            self.nested_wf(k),
            0 <= e < k,
        ensures
            base_wf(self.bases@[e].base),
        decreases k,
    {
        if e < k - 1 {
            self.lemma_nested_wf_at((k - 1) as nat, e);
        }
    }

    proof fn lemma_product_positive(self, k: nat)
        requires
            k <= self.slots@.len(),
            forall|i: int| 0 <= i < self.slots@.len() ==> self.slots@[i] < self.bases@.len(),
            forall|e: int| 0 <= e < self.bases@.len() ==> self.bases@[e].length@ >= 1,
        ensures
            self.product_upto(k) >= 1,
        decreases k,
    {
        if k > 0 {
            self.lemma_product_positive((k - 1) as nat);
            let a = self.product_upto((k - 1) as nat);
            let b = self.bases@[self.slots@[k - 1] as int].length@;
            assert(a * b >= 1) by (nonlinear_arith)
                requires
                    a >= 1,
                    b >= 1,
            ;
        }
    }
}

fn strings_eq(a: &Vec<String>, b: &Vec<String>) -> (r: bool)
    ensures
        r == (strings_view(a@) == strings_view(b@)),
{
    if a.len() != b.len() {
        assert(strings_view(a@).len() != strings_view(b@).len());
        return false;
    }
    let mut i: usize = 0;
    while i < a.len()
        invariant
            a@.len() == b@.len(),
            i <= a@.len(),
            forall|j: int| 0 <= j < i ==> a@[j]@ == b@[j]@,
        decreases a@.len() - i,
    {
        if !(a[i] == b[i]) {
            assert(strings_view(a@)[i as int] != strings_view(b@)[i as int]);
            return false;
        }
        i = i + 1;
    }
    assert(strings_view(a@) =~= strings_view(b@));
    true
}

fn words_eq(a: &Option<Vec<String>>, b: &Option<Vec<String>>) -> (r: bool)
    ensures
        r == words_equiv(*a, *b),
{
    match (a, b) {
        (Some(x), Some(y)) => strings_eq(x, y),
        (None, None) => true,
        _ => false,
    }
}

fn slots_eq(a: &Vec<usize>, b: &Vec<usize>) -> (r: bool)
    ensures
        r == (a@ == b@),
{
    if a.len() != b.len() {
        return false;
    }
    let mut i: usize = 0;
    while i < a.len()
        invariant
            a@.len() == b@.len(),
            i <= a@.len(),
            forall|j: int| 0 <= j < i ==> a@[j] == b@[j],
        decreases a@.len() - i,
    {
        if a[i] != b[i] {
            return false;
        }
        i = i + 1;
    }
    assert(a@ =~= b@);
    true
}

fn base_eq(a: &Base, b: &Base) -> (r: bool)
    ensures
        r == base_equiv(*a, *b),
    decreases a,
{
    match (a, b) {
        (Base::Separator(x), Base::Separator(y)) => *x == *y,
        (Base::Choices(x), Base::Choices(y)) => strings_eq(x, y),
        (Base::Words, Base::Words) => true,
        (Base::NestedBase(m1), Base::NestedBase(m2)) => mb_eq(m1, m2),
        _ => false,
    }
}

fn mb_eq(m1: &MultiBase, m2: &MultiBase) -> (r: bool)
    ensures
        r == mb_equiv(*m1, *m2),
    decreases m1,
{
    if !slots_eq(&m1.slots, &m2.slots) || m1.bases.len() != m2.bases.len() {
        return false;
    }
    let mut k: usize = 0;
    while k < m1.bases.len()
        invariant
            m1.bases@.len() == m2.bases@.len(),
            k <= m1.bases@.len(),
            entries_equiv(*m1, *m2, k as nat),
        decreases m1.bases@.len() - k,
    {
        if !base_eq(&m1.bases[k].base, &m2.bases[k].base) {
            proof {
                if entries_equiv(*m1, *m2, m1.bases@.len()) {
                    lemma_entries_equiv_prefix(*m1, *m2, m1.bases@.len(), (k + 1) as nat);
                }
            }
            return false;
        }
        k = k + 1;
    }
    words_eq(&m1.words, &m2.words) && m1.shuffle == m2.shuffle && !m1.length_product.lt(
        &m2.length_product,
    ) && !m2.length_product.lt(&m1.length_product)
}

proof fn lemma_equiv_refl(b: Base)
    ensures
        base_equiv(b, b),
    decreases b,
{
    match b {
        Base::NestedBase(m) => {
            lemma_entries_equiv_refl(m, m.bases@.len());
        },
        _ => {},
    }
}

proof fn lemma_entries_equiv_refl(m: MultiBase, k: nat)
    requires
        k <= m.bases@.len(),
    ensures
        entries_equiv(m, m, k),
    decreases m, k,
{
    if k > 0 {
        lemma_entries_equiv_refl(m, (k - 1) as nat);
        lemma_equiv_refl(m.bases@[k - 1].base);
    }
}


proof fn lemma_equiv_sym(a: Base, b: Base)
    requires
        base_equiv(a, b),
    ensures
        base_equiv(b, a),
    decreases a,
{
    match (a, b) {
        (Base::NestedBase(m1), Base::NestedBase(m2)) => {
            lemma_entries_equiv_sym(m1, m2, m1.bases@.len());
        },
        _ => {},
    }
}

proof fn lemma_entries_equiv_sym(m1: MultiBase, m2: MultiBase, k: nat)
    requires
        entries_equiv(m1, m2, k),
    ensures
        entries_equiv(m2, m1, k),
    decreases m1, k,
{
    if k > 0 {
        lemma_entries_equiv_sym(m1, m2, (k - 1) as nat);
        lemma_equiv_sym(m1.bases@[k - 1].base, m2.bases@[k - 1].base);
    }
}

proof fn lemma_equiv_trans(a: Base, b: Base, c: Base)
    requires
        base_equiv(a, b),
        base_equiv(b, c),
    ensures
        base_equiv(a, c),
    decreases a,
{
    match (a, b, c) {
        (Base::NestedBase(m1), Base::NestedBase(m2), Base::NestedBase(m3)) => {
            lemma_entries_equiv_trans(m1, m2, m3, m1.bases@.len());
        },
        _ => {},
    }
}

proof fn lemma_entries_equiv_trans(m1: MultiBase, m2: MultiBase, m3: MultiBase, k: nat)
    requires
        entries_equiv(m1, m2, k),
        entries_equiv(m2, m3, k),
    ensures
        entries_equiv(m1, m3, k),
    decreases m1, k,
{
    if k > 0 {
        lemma_entries_equiv_trans(m1, m2, m3, (k - 1) as nat);
        lemma_equiv_trans(m1.bases@[k - 1].base, m2.bases@[k - 1].base, m3.bases@[k - 1].base);
    }
}

proof fn lemma_occurrence_witness(s: Seq<usize>, e: int)
    requires
        occurrences(s, e) > 0,
    ensures
        exists|j: int| 0 <= j < s.len() && s[j] == e,
    decreases s.len(),
{
    if s.last() != e {
        lemma_occurrence_witness(s.drop_last(), e);
        let j = choose|j: int| 0 <= j < s.drop_last().len() && s.drop_last()[j] == e;
        assert(s[j] == e);
    } else {
        assert(s[s.len() - 1] == e);
    }
}

proof fn lemma_equiv_card(a: Base, b: Base, w: Option<Vec<String>>)
    requires
        base_equiv(a, b),
    ensures
        base_card(a, w) == base_card(b, w),
{
    match (a, b) {
        (Base::Choices(x), Base::Choices(y)) => {
            assert(strings_view(x@).len() == strings_view(y@).len());
        },
        _ => {},
    }
}

impl MultiBase {
    pub fn new() -> (r: MultiBase)
        ensures
            r.wf(),
            r.n_positions() == 0,
            r.n_entries() == 0,
            r.length() == 1,
            r.word_list() is None,
            !r.shuffled(),
    {
        let r = MultiBase {
            bases: Vec::new(),
            counts: Vec::new(),
            slots: Vec::new(),
            words: None,
            length_product: BigNat::one(),
            shuffle: false,
        };
        assert(r.nested_wf(0));
        r
    }

    pub fn length_product(&self) -> (r: &BigNat)
        ensures
            r@ == self.length(),
    {
        &self.length_product
    }

    pub fn n_bases(&self) -> (r: usize)
        ensures
            r == self.n_positions(),
    {
        self.slots.len()
    }

    pub fn is_shuffled(&self) -> (r: bool)
        ensures
            r == self.shuffled(),
    {
        self.shuffle
    }

    /// Index of the first stored base equal to `base`, or the number of
    /// stored bases.
    fn find_base(&self, base: &Base) -> (r: usize)
        ensures
            r == self.find_entry(*base),
            r <= self.bases@.len(),
            r < self.bases@.len() ==> base_equiv(self.bases@[r as int].base, *base),
            r == self.bases@.len() ==> forall|e: int|
                0 <= e < self.bases@.len() ==> !base_equiv(self.bases@[e].base, *base),
    {
        let mut e: usize = 0;
        while e < self.bases.len()
            invariant
                e <= self.bases@.len(),
                self.find_entry(*base) == self.find_entry_from(*base, e as nat),
                forall|f: int| 0 <= f < e ==> !base_equiv(self.bases@[f].base, *base),
            decreases self.bases@.len() - e,
        {
            if base_eq(&self.bases[e].base, base) {
                return e;
            }
            e = e + 1;
        }
        e
    }

    /// Binds a new last position to `base`; a base equal to one already
    /// stored shares that entry. The cardinality of the space is multiplied
    /// by the base's.
    pub fn add_base(&mut self, base: Base) -> (r: Result<(), PassacreError>)
        requires
            old(self).wf(),
            base_wf(base),
            old(self).n_positions() < usize::MAX,
        ensures
            final(self).wf(),
            r is Err <==> (old(self).shuffled() || base_card(base, old(self).word_list()) == 0),
            r is Err ==> r->Err_0.kind == PassacreErrorKind::UserError && *final(self) == *old(
                self,
            ),
            r is Ok ==> {
                &&& final(self).n_positions() == old(self).n_positions() + 1
                &&& forall|i: int|
                    0 <= i < old(self).n_positions() ==> final(self).position_base(i) == old(
                        self,
                    ).position_base(i) && final(self).entry_of(i) == old(self).entry_of(i)
                &&& base_equiv(final(self).position_base(old(self).n_positions() as int), base)
                &&& base_card(
                    final(self).position_base(old(self).n_positions() as int),
                    old(self).word_list(),
                ) == base_card(base, old(self).word_list())
                &&& final(self).entry_of(old(self).n_positions() as int) == old(self).find_entry(
                    base,
                )
                &&& final(self).length() == old(self).length() * base_card(
                    base,
                    old(self).word_list(),
                )
                &&& final(self).word_list() == old(self).word_list()
                &&& !final(self).shuffled()
                &&& forall|j: int|
                    0 <= j < old(self).n_positions() && base_equiv(
                        old(self).position_base(j),
                        base,
                    ) ==> final(self).entry_of(old(self).n_positions() as int) == old(
                        self,
                    ).entry_of(j)
                &&& (exists|j: int|
                    0 <= j < old(self).n_positions() && base_equiv(
                        old(self).position_base(j),
                        base,
                    )) ==> final(self).n_entries() == old(self).n_entries()
                &&& (forall|j: int|
                    0 <= j < old(self).n_positions() ==> !base_equiv(
                        old(self).position_base(j),
                        base,
                    )) ==> final(self).entry_of(old(self).n_positions() as int) == old(
                    self,
                ).n_entries() && final(self).n_entries() == old(self).n_entries() + 1
            },
    {
        if self.shuffle {
            return Err(PassacreErrorKind::UserError.to_error());
        }
        let length = match &base {
            Base::Separator(_) => BigNat::one(),
            Base::Choices(cs) => BigNat::from_usize(cs.len()),
            Base::Words => match &self.words {
                Some(w) => BigNat::from_usize(w.len()),
                None => {
                    return Err(PassacreErrorKind::UserError.to_error());
                },
            },
            Base::NestedBase(m) => m.length_product.duplicate(),
        };
        let zero = BigNat::from_u64(0);
        if !zero.lt(&length) {
            return Err(PassacreErrorKind::UserError.to_error());
        }
        let ghost old_self = *self;
        let e = self.find_base(&base);
        let n = self.slots.len();
        let length_product = self.length_product.mul(&length);
        let mut bases = Vec::new();
        std::mem::swap(&mut bases, &mut self.bases);
        let mut counts = Vec::new();
        std::mem::swap(&mut counts, &mut self.counts);
        let mut slots = Vec::new();
        std::mem::swap(&mut slots, &mut self.slots);
        let words = self.words.take();
        if e == bases.len() {
            bases.push(BaseInfo { base, length });
            counts.push(1);
        } else {
            proof {
                lemma_occurrences_bound(slots@, e as int);
            }
            let c = counts[e];
            counts.set(e, c + 1);
        }
        slots.push(e);
        *self = MultiBase { bases, counts, slots, words, length_product, shuffle: false };
        proof {
            let new_self = *self;
            assert(new_self.slots@.drop_last() =~= old_self.slots@);
            assert forall|f: int| 0 <= f < new_self.bases@.len() implies new_self.counts@[f]
                == occurrences(new_self.slots@, f) by {
                if f == old_self.bases@.len() {
                    lemma_occurrences_absent(old_self.slots@, f);
                }
            }
            assert forall|f: int| 0 <= f < old_self.bases@.len() implies new_self.bases@[f]
                == old_self.bases@[f] by {}
            assert forall|f: int| 0 <= f < new_self.bases@.len() implies new_self.bases@[f].length@
                == base_card(new_self.bases@[f].base, new_self.words) && new_self.bases@[f].length@
                >= 1 && new_self.counts@[f] >= 1 by {
                if f < old_self.bases@.len() {
                    assert(old_self.bases@[f].length@ >= 1);
                    assert(old_self.counts@[f] >= 1);
                }
            }
            if e < old_self.bases@.len() {
                lemma_equiv_card(old_self.bases@[e as int].base, base, new_self.words);
            }
            assert forall|i: int| 0 <= i < new_self.slots@.len() implies new_self.slots@[i]
                < new_self.bases@.len() by {}
            assert forall|f1: int, f2: int|
                0 <= f1 < f2 < new_self.bases@.len() implies !base_equiv(
                new_self.bases@[f1].base,
                new_self.bases@[f2].base,
            ) by {}
            assert forall|i: int, j: int|
                #![trigger new_self.slots@[i], first_at(new_self.slots@, j)]
                0 <= i < j < new_self.slots@.len() && first_at(
                    new_self.slots@,
                    j,
                ) implies new_self.slots@[i] < new_self.slots@[j] by {
                if j < n {
                    assert forall|k: int| 0 <= k < j implies old_self.slots@[k]
                        != old_self.slots@[j] by {
                        assert(new_self.slots@[k] != new_self.slots@[j]);
                    }
                    assert(first_at(old_self.slots@, j));
                    assert(old_self.slots@[i] < old_self.slots@[j]);
                } else if e < old_self.bases@.len() {
                    lemma_occurrence_witness(old_self.slots@, e as int);
                    let k = choose|k: int| 0 <= k < old_self.slots@.len() && old_self.slots@[k] == e;
                    assert(new_self.slots@[k] == new_self.slots@[j]);
                } else {
                    assert(old_self.slots@[i] < old_self.bases@.len());
                }
            }
            MultiBase::lemma_product_agree(old_self, new_self, n as nat);
            assert(new_self.product_upto(n as nat + 1) == old_self.product_upto(n as nat)
                * length@);
            MultiBase::lemma_nested_agree(old_self, new_self, old_self.bases@.len());
            if e == old_self.bases@.len() {
                assert(new_self.nested_wf(new_self.bases@.len()));
            }
            new_self.lemma_product_positive(new_self.slots@.len());
            assert(new_self.length_product@ >= 1);
            if e == old_self.bases@.len() {
                lemma_equiv_refl(base);
            }
            lemma_equiv_card(new_self.position_base(n as int), base, old_self.words);
            assert forall|i: int| 0 <= i < old_self.slots@.len() implies new_self.position_base(i)
                == old_self.position_base(i) && new_self.entry_of(i) == old_self.entry_of(i) by {
                assert(new_self.slots@[i] == old_self.slots@[i]);
                assert(old_self.slots@[i] < old_self.bases@.len());
            }
            assert forall|j: int|
                0 <= j < n && base_equiv(old_self.position_base(j), base) implies e
                == old_self.slots@[j] by {
                let f = old_self.slots@[j] as int;
                assert(f < old_self.bases@.len());
                if e as int != f {
                    if e < old_self.bases@.len() {
                        let be = old_self.bases@[e as int].base;
                        let bf = old_self.bases@[f].base;
                        if (e as int) < f {
                            lemma_equiv_sym(bf, base);
                            lemma_equiv_trans(be, base, bf);
                        } else {
                            lemma_equiv_sym(be, base);
                            lemma_equiv_trans(bf, base, be);
                        }
                    }
                }
            }
            if e < old_self.bases@.len() {
                lemma_occurrence_witness(old_self.slots@, e as int);
                let w = choose|w: int| 0 <= w < old_self.slots@.len() && old_self.slots@[w] == e;
                assert(base_equiv(old_self.position_base(w), base));
            }
        }
        Ok(())
    }
}

impl MultiBase {
    /// A well-formed encoder addresses at least one value.
    pub proof fn lemma_length_positive(self)
        requires
            self.wf(),
        ensures
            self.length() >= 1,
    {
    }

    /// Some position is bound to stored base `e`.
    pub open spec fn entry_in_use(self, e: int) -> bool {
        exists|i: int| 0 <= i < self.n_positions() && self.entry_of(i) == e
    }

    /// Stored bases are numbered in order of their first positions: every
    /// position's entry is below `n_entries()`, every entry has a position,
    /// and a position whose entry occurs nowhere earlier has a larger entry
    /// than every earlier position.
    pub proof fn lemma_entry_numbering(self)
        requires
            self.wf(),
        ensures
            forall|i: int| 0 <= i < self.n_positions() ==> #[trigger] self.entry_of(i) < self.n_entries(),
            forall|e: int| 0 <= e < self.n_entries() ==> #[trigger] self.entry_in_use(e),
            forall|i: int, j: int|
                #![trigger self.entry_of(i), self.entry_of(j)]
                0 <= i < j < self.n_positions() && (forall|k: int|
                    0 <= k < j ==> self.entry_of(k) != self.entry_of(j)) ==> self.entry_of(i)
                    < self.entry_of(j),
            forall|i: int, j: int|
                0 <= i < self.n_positions() && 0 <= j < self.n_positions() && self.entry_of(i)
                    == self.entry_of(j) ==> #[trigger] self.position_base(i)
                    == #[trigger] self.position_base(j),
    {
        assert forall|e: int| 0 <= e < self.n_entries() implies #[trigger] self.entry_in_use(e) by {
            assert(self.counts@[e] >= 1);
            lemma_occurrence_witness(self.slots@, e);
            let w = choose|w: int| 0 <= w < self.slots@.len() && self.slots@[w] == e;
            assert(self.entry_of(w) == e);
        }
        assert forall|i: int, j: int|
            0 <= i < j < self.n_positions() && (forall|k: int|
                0 <= k < j ==> self.entry_of(k) != self.entry_of(j)) implies self.entry_of(i)
            < self.entry_of(j) by {
            assert forall|k: int| 0 <= k < j implies self.slots@[k] != self.slots@[j] by {
                assert(self.entry_of(k) != self.entry_of(j));
            }
            assert(first_at(self.slots@, j));
            assert(self.slots@[i] < self.slots@[j]);
        }
    }

    /// Binds a new last position to the base of position `index`, sharing it.
    pub fn repeat_base(&mut self, index: usize) -> (r: Result<(), PassacreError>)
        requires
            old(self).wf(),
            old(self).n_positions() < usize::MAX,
        ensures
            final(self).wf(),
            r is Err <==> (old(self).shuffled() || index >= old(self).n_positions()),
            r is Err ==> r->Err_0.kind == PassacreErrorKind::UserError && *final(self) == *old(
                self,
            ),
            r is Ok ==> {
                &&& final(self).n_positions() == old(self).n_positions() + 1
                &&& forall|i: int|
                    0 <= i < old(self).n_positions() ==> final(self).position_base(i) == old(
                        self,
                    ).position_base(i) && final(self).entry_of(i) == old(self).entry_of(i)
                &&& final(self).position_base(old(self).n_positions() as int) == old(
                    self,
                ).position_base(index as int)
                &&& final(self).entry_of(old(self).n_positions() as int) == old(self).entry_of(
                    index as int,
                )
                &&& final(self).n_entries() == old(self).n_entries()
                &&& final(self).length() == old(self).length() * base_card(
                    old(self).position_base(index as int),
                    old(self).word_list(),
                )
                &&& final(self).word_list() == old(self).word_list()
                &&& !final(self).shuffled()
            },
    {
        if self.shuffle || index >= self.slots.len() {
            return Err(PassacreErrorKind::UserError.to_error());
        }
        let ghost old_self = *self;
        let e = self.slots[index];
        let n = self.slots.len();
        let length_product = self.length_product.mul(&self.bases[e].length);
        proof {
            lemma_occurrences_bound(self.slots@, e as int);
        }
        let c = self.counts[e];
        self.counts.set(e, c + 1);
        self.slots.push(e);
        self.length_product = length_product;
        proof {
            let new_self = *self;
            assert(new_self.slots@.drop_last() =~= old_self.slots@);
            assert forall|f: int| 0 <= f < new_self.bases@.len() implies new_self.counts@[f]
                == occurrences(new_self.slots@, f) && new_self.counts@[f] >= 1 by {
                assert(old_self.counts@[f] >= 1);
                assert(old_self.counts@[f] == occurrences(old_self.slots@, f));
                lemma_occurrences_push(old_self.slots@, e, f);

            }
            assert forall|i: int, j: int|
                #![trigger new_self.slots@[i], first_at(new_self.slots@, j)]
                0 <= i < j < new_self.slots@.len() && first_at(
                    new_self.slots@,
                    j,
                ) implies new_self.slots@[i] < new_self.slots@[j] by {
                if j < n {
                    assert forall|k: int| 0 <= k < j implies old_self.slots@[k]
                        != old_self.slots@[j] by {
                        assert(new_self.slots@[k] != new_self.slots@[j]);
                    }
                    assert(first_at(old_self.slots@, j));
                    assert(old_self.slots@[i] < old_self.slots@[j]);
                } else {
                    assert(new_self.slots@[index as int] == new_self.slots@[j]);
                }
            }
            MultiBase::lemma_product_agree(old_self, new_self, n as nat);
            MultiBase::lemma_nested_agree(old_self, new_self, old_self.bases@.len());
            new_self.lemma_product_positive(new_self.slots@.len());
            assert forall|i: int| 0 <= i < old_self.slots@.len() implies new_self.position_base(i)
                == old_self.position_base(i) && new_self.entry_of(i) == old_self.entry_of(i) by {
                assert(new_self.slots@[i] == old_self.slots@[i]);
            }
        }
        Ok(())
    }

    /// Supplies the word list that `Base::Words` draws from; it can be set
    /// once.
    pub fn set_words(&mut self, words: Vec<String>) -> (r: Result<(), PassacreError>)
        requires
            old(self).wf(),
        ensures
            final(self).wf(),
            r is Err <==> old(self).word_list() is Some,
            r is Err ==> r->Err_0.kind == PassacreErrorKind::UserError && *final(self) == *old(
                self,
            ),
            r is Ok ==> {
                &&& final(self).word_list() == Some(words)
                &&& final(self).n_positions() == old(self).n_positions()
                &&& final(self).n_entries() == old(self).n_entries()
                &&& forall|i: int|
                    0 <= i < old(self).n_positions() ==> final(self).position_base(i) == old(
                        self,
                    ).position_base(i) && final(self).entry_of(i) == old(self).entry_of(i)
                &&& final(self).length() == old(self).length()
                &&& final(self).shuffled() == old(self).shuffled()
            },
    {
        if self.words.is_some() {
            return Err(PassacreErrorKind::UserError.to_error());
        }
        let ghost old_self = *self;
        self.words = Some(words);
        proof {
            let new_self = *self;
            assert forall|f: int| 0 <= f < new_self.bases@.len() implies new_self.bases@[f].length@
                == base_card(new_self.bases@[f].base, new_self.words) by {
                assert(old_self.bases@[f].length@ >= 1);
            }
            MultiBase::lemma_product_agree(old_self, new_self, old_self.slots@.len());
            MultiBase::lemma_nested_agree(old_self, new_self, old_self.bases@.len());
            MultiBase::lemma_divide_agree(
                old_self,
                new_self,
                old_self.product_upto(old_self.slots@.len()) * factorial(old_self.slots@.len()),
                old_self.bases@.len(),
            );
        }
        Ok(())
    }

    /// The fewest bytes whose big-endian value can reach `length - 1`.
    pub fn required_bytes(&self) -> (r: u64)
        requires
            self.wf(),
        ensures
            r == (bit_length((self.length() - 1) as nat) + 7) / 8,
    {
        let bits = self.length_product.sub_one().bit_length();
        let r = bits / 8 + if bits % 8 == 0 {
            0
        } else {
            1
        };
        r
    }

    /// The bit length of the size of the addressable space.
    pub fn entropy_bits(&self) -> (r: u64)
        requires
            self.wf(),
        ensures
            r == bit_length(self.length()),
    {
        self.length_product.bit_length()
    }

    fn key_less_exec(&self, a: usize, b: usize) -> (r: bool)
        requires
            self.wf(),
            a < self.bases@.len(),
            b < self.bases@.len(),
        ensures
            r == self.key_less(a, b),
    {
        let ca = self.counts[a];
        let cb = self.counts[b];
        if ca != cb {
            return ca < cb;
        }
        let la = &self.bases[a].length;
        let lb = &self.bases[b].length;
        if la.lt(lb) {
            return true;
        }
        if lb.lt(la) {
            return false;
        }
        a < b
    }

    fn argmin_exec(&self, rest: &Vec<usize>) -> (j: usize)
        requires
            self.wf(),
            rest@.len() >= 1,
            forall|i: int| 0 <= i < rest@.len() ==> rest@[i] < self.bases@.len(),
        ensures
            j as int == self.argmin(rest@),
            j < rest@.len(),
    {
        let mut j: usize = 0;
        let mut k: usize = 1;
        assert(rest@.subrange(0, 1).len() == 1);
        while k < rest.len()
            invariant
                1 <= k <= rest@.len(),
                j < k,
                j as int == self.argmin(rest@.subrange(0, k as int)),
                self.wf(),
                forall|i: int| 0 <= i < rest@.len() ==> rest@[i] < self.bases@.len(),
            decreases rest@.len() - k,
        {
            let ghost sub = rest@.subrange(0, k as int + 1);
            assert(sub.drop_last() =~= rest@.subrange(0, k as int));
            if self.key_less_exec(rest[k], rest[j]) {
                j = k;
            }
            k = k + 1;
        }
        assert(rest@.subrange(0, rest@.len() as int) =~= rest@);
        j
    }

    /// The stored bases in `key_less` order.
    fn selection_order_exec(&self) -> (order: Vec<usize>)
        requires
            self.wf(),
        ensures
            order@ == self.selection_order(indices(self.bases@.len())),
    {
        let mut rest: Vec<usize> = Vec::new();
        let mut i: usize = 0;
        while i < self.bases.len()
            invariant
                i <= self.bases@.len(),
                rest@ =~= indices(i as nat),
            decreases self.bases@.len() - i,
        {
            rest.push(i);
            i = i + 1;
        }
        let ghost all = rest@;
        let mut order: Vec<usize> = Vec::new();
        while rest.len() > 0
            invariant
                self.wf(),
                order@ + self.selection_order(rest@) == self.selection_order(all),
                forall|i: int| 0 <= i < rest@.len() ==> rest@[i] < self.bases@.len(),
            decreases rest@.len(),
        {
            let j = self.argmin_exec(&rest);
            let ghost before = rest@;
            let x = rest.remove(j);
            order.push(x);
            assert(self.selection_order(before) == seq![x] + self.selection_order(rest@));
            assert(order@ + self.selection_order(rest@) =~= (order@.drop_last() + seq![x])
                + self.selection_order(rest@));
        }
        assert(order@ + self.selection_order(rest@) =~= order@);
        order
    }
}

proof fn lemma_binom_zero_row(k: nat)
    ensures
        binom(0, k) == if k == 0 {
            1nat
        } else {
            0nat
        },
{
}

/// `C(n, k)`, row by row of Pascal's triangle.
fn binom_exec(n: usize, k: usize) -> (r: BigNat)
    ensures
        r@ == binom(n as nat, k as nat),
{
    let mut row: Vec<BigNat> = Vec::new();
    row.push(BigNat::one());
    while row.len() <= k
        invariant
            1 <= row@.len() <= k + 1,
            forall|t: int| 0 <= t < row@.len() ==> row@[t]@ == binom(0, t as nat),
        decreases k + 1 - row@.len(),
    {
        proof {
            lemma_binom_zero_row(row@.len() as nat);
        }
        row.push(BigNat::from_u64(0));
    }
    let mut i: usize = 0;
    while i < n
        invariant
            i <= n,
            row@.len() == k + 1,
            forall|t: int| 0 <= t < row@.len() ==> row@[t]@ == binom(i as nat, t as nat),
        decreases n - i,
    {
        let mut next: Vec<BigNat> = Vec::new();
        next.push(BigNat::one());
        while next.len() < row.len()
            invariant
                1 <= next@.len() <= row@.len(),
                row@.len() == k + 1,
                forall|t: int| 0 <= t < row@.len() ==> row@[t]@ == binom(i as nat, t as nat),
                forall|t: int|
                    0 <= t < next@.len() ==> next@[t]@ == binom((i + 1) as nat, t as nat),
            decreases row@.len() - next@.len(),
        {
            let t = next.len();
            next.push(row[t - 1].add(&row[t]));
        }
        row = next;
        i = i + 1;
    }
    row[k].duplicate()
}

/// The `c`-th `k`-element subset of `free`, as `unrank` lists it.
fn unrank_exec(free: &Vec<usize>, k: usize, c: &BigNat, bound: usize) -> (r: Vec<usize>)
    requires
        forall|j: int| 0 <= j < free@.len() ==> free@[j] < bound,
    ensures
        r@ == unrank(free@, k as nat, c@),
        forall|j: int| 0 <= j < r@.len() ==> r@[j] < bound,
{
    let ghost target = unrank(free@, k as nat, c@);
    let mut chosen: Vec<usize> = Vec::new();
    let mut need = k;
    let mut cur = c.duplicate();
    let mut j: usize = 0;
    assert(free@.subrange(0, free@.len() as int) =~= free@);
    while j < free.len() && need > 0
        invariant
            j <= free@.len(),
            need <= k,
            chosen@ + unrank(free@.subrange(j as int, free@.len() as int), need as nat, cur@)
                == target,
            forall|t: int| 0 <= t < chosen@.len() ==> chosen@[t] < bound,
            forall|t: int| 0 <= t < free@.len() ==> free@[t] < bound,
        decreases free@.len() - j,
    {
        let ghost rest = free@.subrange(j as int, free@.len() as int);
        assert(rest.drop_first() =~= free@.subrange(j as int + 1, free@.len() as int));
        let with_first = binom_exec(free.len() - j - 1, need - 1);
        if cur.lt(&with_first) {
            let ghost before = chosen@;
            chosen.push(free[j]);
            need = need - 1;
            assert(chosen@ + unrank(free@.subrange(j as int + 1, free@.len() as int), need as nat, cur@)
                =~= before + (seq![rest[0]] + unrank(rest.drop_first(), need as nat, cur@)));
        } else {
            cur = cur.sub(&with_first);
        }
        j = j + 1;
    }
    assert(unrank(free@.subrange(j as int, free@.len() as int), need as nat, cur@)
        =~= Seq::<usize>::empty());
    assert(chosen@ =~= target);
    chosen
}

fn free_slots_exec(ret: &Vec<Option<usize>>) -> (free: Vec<usize>)
    ensures
        free@ == free_slots(ret@),
        forall|j: int| 0 <= j < free@.len() ==> free@[j] < ret@.len(),
{
    let mut free: Vec<usize> = Vec::new();
    let mut i: usize = 0;
    while i < ret.len()
        invariant
            i <= ret@.len(),
            free@ == free_slots(ret@.subrange(0, i as int)),
            forall|j: int| 0 <= j < free@.len() ==> free@[j] < i,
        decreases ret@.len() - i,
    {
        assert(ret@.subrange(0, i as int + 1).drop_last() =~= ret@.subrange(0, i as int));
        if ret[i].is_none() {
            free.push(i);
        }
        i = i + 1;
    }
    assert(ret@.subrange(0, ret@.len() as int) =~= ret@);
    free
}

/// An index below `bound` held in a `BigNat`, as a `usize`.
fn small_index(d: &BigNat, bound: usize) -> (r: usize)
    requires
        d@ < bound,
    ensures
        r == d@,
{
    match d.to_u64() {
        Some(v) => v as usize,
        None => 0,
    }
}

impl MultiBase {
    fn place_entry_exec(
        ret: &mut Vec<Option<usize>>,
        e: usize,
        count: usize,
        n: BigNat,
    ) -> (r: BigNat)
        ensures
            (final(ret)@, r@) == place_entry(old(ret)@, e, count as nat, n@),
            final(ret)@.len() == old(ret)@.len(),
    {
        let free = free_slots_exec(ret);
        let total = binom_exec(free.len(), count);
        if !BigNat::from_u64(0).lt(&total) {
            return n;
        }
        let (q, c) = n.div_rem(&total);
        let chosen = unrank_exec(&free, count, &c, ret.len());
        let ghost ret0 = ret@;
        let mut t: usize = 0;
        assert(mark(ret0, chosen@.subrange(0, 0), e) =~= ret0);
        while t < chosen.len()
            invariant
                t <= chosen@.len(),
                ret@ == mark(ret0, chosen@.subrange(0, t as int), e),
                ret@.len() == ret0.len(),
                forall|j: int| 0 <= j < chosen@.len() ==> chosen@[j] < ret0.len(),
            decreases chosen@.len() - t,
        {
            let x = chosen[t];
            ret.set(x, Some(e));
            let ghost prefix = chosen@.subrange(0, t as int);
            let ghost longer = chosen@.subrange(0, t as int + 1);
            assert(longer =~= prefix.push(x));
            assert forall|i: int| 0 <= i < ret0.len() implies (#[trigger] chosen_slot(longer, i)
                <==> (chosen_slot(prefix, i) || i == x as int)) by {
                if chosen_slot(longer, i) {
                    let w = choose|w: int| 0 <= w < longer.len() && longer[w] as int == i;
                    if w < prefix.len() {
                        assert(prefix[w] == longer[w]);
                    }
                }
                if chosen_slot(prefix, i) {
                    let w = choose|w: int| 0 <= w < prefix.len() && prefix[w] as int == i;
                    assert(longer[w] == prefix[w]);
                }
                if i == x as int {
                    assert(longer[t as int] == x);
                }
            }
            assert(ret@ =~= mark(ret0, longer, e));
            t = t + 1;
        }
        assert(chosen@.subrange(0, chosen@.len() as int) =~= chosen@);
        q
    }

    fn shuffled_arrangement_exec(&self, n: &BigNat) -> (r: (Vec<usize>, BigNat))
        requires
            self.wf(),
        ensures
            (r.0@, r.1@) == self.shuffled_arrangement(n@),
    {
        let order = self.selection_order_exec();
        if order.len() == 0 {
            return (Vec::new(), n.duplicate());
        }
        let mut ret: Vec<Option<usize>> = Vec::new();
        let mut i: usize = 0;
        while i < self.slots.len()
            invariant
                i <= self.slots@.len(),
                ret@ =~= unassigned(i as nat),
            decreases self.slots@.len() - i,
        {
            ret.push(None);
            i = i + 1;
        }
        let ghost init = ret@;
        let mut cur = n.duplicate();
        let last = order.len() - 1;
        let mut i: usize = 0;
        while i < last
            invariant
                last == order@.len() - 1,
                i <= last,
                (ret@, cur@) == self.place_all(order@.subrange(0, i as int), init, n@),
                self.wf(),
            decreases last - i,
        {
            let ghost sub = order@.subrange(0, i as int + 1);
            assert(sub.drop_last() =~= order@.subrange(0, i as int));
            let e = order[i];
            if e < self.counts.len() {
                cur = MultiBase::place_entry_exec(&mut ret, e, self.counts[e], cur);
            }
            i = i + 1;
        }
        assert(order@.subrange(0, last as int) =~= order@.drop_last());
        let e_last = order[last];
        let mut arr: Vec<usize> = Vec::new();
        let mut i: usize = 0;
        while i < ret.len()
            invariant
                i <= ret@.len(),
                arr@ =~= fill_free(ret@, e_last).subrange(0, i as int),
            decreases ret@.len() - i,
        {
            match ret[i] {
                Some(v) => arr.push(v),
                None => arr.push(e_last),
            }
            i = i + 1;
        }
        assert(arr@ =~= fill_free(ret@, e_last));
        (arr, cur)
    }

    fn arrangement_exec(&self, n: &BigNat) -> (r: (Vec<usize>, BigNat))
        requires
            self.wf(),
        ensures
            (r.0@, r.1@) == self.arrangement(n@),
    {
        if self.shuffle {
            self.shuffled_arrangement_exec(n)
        } else {
            let mut arr: Vec<usize> = Vec::new();
            let mut i: usize = 0;
            while i < self.slots.len()
                invariant
                    i <= self.slots@.len(),
                    arr@ =~= self.slots@.subrange(0, i as int),
                decreases self.slots@.len() - i,
            {
                arr.push(self.slots[i]);
                i = i + 1;
            }
            assert(arr@ =~= self.slots@);
            (arr, n.duplicate())
        }
    }
}

impl MultiBase {
    /// Writes `n` in this encoder's positions: `DomainError` unless
    /// `n < length()`.
    pub fn encode(&self, n: &BigNat) -> (r: Result<String, PassacreError>)
        requires
            self.wf(),
        ensures
            r is Ok <==> n@ < self.length(),
            r matches Ok(s) ==> s@ == self.encode_value(n@),
            r matches Err(e) ==> e.kind == PassacreErrorKind::DomainError,
        decreases self,
    {
        if !n.lt(&self.length_product) {
            return Err(PassacreErrorKind::DomainError.to_error());
        }
        let (arr, rest) = self.arrangement_exec(n);
        let ghost target = self.encode_slots(arr@, rest@);
        let mut cur = rest;
        let mut out = String::new();
        let mut i: usize = arr.len();
        assert(arr@.subrange(0, i as int) =~= arr@);
        while i > 0
            invariant
                i <= arr@.len(),
                self.wf(),
                self.encode_slots(arr@.subrange(0, i as int), cur@) + out@ == target,
            decreases i,
        {
            let ghost sub = arr@.subrange(0, i as int);
            assert(sub.drop_last() =~= arr@.subrange(0, i as int - 1));
            let ghost cur0 = cur@;
            let e = arr[i - 1];
            if e < self.bases.len() {
                let info = &self.bases[e];
                proof {
                    assert(info.length@ >= 1);
                }
                let piece: String = match &info.base {
                    Base::Separator(s) => s.clone(),
                    Base::Choices(cs) => {
                        let (q, d) = cur.div_rem(&info.length);
                        cur = q;
                        cs[small_index(&d, cs.len())].clone()
                    },
                    Base::Words => {
                        let (q, d) = cur.div_rem(&info.length);
                        cur = q;
                        match &self.words {
                            Some(w) => w[small_index(&d, w.len())].clone(),
                            None => String::new(),
                        }
                    },
                    Base::NestedBase(m) => {
                        let (q, d) = cur.div_rem(&info.length);
                        cur = q;
                        proof {
                            self.lemma_nested_wf_at(self.bases@.len(), e as int);
                        }
                        match m.encode(&d) {
                            Ok(t) => t,
                            Err(err) => {
                                return Err(err);
                            },
                        }
                    },
                };
                assert(self.encode_slots(sub, cur0) == self.encode_slots(sub.drop_last(), cur@)
                    + piece@);
                let mut joined = piece;
                joined.append(out.as_str());
                assert(self.encode_slots(sub.drop_last(), cur@) + joined@ =~= self.encode_slots(
                    sub,
                    cur0,
                ) + out@);
                out = joined;
            }
            i = i - 1;
        }
        assert(arr@.subrange(0, 0) =~= Seq::<usize>::empty());
        Ok(out)
    }
}

proof fn lemma_factorial_positive(n: nat)
    ensures
        factorial(n) >= 1,
    decreases n,
{
    if n > 0 {
        lemma_factorial_positive((n - 1) as nat);
        assert(n * factorial((n - 1) as nat) >= 1) by (nonlinear_arith)
            requires
                n >= 1,
                factorial((n - 1) as nat) >= 1,
        ;
    }
}

proof fn lemma_factorial_product(a: nat, b: nat)
    ensures
        factorial(a) * factorial(b) <= factorial(a + b),
    decreases b,
{
    if b > 0 {
        lemma_factorial_product(a, (b - 1) as nat);
        lemma_factorial_positive(a);
        lemma_factorial_positive((b - 1) as nat);
        let fa = factorial(a);
        let fb1 = factorial((b - 1) as nat);
        let fab1 = factorial((a + b - 1) as nat);
        assert(factorial(a + b) == (a + b) * fab1);
        assert(factorial(b) == b * fb1);
        assert(fa * (b * fb1) <= (a + b) * fab1) by (nonlinear_arith)
            requires
                fa * fb1 <= fab1,
                b >= 1,
                fa >= 1,
                fb1 >= 1,
        ;
    } else {
        assert(factorial(0) == 1);
        assert(factorial(a) * 1 == factorial(a));
    }
}

/// The sum over `e < k` of `occurrences(s, e)`.
pub open spec fn occurrences_below(s: Seq<usize>, k: nat) -> nat
    decreases k,
{
    if k == 0 {
        0
    } else {
        occurrences_below(s, (k - 1) as nat) + occurrences(s, k - 1)
    }
}

proof fn lemma_occurrences_below_push(s: Seq<usize>, x: usize, k: nat)
    ensures
        occurrences_below(s.push(x), k) == occurrences_below(s, k) + if x < k {
            1nat
        } else {
            0nat
        },
    decreases k,
{
    if k > 0 {
        lemma_occurrences_below_push(s, x, (k - 1) as nat);
        lemma_occurrences_push(s, x, k - 1);
    }
}

proof fn lemma_occurrences_below_all(s: Seq<usize>, k: nat)
    requires
        forall|i: int| 0 <= i < s.len() ==> s[i] < k,
    ensures
        occurrences_below(s, k) == s.len(),
    decreases s.len(),
{
    if s.len() == 0 {
        lemma_occurrences_below_empty(s, k);
    } else {
        let t = s.drop_last();
        assert(t.push(s.last()) =~= s);
        lemma_occurrences_below_all(t, k);
        lemma_occurrences_below_push(t, s.last(), k);
    }
}

proof fn lemma_occurrences_below_empty(s: Seq<usize>, k: nat)
    requires
        s.len() == 0,
    ensures
        occurrences_below(s, k) == 0,
    decreases k,
{
    if k > 0 {
        lemma_occurrences_below_empty(s, (k - 1) as nat);
    }
}

impl MultiBase {
    /// The product of the factorials of the first `k` position counts.
    closed spec fn count_factorials(self, k: nat) -> nat
        decreases k,
    {
        if k == 0 {
            1
        } else {
            self.count_factorials((k - 1) as nat) * factorial(self.counts@[k - 1] as nat)
        }
    }

    proof fn lemma_count_factorials(self, k: nat)
        requires
            self.wf(),
            k <= self.bases@.len(),
        ensures
            1 <= self.count_factorials(k) <= factorial(occurrences_below(self.slots@, k)),
            self.divide_by_counts(
                self.product_upto(self.slots@.len()) * factorial(self.slots@.len()),
                k,
            ) == (self.product_upto(self.slots@.len()) * factorial(self.slots@.len()))
                / self.count_factorials(k),
        decreases k,
    {
        let acc = self.product_upto(self.slots@.len()) * factorial(self.slots@.len());
        if k > 0 {
            self.lemma_count_factorials((k - 1) as nat);
            let c = self.counts@[k - 1] as nat;
            let prev = self.count_factorials((k - 1) as nat);
            let s = occurrences_below(self.slots@, (k - 1) as nat);
            assert(c == occurrences(self.slots@, k - 1));
            lemma_factorial_positive(c);
            lemma_factorial_product(s, c);
            assert(prev * factorial(c) <= factorial(s) * factorial(c)) by (nonlinear_arith)
                requires
                    prev <= factorial(s),
                    factorial(c) >= 1,
            ;
            assert(prev * factorial(c) >= 1) by (nonlinear_arith)
                requires
                    prev >= 1,
                    factorial(c) >= 1,
            ;
            self.lemma_product_positive(self.slots@.len());
            lemma_factorial_positive(self.slots@.len());
            vstd::arithmetic::div_mod::lemma_div_denominator(acc as int, prev as int, factorial(c) as int);
        } else {
            assert(acc / 1 == acc);
        }
    }

    proof fn lemma_shuffled_length_positive(self)
        requires
            self.wf(),
        ensures
            self.shuffled_length() >= 1,
    {
        let n = self.slots@.len();
        let p = self.product_upto(n);
        self.lemma_product_positive(n);
        self.lemma_count_factorials(self.bases@.len());
        lemma_occurrences_below_all(self.slots@, self.bases@.len());
        let d = self.count_factorials(self.bases@.len());
        let f = factorial(n);
        assert(p * f >= d) by (nonlinear_arith)
            requires
                p >= 1,
                d <= f,
        ;
        vstd::arithmetic::div_mod::lemma_div_is_ordered(d as int, (p * f) as int, d as int);
        vstd::arithmetic::div_mod::lemma_div_by_self(d as int);
    }
}

fn factorial_exec(n: usize) -> (r: BigNat)
    ensures
        r@ == factorial(n as nat),
{
    let mut acc = BigNat::one();
    let mut i: usize = 0;
    while i < n
        invariant
            i <= n,
            acc@ == factorial(i as nat),
        decreases n - i,
    {
        i = i + 1;
        acc = BigNat::from_usize(i).mul(&acc);
    }
    acc
}

impl MultiBase {
    /// Lets positions be permuted: the space grows by the number of distinct
    /// orderings of the positions, and no base can be added afterwards.
    /// Enabling it twice changes nothing.
    pub fn enable_shuffle(&mut self)
        requires
            old(self).wf(),
        ensures
            final(self).wf(),
            final(self).shuffled(),
            old(self).shuffled() ==> *final(self) == *old(self),
            !old(self).shuffled() ==> {
                &&& final(self).length() == old(self).shuffled_length()
                &&& final(self).n_positions() == old(self).n_positions()
                &&& final(self).n_entries() == old(self).n_entries()
                &&& forall|i: int|
                    0 <= i < old(self).n_positions() ==> final(self).position_base(i) == old(
                        self,
                    ).position_base(i) && final(self).entry_of(i) == old(self).entry_of(i)
                &&& final(self).word_list() == old(self).word_list()
            },
    {
        if self.shuffle {
            return;
        }
        let ghost old_self = *self;
        let mut acc = self.length_product.mul(&factorial_exec(self.slots.len()));
        let mut k: usize = 0;
        while k < self.bases.len()
            invariant
                k <= self.bases@.len(),
                *self == old_self,
                self.wf(),
                acc@ == self.divide_by_counts(
                    self.product_upto(self.slots@.len()) * factorial(self.slots@.len()),
                    k as nat,
                ),
            decreases self.bases@.len() - k,
        {
            proof {
                lemma_factorial_positive(self.counts@[k as int] as nat);
            }
            acc = acc.div_rem(&factorial_exec(self.counts[k])).0;
            k = k + 1;
        }
        proof {
            self.lemma_shuffled_length_positive();
        }
        self.length_product = acc;
        self.shuffle = true;
        proof {
            let new_self = *self;
            MultiBase::lemma_product_agree(old_self, new_self, old_self.slots@.len());
            MultiBase::lemma_nested_agree(old_self, new_self, old_self.bases@.len());
            MultiBase::lemma_divide_agree(
                old_self,
                new_self,
                old_self.product_upto(old_self.slots@.len()) * factorial(old_self.slots@.len()),
                old_self.bases@.len(),
            );
        }
    }

    /// `encode` of the big-endian value of `bytes`.
    pub fn encode_from_bytes(&self, bytes: &[u8]) -> (r: Result<String, PassacreError>)
        requires
            self.wf(),
        ensures
            r is Ok <==> be_value(bytes@) < self.length(),
            r matches Ok(s) ==> s@ == self.encode_value(be_value(bytes@)),
            r matches Err(e) ==> e.kind == PassacreErrorKind::DomainError,
    {
        self.encode(&BigNat::from_be_bytes(bytes))
    }
}

/// Pairwise distinct strings, all of one length.
pub open spec fn distinct_same_length(s: Seq<Seq<char>>) -> bool {
    &&& forall|i: int| 0 <= i < s.len() ==> #[trigger] s[i].len() == s[0].len()
    &&& forall|i: int, j: int| 0 <= i < j < s.len() ==> s[i] != s[j]
}

/// Base `b` writes each of its digits with its own string, all of one width
/// (words from `words`); a nested encoder is unshuffled and `fixed_width`.
pub open spec fn base_fixed_width(b: Base, words: Option<Vec<String>>) -> bool
    decreases b,
{
    match b {
        Base::Separator(_) => true,
        Base::Choices(cs) => distinct_same_length(strings_view(cs@)),
        Base::Words => match words {
            Some(w) => distinct_same_length(strings_view(w@)),
            None => true,
        },
        Base::NestedBase(m) => !m.shuffled() && m.fixed_width(),
    }
}

impl MultiBase {
    /// Each base writes each of its digits with its own string, all of one
    /// width; nested encoders are unshuffled and the same holds in them.
    pub closed spec fn fixed_width(self) -> bool
        decreases self, self.n_entries() + 1,
    {
        self.fixed_width_upto(self.bases@.len())
    }

    closed spec fn fixed_width_upto(self, k: nat) -> bool
        decreases self, k,
    {
        if k == 0 {
            true
        } else if k <= self.bases@.len() {
            self.fixed_width_upto((k - 1) as nat) && base_fixed_width(self.bases@[k - 1].base, self.words)
        } else {
            false
        }
    }

    /// The width of what stored base `e` writes.
    closed spec fn digit_width(self, e: int) -> nat
        decreases self, 0nat,
    {
        if 0 <= e < self.bases@.len() {
            match self.bases@[e].base {
                Base::Separator(s) => s@.len(),
                Base::Choices(cs) => cs@[0]@.len(),
                Base::Words => match self.words {
                    Some(w) => w@[0]@.len(),
                    None => 0,
                },
                Base::NestedBase(m) => m.slots_width(m.slots@),
            }
        } else {
            0
        }
    }

    closed spec fn slots_width(self, arr: Seq<usize>) -> nat
        decreases self, arr.len() + 1,
    {
        if arr.len() == 0 {
            0
        } else {
            self.slots_width(arr.drop_last()) + self.digit_width(arr.last() as int)
        }
    }

    proof fn lemma_fixed_width_at(self, k: nat, e: int)
        requires
            self.fixed_width_upto(k),
            0 <= e < k,
        ensures
            base_fixed_width(self.bases@[e].base, self.words),
        decreases k,
    {
        if e < k - 1 {
            self.lemma_fixed_width_at((k - 1) as nat, e);
        }
    }

    /// Under `fixed_width`, the first `j` positions write `slots_width` chars
    /// whatever the value.
    proof fn lemma_encode_width(self, j: nat, n: nat)
        requires
            self.wf(),
            self.fixed_width(),
            j <= self.slots@.len(),
        ensures
            self.encode_slots(self.slots@.subrange(0, j as int), n).len() == self.slots_width(
                self.slots@.subrange(0, j as int),
            ),
        decreases self, j,
    {
        if j > 0 {
            let arr = self.slots@.subrange(0, j as int);
            assert(arr.drop_last() =~= self.slots@.subrange(0, j - 1));
            let e = arr.last() as int;
            assert(e == self.slots@[j - 1]);
            assert(0 <= e < self.bases@.len());
            let k = self.bases@[e].length@;
            assert(self.bases@[e].length@ >= 1);
            self.lemma_fixed_width_at(self.bases@.len(), e);
            assert(self.slots_width(arr) == self.slots_width(arr.drop_last()) + self.digit_width(e));
            match self.bases@[e].base {
                Base::Separator(_) => {
                    self.lemma_encode_width((j - 1) as nat, n);
                },
                Base::NestedBase(m) => {
                    self.lemma_encode_width((j - 1) as nat, n / k);
                    self.lemma_nested_wf_at(self.bases@.len(), e);
                    assert(m.slots@.subrange(0, m.slots@.len() as int) =~= m.slots@);
                    m.lemma_encode_width(m.slots@.len(), n % k);
                    assert(self.encode_slots(arr, n) == self.encode_slots(arr.drop_last(), n / k)
                        + m.encode_slots(m.slots@, n % k));
                },
                Base::Choices(cs) => {
                    self.lemma_encode_width((j - 1) as nat, n / k);
                    let v = strings_view(cs@);
                    assert(v[(n % k) as int].len() == v[0].len());
                },
                Base::Words => {
                    self.lemma_encode_width((j - 1) as nat, n / k);
                    let v = strings_view(self.words->Some_0@);
                    assert(v[(n % k) as int].len() == v[0].len());
                },
            }
        }
    }
}

proof fn lemma_split_concat(x1: Seq<char>, y1: Seq<char>, x2: Seq<char>, y2: Seq<char>)
    requires
        x1 + y1 == x2 + y2,
        x1.len() == x2.len(),
    ensures
        x1 == x2,
        y1 == y2,
{
    assert(x1 =~= (x1 + y1).subrange(0, x1.len() as int));
    assert(x2 =~= (x2 + y2).subrange(0, x2.len() as int));
    assert(y1 =~= (x1 + y1).subrange(x1.len() as int, (x1 + y1).len() as int));
    assert(y2 =~= (x2 + y2).subrange(x2.len() as int, (x2 + y2).len() as int));
}

proof fn lemma_digits_determine(a: nat, b: nat, k: nat, p: nat)
    requires
        k >= 1,
        a < p * k,
        b < p * k,
    ensures
        a / k < p,
        b / k < p,
        a % k < k,
        b % k < k,
        a / k == b / k && a % k == b % k ==> a == b,
{
    vstd::arithmetic::div_mod::lemma_fundamental_div_mod(a as int, k as int);
    vstd::arithmetic::div_mod::lemma_fundamental_div_mod(b as int, k as int);
    vstd::arithmetic::div_mod::lemma_mod_bound(a as int, k as int);
    vstd::arithmetic::div_mod::lemma_mod_bound(b as int, k as int);
    assert(a / k < p) by (nonlinear_arith)
        requires
            k >= 1,
            a < p * k,
            a == k * (a / k) + a % k,
            a % k >= 0,
    ;
    assert(b / k < p) by (nonlinear_arith)
        requires
            k >= 1,
            b < p * k,
            b == k * (b / k) + b % k,
            b % k >= 0,
    ;
}

impl MultiBase {
    proof fn lemma_encode_injective_prefix(self, j: nat, a: nat, b: nat)
        requires
            self.wf(),
            self.fixed_width(),
            j <= self.slots@.len(),
            a < self.product_upto(j),
            b < self.product_upto(j),
            self.encode_slots(self.slots@.subrange(0, j as int), a) == self.encode_slots(
                self.slots@.subrange(0, j as int),
                b,
            ),
        ensures
            a == b,
        decreases self, j,
    {
        if j > 0 {
            let arr = self.slots@.subrange(0, j as int);
            let rest = self.slots@.subrange(0, j - 1);
            assert(arr.drop_last() =~= rest);
            let e = arr.last() as int;
            assert(e == self.slots@[j - 1]);
            let k = self.bases@[e].length@;
            let p = self.product_upto((j - 1) as nat);
            assert(self.product_upto(j) == p * k);
            assert(k >= 1);
            self.lemma_fixed_width_at(self.bases@.len(), e);
            lemma_digits_determine(a, b, k, p);
            match self.bases@[e].base {
                Base::Separator(t) => {
                    assert(k == 1);
                    self.lemma_encode_width((j - 1) as nat, a);
                    self.lemma_encode_width((j - 1) as nat, b);
                    lemma_split_concat(
                        self.encode_slots(rest, a),
                        t@,
                        self.encode_slots(rest, b),
                        t@,
                    );
                    assert(a < p && b < p) by (nonlinear_arith)
                        requires
                            a < p * k,
                            b < p * k,
                            k == 1,
                    ;
                    self.lemma_encode_injective_prefix((j - 1) as nat, a, b);
                },
                Base::Choices(cs) => {
                    self.lemma_encode_width((j - 1) as nat, a / k);
                    self.lemma_encode_width((j - 1) as nat, b / k);
                    lemma_split_concat(
                        self.encode_slots(rest, a / k),
                        cs@[(a % k) as int]@,
                        self.encode_slots(rest, b / k),
                        cs@[(b % k) as int]@,
                    );
                    let v = strings_view(cs@);
                    if a % k != b % k {
                        if a % k < b % k {
                            assert(v[(a % k) as int] != v[(b % k) as int]);
                        } else {
                            assert(v[(b % k) as int] != v[(a % k) as int]);
                        }
                    }
                    self.lemma_encode_injective_prefix((j - 1) as nat, a / k, b / k);
                },
                Base::Words => {
                    let w = self.words->Some_0;
                    self.lemma_encode_width((j - 1) as nat, a / k);
                    self.lemma_encode_width((j - 1) as nat, b / k);
                    lemma_split_concat(
                        self.encode_slots(rest, a / k),
                        w@[(a % k) as int]@,
                        self.encode_slots(rest, b / k),
                        w@[(b % k) as int]@,
                    );
                    let v = strings_view(w@);
                    if a % k != b % k {
                        if a % k < b % k {
                            assert(v[(a % k) as int] != v[(b % k) as int]);
                        } else {
                            assert(v[(b % k) as int] != v[(a % k) as int]);
                        }
                    }
                    self.lemma_encode_injective_prefix((j - 1) as nat, a / k, b / k);
                },
                Base::NestedBase(m) => {
                    self.lemma_nested_wf_at(self.bases@.len(), e);
                    self.lemma_encode_width((j - 1) as nat, a / k);
                    self.lemma_encode_width((j - 1) as nat, b / k);
                    assert(m.slots@.subrange(0, m.slots@.len() as int) =~= m.slots@);
                    lemma_split_concat(
                        self.encode_slots(rest, a / k),
                        m.encode_slots(m.slots@, a % k),
                        self.encode_slots(rest, b / k),
                        m.encode_slots(m.slots@, b % k),
                    );
                    m.lemma_encode_injective_prefix(m.slots@.len(), a % k, b % k);
                    self.lemma_encode_injective_prefix((j - 1) as nat, a / k, b / k);
                },
            }
        }
    }
}

/// Without shuffling, distinct values below `length()` encode to distinct
/// strings, wherever every base writes its digits with distinct strings of
/// one width (and nested encoders are alike and unshuffled).
pub proof fn encode_injective(m: MultiBase, a: nat, b: nat)
    requires
        m.wf(),
        !m.shuffled(),
        m.fixed_width(),
        a < m.length(),
        b < m.length(),
        a != b,
    ensures
        m.encode_value(a) != m.encode_value(b),
{
    assert(m.slots@.subrange(0, m.slots@.len() as int) =~= m.slots@);
    if m.encode_value(a) == m.encode_value(b) {
        m.lemma_encode_injective_prefix(m.slots@.len(), a, b);
    }
}

impl MultiBase {
    proof fn lemma_occurrences_below_lower(self, k: nat, e0: int)
        requires
            self.wf(),
            k <= self.bases@.len(),
            0 <= e0 < self.bases@.len(),
            self.counts@[e0] >= 2,
        ensures
            occurrences_below(self.slots@, k) >= k + if e0 < k {
                1nat
            } else {
                0nat
            },
        decreases k,
    {
        if k > 0 {
            self.lemma_occurrences_below_lower((k - 1) as nat, e0);
            assert(self.counts@[k - 1] >= 1);
        }
    }

    proof fn lemma_divide_by_ones(self, acc: nat, k: nat)
        requires
            k <= self.counts@.len(),
            self.counts@.len() == self.bases@.len(),
            forall|e: int| 0 <= e < k ==> self.counts@[e] == 1,
        ensures
            self.divide_by_counts(acc, k) == acc,
        decreases k,
    {
        if k > 0 {
            self.lemma_divide_by_ones(acc, (k - 1) as nat);
            assert(factorial(0) == 1);
            assert(factorial(1) == 1 * factorial(0));
            assert(self.counts@[k - 1] as nat == 1);
            assert(acc / 1 == acc);
        }
    }
}

/// Where no two positions share a base, shuffling multiplies the size of the
/// space by the number of orderings of the positions.
pub proof fn shuffle_length_of_distinct_bases(m: MultiBase)
    requires
        m.wf(),
        !m.shuffled(),
        m.n_entries() == m.n_positions(),
    ensures
        m.shuffled_length() == m.length() * factorial(m.n_positions()),
{
    lemma_occurrences_below_all(m.slots@, m.bases@.len());
    assert forall|e: int| 0 <= e < m.counts@.len() implies m.counts@[e] == 1 by {
        if m.counts@[e] >= 2 {
            m.lemma_occurrences_below_lower(m.bases@.len(), e);
        }
    }
    m.lemma_divide_by_ones(
        m.product_upto(m.slots@.len()) * factorial(m.slots@.len()),
        m.bases@.len(),
    );
}

/// The digit text of base `b` for digit `d`, given the word list.
pub open spec fn digit_text(b: Base, words: Option<Vec<String>>, d: nat) -> Seq<char> {
    match b {
        Base::Separator(s) => s@,
        Base::Choices(cs) => cs@[d as int]@,
        Base::Words => match words {
            Some(w) => w@[d as int]@,
            None => Seq::empty(),
        },
        Base::NestedBase(m) => m.encode_value(d),
    }
}

/// Without shuffling, the text of the first `k` positions for `n`: the last
/// of them writes digit `n mod c` of its base (`c` its cardinality; a
/// separator takes no digit) and the others write `n / c`.
pub open spec fn encode_positions(m: MultiBase, k: nat, n: nat) -> Seq<char>
    decreases k,
{
    if k == 0 {
        Seq::empty()
    } else {
        let b = m.position_base(k - 1);
        let c = base_card(b, m.word_list());
        match b {
            Base::Separator(_) => encode_positions(m, (k - 1) as nat, n) + digit_text(
                b,
                m.word_list(),
                0,
            ),
            _ => encode_positions(m, (k - 1) as nat, n / c) + digit_text(
                b,
                m.word_list(),
                n % c,
            ),
        }
    }
}

impl MultiBase {
    proof fn lemma_encode_positions_prefix(self, k: nat, n: nat)
        requires
            self.wf(),
            k <= self.slots@.len(),
        ensures
            self.encode_slots(self.slots@.subrange(0, k as int), n) == encode_positions(self, k, n),
        decreases k,
    {
        if k > 0 {
            let arr = self.slots@.subrange(0, k as int);
            assert(arr.drop_last() =~= self.slots@.subrange(0, k - 1));
            let e = self.slots@[k - 1] as int;
            assert(e < self.bases@.len());
            assert(self.bases@[e].length@ == base_card(self.bases@[e].base, self.words));
            match self.bases@[e].base {
                Base::Separator(_) => self.lemma_encode_positions_prefix((k - 1) as nat, n),
                _ => self.lemma_encode_positions_prefix(
                    (k - 1) as nat,
                    n / self.bases@[e].length@,
                ),
            }
        }
    }

    /// Without shuffling, `encode_value` writes the positions in order, as
    /// `encode_positions` says.
    pub proof fn lemma_encode_unshuffled(self, n: nat)
        requires
            self.wf(),
            !self.shuffled(),
        ensures
            self.encode_value(n) == encode_positions(self, self.n_positions(), n),
    {
        assert(self.slots@.subrange(0, self.slots@.len() as int) =~= self.slots@);
        self.lemma_encode_positions_prefix(self.slots@.len(), n);
    }
}

impl MultiBase {
    proof fn lemma_fixed_width_upto_intro(self, k: nat)
        requires
            self.wf(),
            k <= self.bases@.len(),
            forall|i: int|
                0 <= i < self.n_positions() ==> base_fixed_width(
                    #[trigger] self.position_base(i),
                    self.word_list(),
                ),
        ensures
            self.fixed_width_upto(k),
        decreases k,
    {
        if k > 0 {
            self.lemma_fixed_width_upto_intro((k - 1) as nat);
            let e = k - 1;
            assert(self.counts@[e] >= 1);
            lemma_occurrence_witness(self.slots@, e);
            let w = choose|w: int| 0 <= w < self.slots@.len() && self.slots@[w] == e;
            assert(base_fixed_width(self.position_base(w), self.word_list()));
        }
    }

    /// `fixed_width` holds where the base of every position writes distinct
    /// strings of one width.
    pub proof fn lemma_fixed_width_intro(self)
        requires
            self.wf(),
            forall|i: int|
                0 <= i < self.n_positions() ==> base_fixed_width(
                    #[trigger] self.position_base(i),
                    self.word_list(),
                ),
        ensures
            self.fixed_width(),
    {
        self.lemma_fixed_width_upto_intro(self.bases@.len());
    }
}

proof fn lemma_unrank_elements(free: Seq<usize>, k: nat, c: nat)
    ensures
        forall|t: int|
            0 <= t < unrank(free, k, c).len() ==> exists|w: int|
                0 <= w < free.len() && free[w] == #[trigger] unrank(free, k, c)[t],
    decreases free.len(),
{
    if free.len() > 0 && k > 0 {
        let with_first = binom((free.len() - 1) as nat, (k - 1) as nat);
        let rest = free.drop_first();
        if c < with_first {
            lemma_unrank_elements(rest, (k - 1) as nat, c);
            let u = unrank(free, k, c);
            assert forall|t: int| 0 <= t < u.len() implies exists|w: int|
                0 <= w < free.len() && free[w] == #[trigger] u[t] by {
                if t == 0 {
                    assert(free[0] == u[0]);
                } else {
                    let v = unrank(rest, (k - 1) as nat, c);
                    assert(u[t] == v[t - 1]);
                    let w = choose|w: int| 0 <= w < rest.len() && rest[w] == v[t - 1];
                    assert(free[w + 1] == u[t]);
                }
            }
        } else {
            lemma_unrank_elements(rest, k, (c - with_first) as nat);
            let u = unrank(free, k, c);
            assert forall|t: int| 0 <= t < u.len() implies exists|w: int|
                0 <= w < free.len() && free[w] == #[trigger] u[t] by {
                let v = unrank(rest, k, (c - with_first) as nat);
                assert(u[t] == v[t]);
                let w = choose|w: int| 0 <= w < rest.len() && rest[w] == v[t];
                assert(free[w + 1] == u[t]);
            }
        }
    }
}

/// Distinct indices below `C(f, k)` choose distinct sets of slots from `f`
/// distinct free slots: a base placed by shuffling loses no part of the
/// value to the order of its positions.
pub proof fn unrank_injective(free: Seq<usize>, k: nat, c1: nat, c2: nat)
    requires
        forall|i: int, j: int| 0 <= i < j < free.len() ==> free[i] != free[j],
        c1 < binom(free.len(), k),
        c2 < binom(free.len(), k),
        c1 != c2,
    ensures
        exists|x: int|
            chosen_slot(unrank(free, k, c1), x) != chosen_slot(unrank(free, k, c2), x),
    decreases free.len(),
{
    let with_first = binom((free.len() - 1) as nat, (k - 1) as nat);
    let rest = free.drop_first();
    assert forall|i: int, j: int| 0 <= i < j < rest.len() implies rest[i] != rest[j] by {
        assert(rest[i] == free[i + 1] && rest[j] == free[j + 1]);
    }
    let u1 = unrank(free, k, c1);
    let u2 = unrank(free, k, c2);
    if c1 < with_first && c2 < with_first {
        unrank_injective(rest, (k - 1) as nat, c1, c2);
        let v1 = unrank(rest, (k - 1) as nat, c1);
        let v2 = unrank(rest, (k - 1) as nat, c2);
        let x = choose|x: int| chosen_slot(v1, x) != chosen_slot(v2, x);
        lemma_unrank_elements(rest, (k - 1) as nat, c1);
        lemma_unrank_elements(rest, (k - 1) as nat, c2);
        lemma_chosen_cons(free[0], v1, x);
        lemma_chosen_cons(free[0], v2, x);
        if x == free[0] as int {
            if chosen_slot(v1, x) {
                let w = choose|w: int| 0 <= w < v1.len() && v1[w] as int == x;
                let z = choose|z: int| 0 <= z < rest.len() && rest[z] == #[trigger] v1[w];
                assert(free[z + 1] == free[0]);
            } else {
                let w = choose|w: int| 0 <= w < v2.len() && v2[w] as int == x;
                let z = choose|z: int| 0 <= z < rest.len() && rest[z] == #[trigger] v2[w];
                assert(free[z + 1] == free[0]);
            }
        }
        assert(u1 == seq![free[0]] + v1);
        assert(u2 == seq![free[0]] + v2);
        assert(chosen_slot(u1, x) != chosen_slot(u2, x));
    } else if c1 >= with_first && c2 >= with_first {
        unrank_injective(rest, k, (c1 - with_first) as nat, (c2 - with_first) as nat);
    } else {
        let (a, b) = if c1 < with_first {
            (c1, c2)
        } else {
            (c2, c1)
        };
        let ua = unrank(free, k, a);
        let ub = unrank(free, k, b);
        let vb = unrank(rest, k, (b - with_first) as nat);
        assert(ub == vb);
        assert(ua[0] == free[0]);
        assert(chosen_slot(ua, free[0] as int));
        lemma_unrank_elements(rest, k, (b - with_first) as nat);
        if chosen_slot(ub, free[0] as int) {
            let w = choose|w: int| 0 <= w < ub.len() && ub[w] as int == free[0] as int;
            let z = choose|z: int| 0 <= z < rest.len() && rest[z] == #[trigger] vb[w];
            assert(free[z + 1] == free[0]);
        }
        assert(chosen_slot(ua, free[0] as int) != chosen_slot(ub, free[0] as int));
    }
}

proof fn lemma_chosen_cons(x: usize, v: Seq<usize>, i: int)
    ensures
        chosen_slot(seq![x] + v, i) == (i == x as int || chosen_slot(v, i)),
{
    let u = seq![x] + v;
    if chosen_slot(u, i) && i != x as int {
        let w = choose|w: int| 0 <= w < u.len() && u[w] as int == i;
        assert(v[w - 1] == u[w]);
    }
    if chosen_slot(v, i) {
        let w = choose|w: int| 0 <= w < v.len() && v[w] as int == i;
        assert(u[w + 1] == v[w]);
    }
    if i == x as int {
        assert(u[0] == x);
    }
}

pub open spec fn distinct_seq(s: Seq<usize>) -> bool {
    forall|i: int, j: int| 0 <= i < j < s.len() ==> s[i] != s[j]
}

/// Every assigned slot of `ret` holds a stored base listed in `o`.
pub open spec fn placed_from(ret: Seq<Option<usize>>, o: Seq<usize>) -> bool {
    forall|i: int|
        0 <= i < ret.len() && #[trigger] ret[i] is Some ==> exists|w: int|
            0 <= w < o.len() && o[w] == ret[i]->Some_0
}

/// `ret` with the slots of stored base `e` unassigned again.
pub open spec fn unmark(ret: Seq<Option<usize>>, e: usize) -> Seq<Option<usize>> {
    Seq::new(
        ret.len(),
        |i: int|
            if ret[i] == Some(e) {
                None
            } else {
                ret[i]
            },
    )
}

proof fn lemma_free_slots_props(ret: Seq<Option<usize>>)
    requires
        ret.len() <= usize::MAX,
    ensures
        forall|w: int|
            0 <= w < free_slots(ret).len() ==> #[trigger] free_slots(ret)[w] < ret.len()
                && ret[free_slots(ret)[w] as int] is None,
        distinct_seq(free_slots(ret)),
    decreases ret.len(),
{
    if ret.len() > 0 {
        let d = ret.drop_last();
        lemma_free_slots_props(d);
        let f = free_slots(d);
        assert forall|w: int| 0 <= w < f.len() implies ret[f[w] as int] == d[f[w] as int] by {}
        if ret.last() is None {
            let g = f.push((ret.len() - 1) as usize);
            assert(g[g.len() - 1] as int == ret.len() - 1);
            assert forall|i: int, j: int| 0 <= i < j < g.len() implies g[i] != g[j] by {
                if j == g.len() - 1 {
                    assert(f[i] < d.len());
                } else {
                    assert(g[i] == f[i] && g[j] == f[j]);
                }
            }
            assert forall|w: int| 0 <= w < g.len() implies #[trigger] g[w] < ret.len()
                && ret[g[w] as int] is None by {
                if w < f.len() {
                    assert(g[w] == f[w]);
                }
            }
        }
    }
}

proof fn lemma_selection_order_distinct(m: MultiBase, rest: Seq<usize>)
    requires
        distinct_seq(rest),
    ensures
        distinct_seq(m.selection_order(rest)),
        forall|t: int|
            0 <= t < m.selection_order(rest).len() ==> exists|w: int|
                0 <= w < rest.len() && rest[w] == #[trigger] m.selection_order(rest)[t],
    decreases rest.len(),
{
    let j = m.argmin(rest);
    if rest.len() > 0 && 0 <= j < rest.len() {
        let r2 = rest.remove(j);
        assert forall|a: int, b: int| 0 <= a < b < r2.len() implies r2[a] != r2[b] by {
            let ia = if a < j { a } else { a + 1 };
            let ib = if b < j { b } else { b + 1 };
            assert(r2[a] == rest[ia] && r2[b] == rest[ib]);
        }
        lemma_selection_order_distinct(m, r2);
        let tail = m.selection_order(r2);
        let so = m.selection_order(rest);
        assert(so == seq![rest[j]] + tail);
        assert forall|t: int| 0 <= t < tail.len() implies #[trigger] tail[t] != rest[j] && exists|w: int|
            0 <= w < rest.len() && rest[w] == tail[t] by {
            let w = choose|w: int| 0 <= w < r2.len() && r2[w] == tail[t];
            let iw = if w < j { w } else { w + 1 };
            assert(r2[w] == rest[iw]);
        }
        assert forall|a: int, b: int| 0 <= a < b < so.len() implies so[a] != so[b] by {
            if a == 0 {
                assert(so[b] == tail[b - 1]);
            } else {
                assert(so[a] == tail[a - 1] && so[b] == tail[b - 1]);
            }
        }
        assert forall|t: int| 0 <= t < so.len() implies exists|w: int|
            0 <= w < rest.len() && rest[w] == #[trigger] so[t] by {
            if t == 0 {
                assert(rest[j] == so[0]);
            } else {
                assert(so[t] == tail[t - 1]);
            }
        }
    }
}

impl MultiBase {
    proof fn lemma_place_all_shape(self, o: Seq<usize>, n: nat)
        ensures
            self.place_all(o, unassigned(self.slots@.len()), n).0.len() == self.slots@.len(),
            placed_from(self.place_all(o, unassigned(self.slots@.len()), n).0, o),
        decreases o.len(),
    {
        let ret0 = unassigned(self.slots@.len());
        if o.len() > 0 {
            let o2 = o.drop_last();
            self.lemma_place_all_shape(o2, n);
            let (r2, n2) = self.place_all(o2, ret0, n);
            let e = o.last();
            let r = self.place_all(o, ret0, n).0;
            assert forall|i: int|
                0 <= i < r.len() && #[trigger] r[i] is Some implies exists|w: int|
                    0 <= w < o.len() && o[w] == r[i]->Some_0 by {
                if r[i] == Some(e) {
                    assert(o[o.len() - 1] == e);
                } else {
                    assert(r[i] == r2[i]);
                    let w = choose|w: int| 0 <= w < o2.len() && o2[w] == r2[i]->Some_0;
                    assert(o[w] == o2[w]);
                }
            }
        }
    }

    proof fn lemma_place_all_injective(self, o: Seq<usize>, a: nat, b: nat)
        requires
            distinct_seq(o),
            self.slots@.len() <= usize::MAX,
            self.place_all(o, unassigned(self.slots@.len()), a) == self.place_all(
                o,
                unassigned(self.slots@.len()),
                b,
            ),
        ensures
            a == b,
        decreases o.len(),
    {
        let ret0 = unassigned(self.slots@.len());
        if o.len() > 0 {
            let o2 = o.drop_last();
            assert forall|i: int, j: int| 0 <= i < j < o2.len() implies o2[i] != o2[j] by {
                assert(o2[i] == o[i] && o2[j] == o[j]);
            }
            let (ra, qa) = self.place_all(o2, ret0, a);
            let (rb, qb) = self.place_all(o2, ret0, b);
            let e = o.last();
            if e < self.counts@.len() {
                let k = self.counts@[e as int] as nat;
                self.lemma_place_all_shape(o2, a);
                self.lemma_place_all_shape(o2, b);
                let ra_out = place_entry(ra, e, k, qa);
                let rb_out = place_entry(rb, e, k, qb);
                self.unmark_recovers(ra, e, k, qa, o2);
                self.unmark_recovers(rb, e, k, qb, o2);
                assert(ra =~= rb);
                let free = free_slots(ra);
                let total = binom(free.len(), k);
                if total > 0 {
                    let ca = qa % total;
                    let cb = qb % total;
                    if ca != cb {
                        lemma_free_slots_props(ra);
                        unrank_injective(free, k, ca, cb);
                        let x = choose|x: int|
                            chosen_slot(unrank(free, k, ca), x) != chosen_slot(
                                unrank(free, k, cb),
                                x,
                            );
                        lemma_unrank_slots_free(ra, k, ca);
                        lemma_unrank_slots_free(ra, k, cb);
                        assert(0 <= x < ra.len());
                        assert(ra_out.0[x] != rb_out.0[x]);
                    }
                    vstd::arithmetic::div_mod::lemma_fundamental_div_mod(qa as int, total as int);
                    vstd::arithmetic::div_mod::lemma_fundamental_div_mod(qb as int, total as int);
                }
                self.lemma_place_all_injective(o2, a, b);
            } else {
                self.lemma_place_all_injective(o2, a, b);
            }
        }
    }

    /// Placing stored base `e`, which no slot holds yet, only fills free
    /// slots with it, so unmarking it gives back the slots before.
    proof fn unmark_recovers(self, r: Seq<Option<usize>>, e: usize, k: nat, q: nat, o2: Seq<usize>)
        requires
            placed_from(r, o2),
            forall|w: int| 0 <= w < o2.len() ==> o2[w] != e,
            r.len() <= usize::MAX,
        ensures
            unmark(place_entry(r, e, k, q).0, e) =~= r,
    {
        let out = place_entry(r, e, k, q).0;
        lemma_free_slots_props(r);
        assert forall|i: int| 0 <= i < r.len() implies r[i] != Some(e) by {
            if r[i] is Some {
                let w = choose|w: int| 0 <= w < o2.len() && o2[w] == r[i]->Some_0;
            }
        }
        let free = free_slots(r);
        let total = binom(free.len(), k);
        if total > 0 {
            lemma_unrank_slots_free(r, k, q % total);
        }
    }
}

proof fn lemma_unrank_slots_free(ret: Seq<Option<usize>>, k: nat, c: nat)
    requires
        ret.len() <= usize::MAX,
    ensures
        forall|x: int|
            #[trigger] chosen_slot(unrank(free_slots(ret), k, c), x) ==> 0 <= x < ret.len()
                && ret[x] is None,
{
    let free = free_slots(ret);
    let u = unrank(free, k, c);
    lemma_free_slots_props(ret);
    lemma_unrank_elements(free, k, c);
    assert forall|x: int| #[trigger] chosen_slot(u, x) implies 0 <= x < ret.len() && ret[x] is None by {
        let w = choose|w: int| 0 <= w < u.len() && u[w] as int == x;
        let z = choose|z: int| 0 <= z < free.len() && free[z] == #[trigger] u[w];
        assert(free[z] < ret.len());
    }
}

/// Shuffling decomposes a value without loss: distinct values give
/// distinct pairs of arrangement (the stored base of each position) and
/// remaining value for the digits.
pub proof fn shuffle_decomposition_injective(m: MultiBase, a: nat, b: nat)
    requires
        m.wf(),
        m.shuffled(),
        a != b,
    ensures
        m.arrangement(a) != m.arrangement(b),
{
    let order = m.selection_order(indices(m.bases@.len()));
    let idx = indices(m.bases@.len());
    assert forall|i: int, j: int| 0 <= i < j < idx.len() implies idx[i] != idx[j] by {
        assert(idx[i] as int == i && idx[j] as int == j);
    }
    lemma_selection_order_distinct(m, idx);
    if order.len() > 0 && m.arrangement(a) == m.arrangement(b) {
        let o = order.drop_last();
        let last = order.last();
        assert forall|i: int, j: int| 0 <= i < j < o.len() implies o[i] != o[j] by {
            assert(o[i] == order[i] && o[j] == order[j]);
        }
        assert forall|w: int| 0 <= w < o.len() implies o[w] != last by {
            assert(o[w] == order[w]);
        }
        let ret0 = unassigned(m.slots@.len());
        m.lemma_place_all_shape(o, a);
        m.lemma_place_all_shape(o, b);
        let (ra, qa) = m.place_all(o, ret0, a);
        let (rb, qb) = m.place_all(o, ret0, b);
        let fa = fill_free(ra, last);
        let fb = fill_free(rb, last);
        assert(fa == fb);
        assert forall|i: int| 0 <= i < ra.len() implies ra[i] == rb[i] by {
            assert(fa[i] == fb[i]);
            if ra[i] is Some {
                let w = choose|w: int| 0 <= w < o.len() && o[w] == ra[i]->Some_0;
            }
            if rb[i] is Some {
                let w = choose|w: int| 0 <= w < o.len() && o[w] == rb[i]->Some_0;
            }
        }
        assert(ra =~= rb);
        m.lemma_place_all_injective(o, a, b);
    }
}

} // verus!
