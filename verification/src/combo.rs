//! Model of combination enumeration, and the trusted entry points into the
//! `combination` crate that performs it at run time.

use vstd::prelude::*;

verus! {

/// Number of `k`-element subsets of an `n`-element set (Pascal's rule).
pub open spec fn binom(n: nat, k: nat) -> nat
    decreases n,
{
    if k == 0 {
        1
    } else if n == 0 {
        0
    } else {
        binom((n - 1) as nat, (k - 1) as nat) + binom((n - 1) as nat, k)
    }
}

/// All `k`-element subsets of `lo..n`, each listed in ascending order, in
/// lexicographic order of the ascending listings.
pub open spec fn combos_from(lo: int, n: int, k: nat) -> Seq<Seq<int>>
    decreases n - lo, k,
{
    if k == 0 {
        seq![Seq::<int>::empty()]
    } else if n - lo < k {
        Seq::<Seq<int>>::empty()
    } else {
        combos_from(lo + 1, n, (k - 1) as nat).map_values(|s: Seq<int>| seq![lo] + s)
            + combos_from(lo + 1, n, k)
    }
}

/// The exact sequence the `combination` crate's index enumeration returns:
/// no combination at all for `k == 0`, otherwise the lexicographic listing.
pub open spec fn combo_index_seq(n: int, k: nat) -> Seq<Seq<int>> {
    if k == 0 {
        Seq::<Seq<int>>::empty()
    } else {
        combos_from(0, n, k)
    }
}

pub open spec fn seq_as_ints(s: Seq<usize>) -> Seq<int> {
    s.map_values(|x: usize| x as int)
}

pub open spec fn seqs_as_ints(a: Seq<Seq<usize>>) -> Seq<Seq<int>> {
    a.map_values(|s: Seq<usize>| seq_as_ints(s))
}

/// Selection of values: element `i` of the result is `vals[idxs[i]]`.
pub open spec fn select_values(vals: Seq<u8>, idxs: Seq<int>) -> Seq<u8> {
    idxs.map_values(|i: int| vals[i])
}

/// What the `combination` crate returns when asked for the `k`-element
/// combinations of the values of `vals`: each index combination, mapped to
/// the values it selects.
pub open spec fn combo_select_seq(vals: Seq<u8>, k: nat) -> Seq<Seq<u8>> {
    combo_index_seq(vals.len() as int, k).map_values(|idxs: Seq<int>| select_values(vals, idxs))
}

/// Relies on `combination::combine::index`: it returns every `k`-element
/// combination of `0..n`, each ascending, in lexicographic order, and
/// nothing at all when `k == 0`.
#[verifier::external_body]
pub(crate) fn combo_index(n: usize, k: usize) -> (r: Vec<Vec<usize>>)
    ensures
        seqs_as_ints(r.deep_view()) == combo_index_seq(n as int, k as nat),
{
    combination::combine::index(n, k)
}

/// Relies on `combination::combine::from_vec_at`: it maps each combination
/// of the index enumeration for `vals.len()` to the values it selects.
#[verifier::external_body]
pub(crate) fn combo_select(vals: &Vec<u8>, k: usize) -> (r: Vec<Vec<u8>>)
    ensures
        r.deep_view() == combo_select_seq(vals@, k as nat),
{
    combination::combine::from_vec_at(vals, k)
}

/// Unpacks an equality between a lifted sequence of sequences and its model
/// into elementwise facts.
pub proof fn lemma_seqs_as_ints_eq(a: Seq<Seq<usize>>, b: Seq<Seq<int>>)
    requires
        seqs_as_ints(a) == b,
    ensures
        a.len() == b.len(),
        forall|i: int| 0 <= i < a.len() ==> (#[trigger] a[i]).len() == b[i].len(),
        forall|i: int, j: int|
            0 <= i < a.len() && 0 <= j < a[i].len() ==> #[trigger] a[i][j] == b[i][j],
{
    assert(seqs_as_ints(a).len() == a.len());
    assert forall|i: int| 0 <= i < a.len() implies (#[trigger] a[i]).len() == b[i].len() by {
        assert(seqs_as_ints(a)[i] == seq_as_ints(a[i]));
    }
    assert forall|i: int, j: int|
        0 <= i < a.len() && 0 <= j < a[i].len() implies #[trigger] a[i][j] == b[i][j] by {
        assert(seqs_as_ints(a)[i] == seq_as_ints(a[i]));
        assert(seq_as_ints(a[i])[j] == a[i][j] as int);
    }
}

pub proof fn lemma_binom_empty(n: nat, k: nat)
    requires
        n < k,
    ensures
        binom(n, k) == 0,
    decreases n,
{
    if n > 0 {
        lemma_binom_empty((n - 1) as nat, (k - 1) as nat);
        lemma_binom_empty((n - 1) as nat, k);
    }
}

pub proof fn lemma_combos_len(lo: int, n: int, k: nat)
    requires
        lo <= n,
    ensures
        combos_from(lo, n, k).len() == binom((n - lo) as nat, k),
    decreases n - lo, k,
{
    if k == 0 {
    } else if n - lo < k {
        lemma_binom_empty((n - lo) as nat, k);
    } else {
        lemma_combos_len(lo + 1, n, (k - 1) as nat);
        lemma_combos_len(lo + 1, n, k);
    }
}

/// One listed combination is well formed: `k` strictly ascending elements,
/// all drawn from `lo..n`.
pub open spec fn combo_ok(s: Seq<int>, lo: int, n: int, k: nat) -> bool {
    s.len() == k
    && (forall|j: int| 0 <= j < s.len() ==> lo <= #[trigger] s[j] < n)
    && (forall|j1: int, j2: int| 0 <= j1 < j2 < s.len() ==> #[trigger] s[j1] < #[trigger] s[j2])
}

pub proof fn lemma_combos_shape(lo: int, n: int, k: nat)
    ensures
        forall|i: int|
            0 <= i < combos_from(lo, n, k).len()
                ==> combo_ok(#[trigger] combos_from(lo, n, k)[i], lo, n, k),
    decreases n - lo, k,
{
    if k == 0 {
        assert(combo_ok(combos_from(lo, n, k)[0], lo, n, k));
    } else if n - lo < k {
    } else {
        lemma_combos_shape(lo + 1, n, (k - 1) as nat);
        lemma_combos_shape(lo + 1, n, k);
        let a0 = combos_from(lo + 1, n, (k - 1) as nat);
        let a = a0.map_values(|s: Seq<int>| seq![lo] + s);
        let b = combos_from(lo + 1, n, k);
        assert(combos_from(lo, n, k) == a + b);
        assert forall|i: int|
            0 <= i < combos_from(lo, n, k).len()
                implies combo_ok(#[trigger] combos_from(lo, n, k)[i], lo, n, k) by {
            if i < a.len() {
                let s0 = a0[i];
                assert(combo_ok(s0, lo + 1, n, (k - 1) as nat));
                let s = seq![lo] + s0;
                assert(combos_from(lo, n, k)[i] == s);
                assert(s.len() == k);
                assert(s[0] == lo);
                assert(forall|j: int| 1 <= j < s.len() ==> #[trigger] s[j] == s0[j - 1]);
                assert(forall|j: int| 0 <= j < s.len() ==> lo <= #[trigger] s[j] < n);
                assert(forall|j1: int, j2: int|
                    0 <= j1 < j2 < s.len() ==> #[trigger] s[j1] < #[trigger] s[j2]);
            } else {
                let s = b[i - a.len()];
                assert(combos_from(lo, n, k)[i] == s);
                assert(combo_ok(s, lo + 1, n, k));
            }
        }
    }
}

/// The ascending listing of all of `lo..n`.
pub open spec fn id_seq(lo: int, n: int) -> Seq<int> {
    Seq::new((n - lo) as nat, |i: int| lo + i)
}

pub proof fn lemma_combos_full(lo: int, n: int)
    requires
        lo <= n,
    ensures
        combos_from(lo, n, (n - lo) as nat) == seq![id_seq(lo, n)],
    decreases n - lo,
{
    if n == lo {
        assert(id_seq(lo, n) =~= Seq::<int>::empty());
        assert(combos_from(lo, n, 0) =~= seq![id_seq(lo, n)]);
    } else {
        lemma_combos_full(lo + 1, n);
        let k = (n - lo) as nat;
        let a0 = combos_from(lo + 1, n, (k - 1) as nat);
        let a = a0.map_values(|s: Seq<int>| seq![lo] + s);
        let b = combos_from(lo + 1, n, k);
        assert(b =~= Seq::<Seq<int>>::empty());
        assert(combos_from(lo, n, k) == a + b);
        assert(a0 == seq![id_seq(lo + 1, n)]);
        assert(a[0] == seq![lo] + id_seq(lo + 1, n));
        assert(seq![lo] + id_seq(lo + 1, n) =~= id_seq(lo, n));
        assert(combos_from(lo, n, k) =~= seq![id_seq(lo, n)]);
    }
}

/// The ascending listing of `lo..n` with the member `m` left out.
pub open spec fn omit_seq(lo: int, n: int, m: int) -> Seq<int> {
    Seq::new((n - lo - 1) as nat, |i: int| if lo + i < m { lo + i } else { lo + i + 1 })
}

/// Choosing all but one element of `lo..n` leaves out exactly one member;
/// the lexicographic listing leaves out `n - 1` first and `lo` last.
pub proof fn lemma_combos_omit(lo: int, n: int)
    requires
        lo < n,
    ensures
        combos_from(lo, n, (n - lo - 1) as nat).len() == n - lo,
        forall|j: int|
            0 <= j < n - lo
                ==> #[trigger] combos_from(lo, n, (n - lo - 1) as nat)[j]
                    == omit_seq(lo, n, n - 1 - j),
    decreases n - lo,
{
    let k = (n - lo - 1) as nat;
    if n - lo == 1 {
        assert(combos_from(lo, n, 0).len() == 1);
        assert(combos_from(lo, n, 0)[0] =~= omit_seq(lo, n, n - 1));
    } else {
        lemma_combos_omit(lo + 1, n);
        lemma_combos_full(lo + 1, n);
        let a0 = combos_from(lo + 1, n, (k - 1) as nat);
        let a = a0.map_values(|s: Seq<int>| seq![lo] + s);
        let b = combos_from(lo + 1, n, k);
        assert(combos_from(lo, n, k) == a + b);
        assert(a0.len() == n - lo - 1);
        assert(b == seq![id_seq(lo + 1, n)]);
        assert(combos_from(lo, n, k).len() == n - lo);
        assert forall|j: int|
            0 <= j < n - lo
                implies #[trigger] combos_from(lo, n, k)[j] == omit_seq(lo, n, n - 1 - j) by {
            if j < n - lo - 1 {
                assert((a + b)[j] == a[j]);
                assert(a[j] == seq![lo] + a0[j]);
                assert(a0[j] == omit_seq(lo + 1, n, n - 1 - j));
                assert(seq![lo] + omit_seq(lo + 1, n, n - 1 - j) =~= omit_seq(lo, n, n - 1 - j));
            } else {
                assert((a + b)[j] == b[0]);
                assert(n - 1 - j == lo);
                assert(id_seq(lo + 1, n) =~= omit_seq(lo, n, lo));
            }
        }
    }
}

/// Selecting all positions but `q` out of `vals` removes the element at `q`.
pub proof fn lemma_select_omit(vals: Seq<u8>, q: int)
    requires
        0 <= q < vals.len(),
    ensures
        select_values(vals, omit_seq(0, vals.len() as int, q)) == vals.remove(q),
{
    assert(select_values(vals, omit_seq(0, vals.len() as int, q)) =~= vals.remove(q));
}

} // verus!
