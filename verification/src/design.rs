//! The design generators: for a requested sub-palette size they produce the
//! ordered sequence of proto-palettes (the color-index subsets single tiles
//! may use) that traps a greedy palette packer into sub-optimal choices.

use vstd::prelude::*;
use crate::combo::{binom, combo_index, combo_index_seq, combo_ok, combo_select,
    combo_select_seq, combos_from, lemma_combos_len, lemma_combos_omit, lemma_combos_shape,
    lemma_select_omit, lemma_seqs_as_ints_eq, omit_seq, select_values};
use vstd::arithmetic::div_mod::{lemma_fundamental_div_mod, lemma_fundamental_div_mod_converse,
    lemma_mod_bound};

verus! {

/// Every element occurs at most once.
pub open spec fn distinct_u8(s: Seq<u8>) -> bool {
    forall|i: int, j: int| 0 <= i < j < s.len() ==> #[trigger] s[i] != #[trigger] s[j]
}

/// Every element lies below `bound`.
pub open spec fn below(s: Seq<u8>, bound: int) -> bool {
    forall|i: int| 0 <= i < s.len() ==> #[trigger] s[i] < bound
}

/// The proto-palette taking the even member `2 * x` of each chosen pair.
pub open spec fn evens_pal(c: Seq<int>) -> Seq<u8> {
    c.map_values(|x: int| (2 * x) as u8)
}

/// The proto-palette taking the odd member `2 * x + 1` of each chosen pair.
pub open spec fn odds_pal(c: Seq<int>) -> Seq<u8> {
    c.map_values(|x: int| (2 * x + 1) as u8)
}

/// The whole any-fit design for sub-palette size `p`: for every combination
/// of `p / 2` of the `p` color pairs, first the proto-palette of the pairs'
/// even members, then the one of their odd members.
pub open spec fn any_fit_design(p: int) -> Seq<Seq<u8>> {
    let cs = combo_index_seq(p, (p / 2) as nat);
    Seq::new(
        (2 * cs.len()) as nat,
        |t: int| if t % 2 == 0 { evens_pal(cs[t / 2]) } else { odds_pal(cs[t / 2]) },
    )
}

/// Builds the design that defeats an any-fit packer.
///
/// The `2 * palette_size` color indices form `palette_size` pairs
/// `(2 * i, 2 * i + 1)`. Every emitted proto-palette draws only even or only
/// odd indices, and the two proto-palettes of one pair combination are
/// emitted back to back, so a first-fit packer alternates between the two
/// disjoint halves of the index space tile by tile.
#[verifier::loop_isolation(false)]
pub fn defeat_any_fit(palette_size: usize) -> (r: (Vec<Vec<u8>>, usize))
    requires
        palette_size % 2 == 0,
        2 * palette_size <= 256,
    ensures
        r.1 == 2 * palette_size,
        r.0.deep_view() == any_fit_design(palette_size as int),
        palette_size > 0 ==> r.0@.len() == 2 * binom(
            palette_size as nat,
            (palette_size / 2) as nat,
        ),
        palette_size == 0 ==> r.0@.len() == 0,
        forall|t: int|
            0 <= t < r.0@.len() ==> (#[trigger] r.0.deep_view()[t]).len() == palette_size / 2,
        forall|t: int| 0 <= t < r.0@.len() ==> distinct_u8(#[trigger] r.0.deep_view()[t]),
        forall|t: int|
            0 <= t < r.0@.len() ==> below(#[trigger] r.0.deep_view()[t], 2 * palette_size),
{
    let p = palette_size;
    let half = p / 2;
    let combos = combo_index(p, half);
    let ghost cs = combo_index_seq(p as int, half as nat);
    proof {
        lemma_seqs_as_ints_eq(combos.deep_view(), cs);
        if half > 0 {
            lemma_combos_shape(0, p as int, half as nat);
            lemma_combos_len(0, p as int, half as nat);
        }
        assert(cs.len() == combos@.len());
    }
    let mut palettes: Vec<Vec<u8>> = Vec::new();
    let mut idx: usize = 0;
    while idx < combos.len()
        invariant
            idx <= combos.len(),
            palettes.deep_view() == any_fit_design(p as int).take(2 * idx),
        decreases combos.len() - idx,
    {
        proof {
            assert(combos.deep_view()[idx as int] =~= combos@[idx as int]@);
            assert(combo_ok(cs[idx as int], 0, p as int, half as nat));
        }
        let c = &combos[idx];
        let mut ev: Vec<u8> = Vec::new();
        let mut od: Vec<u8> = Vec::new();
        let mut j: usize = 0;
        while j < c.len()
            invariant
                j <= c.len(),
                ev@ == evens_pal(cs[idx as int].take(j as int)),
                od@ == odds_pal(cs[idx as int].take(j as int)),
            decreases c.len() - j,
        {
            let x = c[j];
            proof {
                assert(x == cs[idx as int][j as int]);
                assert(0 <= cs[idx as int][j as int] < p);
            }
            ev.push((2 * x) as u8);
            od.push((2 * x + 1) as u8);
            proof {
                let ci = cs[idx as int];
                assert(ci.take(j + 1) =~= ci.take(j as int).push(ci[j as int]));
                assert(ev@ =~= evens_pal(ci.take(j + 1)));
                assert(od@ =~= odds_pal(ci.take(j + 1)));
            }
            j += 1;
        }
        proof {
            let ci = cs[idx as int];
            assert(ci.take(c@.len() as int) =~= ci);
        }
        palettes.push(ev);
        palettes.push(od);
        proof {
            assert(any_fit_design(p as int)[2 * idx] == evens_pal(cs[idx as int]));
            assert(any_fit_design(p as int)[2 * idx + 1] == odds_pal(cs[idx as int]));
            assert(palettes.deep_view() =~~= any_fit_design(p as int).take(2 * (idx + 1)));
        }
        idx += 1;
    }
    proof {
        assert(any_fit_design(p as int).take(2 * combos@.len() as int) =~~= any_fit_design(
            p as int,
        ));
        let d = any_fit_design(p as int);
        assert(palettes@.len() == d.len());
        assert forall|t: int| 0 <= t < d.len() implies (#[trigger] d[t]).len() == p / 2
            && distinct_u8(d[t]) && below(d[t], 2 * p) by {
            let ci = cs[t / 2];
            assert(combo_ok(ci, 0, p as int, half as nat));
            let pal = d[t];
            assert(pal.len() == ci.len());
            assert forall|i: int, j: int| 0 <= i < j < pal.len() implies #[trigger] pal[i]
                != #[trigger] pal[j] by {
                assert(ci[i] < ci[j]);
                assert(0 <= ci[i] < p && 0 <= ci[j] < p);
            }
            assert forall|i: int| 0 <= i < pal.len() implies #[trigger] pal[i] < 2 * p by {
                assert(0 <= ci[i] < p);
            }
        }
    }
    (palettes, 2 * p)
}

/// The ascending listing of `0..p` as 8-bit indices with member `m` left out.
pub open spec fn omit1_u8(p: int, m: int) -> Seq<u8> {
    Seq::new((p - 1) as nat, |i: int| if i < m { i as u8 } else { (i + 1) as u8 })
}

/// The ascending listing of `0..p` as 8-bit indices with the two members
/// `m` and `m + 1` left out.
pub open spec fn omit2_u8(p: int, m: int) -> Seq<u8> {
    Seq::new((p - 2) as nat, |i: int| if i < m { i as u8 } else { (i + 2) as u8 })
}

/// Proto-palette `s` of the block the `k`-th pair of all-but-one
/// combinations contributes to the best-fusion design. The pair consists of
/// the listings that leave out `m + 1` and `m`; their intersection is the
/// listing that leaves out both, and the lock colors are `p` and `p + 1`.
pub open spec fn bf_block_item(p: int, k: int, s: int) -> Seq<u8> {
    let m = p - 2 - 2 * k;
    if s == 0 {
        omit1_u8(p, m + 1)
    } else if s == 1 {
        omit2_u8(p, m).push(p as u8)
    } else if s == 2 {
        omit1_u8(p, m)
    } else if s == 3 {
        omit2_u8(p, m).push((p + 1) as u8)
    } else {
        omit2_u8(p, m).remove(p - 3 - (s - 4)).push(p as u8).push((p + 1) as u8)
    }
}

/// The whole best-fusion design for sub-palette size `p`: one block of
/// `p + 2` proto-palettes for each of the `p / 2` pairs of all-but-one
/// combinations of `0..p`.
pub open spec fn best_fusion_design(p: int) -> Seq<Seq<u8>> {
    Seq::new(((p / 2) * (p + 2)) as nat, |t: int| bf_block_item(p, t / (p + 2), t % (p + 2)))
}

/// Copies a byte vector.
#[verifier::loop_isolation(false)]
fn copy_u8(v: &Vec<u8>) -> (r: Vec<u8>)
    ensures
        r@ == v@,
{
    let mut r: Vec<u8> = Vec::new();
    let mut i: usize = 0;
    while i < v.len()
        invariant
            i <= v.len(),
            r@ == v@.take(i as int),
        decreases v.len() - i,
    {
        r.push(v[i]);
        proof {
            assert(v@.take(i + 1) =~= v@.take(i as int).push(v@[i as int]));
        }
        i += 1;
    }
    proof {
        assert(v@.take(v@.len() as int) =~= v@);
    }
    r
}

/// Whether `x` occurs in `v`.
#[verifier::loop_isolation(false)]
fn contains_u8(v: &Vec<u8>, x: u8) -> (r: bool)
    ensures
        r == v@.contains(x),
{
    let mut i: usize = 0;
    while i < v.len()
        invariant
            i <= v.len(),
            forall|q: int| 0 <= q < i ==> v@[q] != x,
        decreases v.len() - i,
    {
        if v[i] == x {
            return true;
        }
        i += 1;
    }
    proof {
        assert(!v@.contains(x)) by {
            if v@.contains(x) {
                let w = choose|w: int| 0 <= w < v@.len() && v@[w] == x;
                assert(v@[w] != x);
            }
        }
    }
    false
}

/// Narrows index values to 8-bit color indices.
#[verifier::loop_isolation(false)]
fn to_color_indices(v: &Vec<usize>) -> (r: Vec<u8>)
    requires
        forall|i: int| 0 <= i < v@.len() ==> #[trigger] v@[i] < 256,
    ensures
        r@.len() == v@.len(),
        forall|i: int| 0 <= i < v@.len() ==> #[trigger] r@[i] == v@[i] as u8,
{
    let mut r: Vec<u8> = Vec::new();
    let mut i: usize = 0;
    while i < v.len()
        invariant
            i <= v.len(),
            r@.len() == i,
            forall|q: int| 0 <= q < i ==> #[trigger] r@[q] == v@[q] as u8,
        decreases v.len() - i,
    {
        r.push(v[i] as u8);
        i += 1;
    }
    r
}

/// Membership in the all-but-one listing: exactly the indices below `p`
/// other than the one left out.
proof fn lemma_omit1_contains(p: int, m: int, x: u8)
    requires
        0 <= m < p <= 256,
    ensures
        omit1_u8(p, m).contains(x) <==> (x < p && x != m),
{
    let s = omit1_u8(p, m);
    if x < p && x != m {
        if x < m {
            assert(s[x as int] == x);
        } else {
            assert(s[x - 1] == x);
        }
        assert(s.contains(x));
    }
    if s.contains(x) {
        let w = choose|w: int| 0 <= w < s.len() && s[w] == x;
        assert(x < p && x != m);
    }
}

/// Every position of the best-fusion design falls in exactly one block.
proof fn lemma_design_index(p: int, k: int, s: int)
    requires
        p >= 2,
        0 <= k < p / 2,
        0 <= s < p + 2,
    ensures
        0 <= k * (p + 2) + s < (p / 2) * (p + 2),
        best_fusion_design(p)[k * (p + 2) + s] == bf_block_item(p, k, s),
{
    lemma_fundamental_div_mod_converse(k * (p + 2) + s, p + 2, k, s);
    assert((k + 1) * (p + 2) <= (p / 2) * (p + 2)) by (nonlinear_arith)
        requires
            k < p / 2,
            p >= 2,
    ;
    assert(k * (p + 2) + s < (k + 1) * (p + 2)) by (nonlinear_arith)
        requires
            0 <= s < p + 2,
    ;
    assert(0 <= k * (p + 2)) by (nonlinear_arith)
        requires
            k >= 0,
            p >= 0,
    ;
}

/// Builds the design that defeats a best-fusion packer.
///
/// All `palette_size` all-but-one combinations of `0..palette_size` are
/// processed in consecutive pairs. For each pair the block emitted is: the
/// first member; the pair's intersection locked with color `palette_size`;
/// the second member; the intersection locked with color `palette_size + 1`;
/// then every all-but-one sub-combination of the intersection carrying both
/// lock colors. A packer that fuses compatible partial palettes is tempted
/// to merge a locked intersection with its sibling, and is then blocked
/// because the lock colors differ.
#[verifier::loop_isolation(false)]
#[verifier::rlimit(100)]
pub fn defeat_best_fusion(palette_size: usize) -> (r: (Vec<Vec<u8>>, usize))
    requires
        palette_size % 2 == 0,
        palette_size + 2 <= 256,
    ensures
        r.1 == palette_size + 2,
        r.0.deep_view() == best_fusion_design(palette_size as int),
        r.0@.len() == 2 * palette_size + (palette_size / 2) * (palette_size - 2),
        forall|t: int|
            0 <= t < r.0@.len() ==> (#[trigger] r.0.deep_view()[t]).len() == palette_size - 1,
        forall|t: int| 0 <= t < r.0@.len() ==> distinct_u8(#[trigger] r.0.deep_view()[t]),
        forall|t: int|
            0 <= t < r.0@.len() ==> below(#[trigger] r.0.deep_view()[t], palette_size + 2),
        forall|t: int|
            0 <= t < r.0@.len() && (t % (palette_size + 2) == 0 || t % (palette_size + 2) == 2)
                ==> below(#[trigger] r.0.deep_view()[t], palette_size as int),
{
    let p = palette_size;
    if p == 0 {
        let palettes: Vec<Vec<u8>> = Vec::new();
        proof {
            lemma_bf_design_empty();
            assert(palettes@.len() == 0);
            assert(palettes.deep_view() =~~= best_fusion_design(0));
        }
        return (palettes, 2);
    }
    let la: u8 = p as u8;
    let lb: u8 = (p + 1) as u8;
    let t0 = combo_index(p, p - 1);
    let ghost t0s = combo_index_seq(p as int, (p - 1) as nat);
    proof {
        lemma_seqs_as_ints_eq(t0.deep_view(), t0s);
        lemma_combos_omit(0, p as int);
        assert(t0s.len() == p);
    }
    let half = p / 2;
    let mut palettes: Vec<Vec<u8>> = Vec::new();
    let mut k: usize = 0;
    while k < half
        invariant
            k <= half,
            palettes.deep_view() == best_fusion_design(p as int).take(k as int * (p + 2)),
        decreases half - k,
    {
        let ghost m: int = p - 2 - 2 * (k as int);
        proof {
            assert(p == 2 * half);
            assert(0 <= m <= p - 2);
            assert(t0s[2 * k as int] == omit_seq(0, p as int, m + 1));
            assert(t0s[2 * k + 1] == omit_seq(0, p as int, m));
            assert(t0.deep_view()[2 * k as int] =~= t0@[2 * k as int]@);
            assert(t0.deep_view()[2 * k + 1] =~= t0@[2 * k + 1]@);
            assert forall|j: int| 0 <= j < t0@[2 * k as int]@.len()
                implies #[trigger] t0@[2 * k as int]@[j] < 256 by {
                assert(t0.deep_view()[2 * k as int][j] == t0s[2 * k as int][j]);
            }
            assert forall|j: int| 0 <= j < t0@[2 * k + 1]@.len()
                implies #[trigger] t0@[2 * k + 1]@[j] < 256 by {
                assert(t0.deep_view()[2 * k + 1][j] == t0s[2 * k + 1][j]);
            }
        }
        let first = to_color_indices(&t0[2 * k]);
        let second = to_color_indices(&t0[2 * k + 1]);
        proof {
            assert forall|j: int| 0 <= j < first@.len()
                implies #[trigger] first@[j] == omit1_u8(p as int, m + 1)[j] by {
                assert(t0.deep_view()[2 * k as int][j] == t0s[2 * k as int][j]);
                assert(first@[j] == t0@[2 * k as int]@[j] as u8);
            }
            assert(first@ =~= omit1_u8(p as int, m + 1));
            assert forall|j: int| 0 <= j < second@.len()
                implies #[trigger] second@[j] == omit1_u8(p as int, m)[j] by {
                assert(t0.deep_view()[2 * k + 1][j] == t0s[2 * k + 1][j]);
                assert(second@[j] == t0@[2 * k + 1]@[j] as u8);
            }
            assert(second@ =~= omit1_u8(p as int, m));
        }
        let mut inter: Vec<u8> = Vec::new();
        let mut j: usize = 0;
        while j < first.len()
            invariant
                j <= first.len(),
                j as int <= m ==> inter@ == omit2_u8(p as int, m).take(j as int),
                j as int > m ==> inter@ == omit2_u8(p as int, m).take(j - 1),
            decreases first.len() - j,
        {
            let x = first[j];
            let keep = contains_u8(&second, x);
            proof {
                lemma_omit1_contains(p as int, m, x);
                let o2 = omit2_u8(p as int, m);
                if (j as int) < m {
                    assert(x == j as u8);
                    assert(keep);
                    assert(o2[j as int] == x);
                    assert(o2.take(j + 1) =~= o2.take(j as int).push(x));
                } else if j as int == m {
                    assert(x == m as u8);
                    assert(!keep);
                } else {
                    assert(x == (j + 1) as u8);
                    assert(keep);
                    assert(o2[j - 1] == x);
                    assert(o2.take(j as int) =~= o2.take(j - 1).push(x));
                }
            }
            if keep {
                inter.push(x);
            }
            j += 1;
        }
        proof {
            assert(inter@ =~= omit2_u8(p as int, m));
        }
        let ghost base: int = k as int * (p + 2);
        let mut lock_a = copy_u8(&inter);
        lock_a.push(la);
        let mut lock_b = copy_u8(&inter);
        lock_b.push(lb);
        proof {
            assert(first@ == bf_block_item(p as int, k as int, 0));
            assert(lock_a@ == bf_block_item(p as int, k as int, 1));
            assert(second@ == bf_block_item(p as int, k as int, 2));
            assert(lock_b@ == bf_block_item(p as int, k as int, 3));
            lemma_design_index(p as int, k as int, 0);
            lemma_design_index(p as int, k as int, 1);
            lemma_design_index(p as int, k as int, 2);
            lemma_design_index(p as int, k as int, 3);
        }
        palettes.push(first);
        palettes.push(lock_a);
        palettes.push(second);
        palettes.push(lock_b);
        proof {
            assert(palettes.deep_view() =~~= best_fusion_design(p as int).take(base + 4));
        }
        if p >= 4 {
            let rest = combo_select(&inter, p - 3);
            proof {
                lemma_combos_omit(0, p as int - 2);
                assert(combo_select_seq(inter@, (p - 3) as nat).len() == p - 2);
                assert(rest.deep_view().len() == p - 2);
            }
            let mut q: usize = 0;
            while q < rest.len()
                invariant
                    q <= rest.len(),
                    rest@.len() == p - 2,
                    palettes.deep_view() == best_fusion_design(p as int).take(base + 4 + q),
                decreases rest.len() - q,
            {
                let mut sub = copy_u8(&rest[q]);
                sub.push(la);
                sub.push(lb);
                proof {
                    assert(rest.deep_view()[q as int] =~= rest@[q as int]@);
                    let idxs = combos_from(0, p as int - 2, (p - 3) as nat);
                    assert(combo_select_seq(inter@, (p - 3) as nat)[q as int]
                        == select_values(inter@, idxs[q as int]));
                    assert(idxs[q as int] == omit_seq(0, p as int - 2, p - 3 - q));
                    lemma_select_omit(inter@, p - 3 - q as int);
                    assert(rest@[q as int]@ == omit2_u8(p as int, m).remove(p - 3 - q));
                    assert(sub@ == bf_block_item(p as int, k as int, 4 + q));
                    lemma_design_index(p as int, k as int, 4 + q as int);
                }
                palettes.push(sub);
                proof {
                    assert(palettes.deep_view() =~~= best_fusion_design(p as int).take(
                        base + 4 + q + 1,
                    ));
                }
                q += 1;
            }
        }
        proof {
            assert((k as int + 1) * (p + 2) == base + p + 2) by (nonlinear_arith)
                requires
                    base == k as int * (p + 2),
            ;
            assert(palettes.deep_view() == best_fusion_design(p as int).take(
                (k as int + 1) * (p + 2),
            ));
        }
        k += 1;
    }
    proof {
        let d = best_fusion_design(p as int);
        assert(d.take(half as int * (p + 2)) =~~= d);
        assert(p as int == 2 * (half as int));
        assert(half as int * ((p as int) + 2) == 2 * p + half as int * ((p as int) - 2))
            by (nonlinear_arith)
            requires
                p as int == 2 * (half as int),
        ;
        assert(palettes@.len() == d.len());
        assert forall|t: int| 0 <= t < d.len() implies {
            let pal = #[trigger] d[t];
            pal.len() == p - 1 && distinct_u8(pal) && below(pal, p as int + 2)
                && ((t % (p as int + 2) == 0 || t % (p as int + 2) == 2) ==> below(pal, p as int))
        } by {
            lemma_bf_shape(p as int, t);
        }
    }
    (palettes, p + 2)
}

/// Every proto-palette of the best-fusion design has exactly `p - 1`
/// pairwise distinct members below `p + 2`, and the two unmodified
/// combination members of each block carry no lock color.
proof fn lemma_bf_shape(p: int, t: int)
    requires
        p >= 2,
        p % 2 == 0,
        p + 2 <= 256,
        0 <= t < (p / 2) * (p + 2),
    ensures
        best_fusion_design(p)[t].len() == p - 1,
        distinct_u8(best_fusion_design(p)[t]),
        below(best_fusion_design(p)[t], p + 2),
        (t % (p + 2) == 0 || t % (p + 2) == 2) ==> below(best_fusion_design(p)[t], p),
{
    let pal = best_fusion_design(p)[t];
    let kk = t / (p + 2);
    let s = t % (p + 2);
    lemma_fundamental_div_mod(t, p + 2);
    lemma_mod_bound(t, p + 2);
    assert(0 <= kk < p / 2) by (nonlinear_arith)
        requires
            t == (p + 2) * kk + s,
            0 <= s < p + 2,
            0 <= t < (p / 2) * (p + 2),
            p >= 2,
    ;
    let m = p - 2 - 2 * kk;
    assert(0 <= m <= p - 2);
    assert(pal == bf_block_item(p, kk, s));
    let o2 = omit2_u8(p, m);
    if s == 0 || s == 2 {
        let mm = if s == 0 { m + 1 } else { m };
        assert(pal == omit1_u8(p, mm));
        assert(pal.len() == p - 1);
        assert forall|i1: int, i2: int| 0 <= i1 < i2 < pal.len()
            implies #[trigger] pal[i1] != #[trigger] pal[i2] by {
            assert(pal[i1] < pal[i2]);
        }
        assert(below(pal, p));
        assert(below(pal, p + 2));
    } else if s == 1 || s == 3 {
        let lock = if s == 1 { p as u8 } else { (p + 1) as u8 };
        assert(pal == o2.push(lock));
        assert(pal.len() == p - 1);
        assert forall|i1: int, i2: int| 0 <= i1 < i2 < pal.len()
            implies #[trigger] pal[i1] != #[trigger] pal[i2] by {
            if i2 < p - 2 {
                assert(pal[i1] == o2[i1] && pal[i2] == o2[i2]);
                assert(pal[i1] < pal[i2]);
            } else {
                assert(pal[i2] == lock);
                assert(pal[i1] == o2[i1]);
                assert(pal[i1] < p);
            }
        }
        assert(below(pal, p + 2));
    } else {
        let q0 = p - 3 - (s - 4);
        assert(0 <= q0 < o2.len());
        let rem = o2.remove(q0);
        o2.remove_ensures(q0);
        assert(rem.len() == p - 3);
        assert(pal == rem.push(p as u8).push((p + 1) as u8));
        assert(pal.len() == p - 1);
        assert forall|i1: int, i2: int| 0 <= i1 < i2 < rem.len()
            implies #[trigger] rem[i1] < #[trigger] rem[i2] by {
            if i2 < q0 {
                assert(rem[i1] == o2[i1] && rem[i2] == o2[i2]);
            } else if i1 >= q0 {
                assert(rem[i1] == o2[i1 + 1] && rem[i2] == o2[i2 + 1]);
            } else {
                assert(rem[i1] == o2[i1] && rem[i2] == o2[i2 + 1]);
            }
        }
        assert(forall|i: int| 0 <= i < rem.len() ==> #[trigger] rem[i] < p);
        assert forall|i1: int, i2: int| 0 <= i1 < i2 < pal.len()
            implies #[trigger] pal[i1] != #[trigger] pal[i2] by {
            if i2 < p - 3 {
                assert(pal[i1] == rem[i1] && pal[i2] == rem[i2]);
            } else if i1 < p - 3 {
                assert(pal[i1] == rem[i1]);
                assert(pal[i1] < p);
                assert(pal[i2] == p as u8 || pal[i2] == (p + 1) as u8);
            } else {
                assert(pal[i1] == p as u8 && pal[i2] == (p + 1) as u8);
            }
        }
        assert(below(pal, p + 2));
    }
}


/// For sub-palette size zero the design is empty.
proof fn lemma_bf_design_empty()
    ensures
        best_fusion_design(0).len() == 0,
{
}

/// The two greedy packing heuristics a design can be aimed at.
#[derive(Clone, Copy, PartialEq, Eq, Structural, Debug)]
pub enum Strategy {
    AnyFit,
    BestFusion,
}

/// Rounds a requested sub-palette size down to the nearest even number by
/// clearing only its lowest bit.
pub fn round_down_even(n: usize) -> (r: usize)
    ensures
        r == n - n % 2,
        r % 2 == 0,
        r <= n < r + 2,
{
    n - n % 2
}

/// Runs the chosen design generator after checking that the color indices
/// it needs fit the 8-bit index space; a size that does not fit is a
/// configuration error reported as `None` before any generation.
pub fn generate_design(strategy: Strategy, palette_size: usize) -> (r: Option<(Vec<Vec<u8>>, usize)>)
    requires
        palette_size % 2 == 0,
    ensures
        strategy == Strategy::AnyFit ==> (r is Some <==> 2 * palette_size <= 256),
        strategy == Strategy::BestFusion ==> (r is Some <==> palette_size + 2 <= 256),
        r is Some && strategy == Strategy::AnyFit ==> (r->0).0.deep_view() == any_fit_design(
            palette_size as int,
        ) && (r->0).1 == 2 * palette_size,
        r is Some && strategy == Strategy::BestFusion ==> (r->0).0.deep_view()
            == best_fusion_design(palette_size as int) && (r->0).1 == palette_size + 2,
{
    match strategy {
        Strategy::AnyFit => {
            if palette_size <= 128 {
                Some(defeat_any_fit(palette_size))
            } else {
                None
            }
        },
        Strategy::BestFusion => {
            if palette_size <= 254 {
                Some(defeat_best_fusion(palette_size))
            } else {
                None
            }
        },
    }
}

} // verus!
