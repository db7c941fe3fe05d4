//! The balancing engine: stoichiometry matrix construction, elimination,
//! and resolution of the solution into minimal positive integer
//! coefficients.

use vstd::prelude::*;

use crate::equations::rational::{rat_from_u64, rat_neg_u64, rat_num, rat_wf, Rat};
use crate::equations::util::{matrix_wf, mview, spec_eliminated};
use crate::equations::{
    constituent_wf, key_in, side_atoms, side_keys, sorted_keys, unit_atoms, unit_totals,
    counts_contains, ConstituentV, Equation, EquationConstituent, EquationError, EquationV,
};

verus! {

/// The element-to-row-index map used while building the matrix.
#[verifier::external_type_specification]
#[verifier::external_body]
#[verifier::reject_recursive_types(L)]
#[verifier::reject_recursive_types(R)]
#[verifier::reject_recursive_types(LS)]
#[verifier::reject_recursive_types(RS)]
pub struct ExBiHashMap<L, R, LS, RS>(bimap::BiHashMap<L, R, LS, RS>);

/// The element-order map: a bijection between elements and row indices.
pub type ElementOrder = bimap::BiMap<u32, usize>;

/// The pairs held by an element-order map.
pub uninterp spec fn bimap_view(m: ElementOrder) -> Map<u32, usize>;

/// The map after a bimap insertion: any pair sharing the new left or
/// right value is removed, then the new pair is added.
pub open spec fn order_after_insert(prev: Map<u32, usize>, left: u32, right: usize) -> Map<
    u32,
    usize,
> {
    Map::new(
        |k: u32| k == left || (prev.dom().contains(k) && k != left && prev[k] != right),
        |k: u32|
            if k == left {
                right
            } else {
                prev[k]
            },
    )
}

/// The empty element-order map.
pub open spec fn empty_order() -> Map<u32, usize> {
    Map::empty()
}

/// Relies on bimap::BiHashMap::with_capacity: a fresh map holds no pairs.
#[verifier::external_body]
fn bimap_with_capacity(capacity: usize) -> (r: ElementOrder)
    ensures
        bimap_view(r) == empty_order(),
{
    bimap::BiMap::with_capacity(capacity)
}

/// Relies on bimap::BiHashMap::insert: the pair is added after any pair
/// sharing its left or its right value is removed.
#[verifier::external_body]
fn bimap_insert(m: &mut ElementOrder, left: u32, right: usize)
    ensures
        bimap_view(*final(m)) == order_after_insert(bimap_view(*old(m)), left, right),
{
    m.insert(left, right);
}

/// Relies on bimap::BiHashMap::get_by_left: returns the right value paired
/// with `left`, if any.
#[verifier::external_body]
fn bimap_get_by_left(m: &ElementOrder, left: u32) -> (r: Option<usize>)
    ensures
        r == (if bimap_view(*m).dom().contains(left) {
            Some(bimap_view(*m)[left])
        } else {
            None::<usize>
        }),
{
    m.get_by_left(&left).copied()
}

fn keys_equal(a: &Vec<u32>, b: &Vec<u32>) -> (r: bool)
    ensures
        r == (a@ == b@),
{
    if a.len() != b.len() {
        return false;
    }
    let mut i: usize = 0;
    while i < a.len()
        invariant
            i <= a@.len(),
            a@.len() == b@.len(),
            forall|j: int| 0 <= j < i ==> a@[j] == b@[j],
        decreases a@.len() - i,
    {
        if a[i] != b[i] {
            return false;
        }
        i = i + 1;
    }
    proof {
        assert(a@ =~= b@);
    }
    true
}

/// Some element stands on only one side of the equation, so that no
/// choice of coefficients can balance it.
pub open spec fn elements_mismatch(eq: EquationV) -> bool {
    exists|e: int| (side_atoms(eq.reactants, e) != 0) != (side_atoms(eq.products, e) != 0)
}

/// Every per-unit atom count on the side fits the machine integer range.
pub open spec fn side_units_fit(s: Seq<crate::equations::ConstituentV>) -> bool {
    forall|j: int, e: int| 0 <= j < s.len() ==> #[trigger] unit_atoms(s[j], e) <= usize::MAX
}

/// The signed per-unit atom count standing in column `j` of the matrix row
/// of element `e`: reactant columns first, then negated product columns.
pub open spec fn col_unit(eq: EquationV, j: int, e: int) -> int {
    if j < eq.reactants.len() {
        unit_atoms(eq.reactants[j], e)
    } else {
        -unit_atoms(eq.products[j - eq.reactants.len()], e)
    }
}

/// Writes one cell of the matrix.
fn mat_set(m: &mut Vec<Vec<Rat>>, i: usize, j: usize, v: Rat)
    requires
        i < old(m)@.len(),
        j < old(m)@[i as int]@.len(),
    ensures
        final(m)@.len() == old(m)@.len(),
        forall|p: int| 0 <= p < old(m)@.len() && p != i ==> final(m)@[p] == old(m)@[p],
        final(m)@[i as int]@ == old(m)@[i as int]@.update(j as int, v),
{
    let mut row = Vec::new();
    let mut t: usize = 0;
    let n = m[i].len();
    while t < n
        invariant
            t <= n,
            i < m@.len(),
            m@ == old(m)@,
            n == m@[i as int]@.len(),
            j < n,
            row@ == (if j < t {
                m@[i as int]@.update(j as int, v).take(t as int)
            } else {
                m@[i as int]@.take(t as int)
            }),
        decreases n - t,
    {
        if t == j {
            row.push(v);
        } else {
            row.push(m[i][t]);
        }
        proof {
            if j < t + 1 {
                assert(row@ =~= m@[i as int]@.update(j as int, v).take(t + 1));
            } else {
                assert(row@ =~= m@[i as int]@.take(t + 1));
            }
        }
        t = t + 1;
    }
    proof {
        assert(m@[i as int]@.update(j as int, v).take(n as int) =~= m@[i as int]@.update(
            j as int,
            v,
        ));
    }
    m.set(i, row);
}

/// Builds the stoichiometry matrix of the equation: one row per distinct
/// element (ascending), one column per constituent (reactants first), each
/// cell the signed per-unit atom count. The resolved coefficients multiply
/// whole constituents, so a cell counts the atoms of one unit of its
/// constituent, existing coefficients left aside. Also returns the element
/// order.
pub fn create_matrix(eq: &Equation) -> (r: Result<(Vec<Vec<Rat>>, Vec<u32>), EquationError>)
    requires
        forall|i: int| 0 <= i < eq@.reactants.len() ==> constituent_wf(#[trigger] eq@.reactants[i]),
        forall|i: int| 0 <= i < eq@.products.len() ==> constituent_wf(#[trigger] eq@.products[i]),
    ensures
        r matches Ok(p) ==> {
            &&& !elements_mismatch(eq@)
            &&& side_units_fit(eq@.reactants)
            &&& side_units_fit(eq@.products)
            &&& sorted_keys(p.1@)
            &&& forall|x: int| key_in(p.1@, x) <==> side_atoms(eq@.products, x) != 0
            &&& p.0@.len() == p.1@.len()
            &&& matrix_wf(p.0@, eq@.reactants.len() + eq@.products.len() as int)
            &&& forall|i: int, j: int|
                0 <= i < p.0@.len() && 0 <= j < eq@.reactants.len() + eq@.products.len()
                    ==> rat_num(#[trigger] p.0@[i]@[j]) == col_unit(eq@, j, p.1@[i] as int)
                    && p.0@[i]@[j].den == 1
        },
        (r == Err::<(Vec<Vec<Rat>>, Vec<u32>), EquationError>(EquationError::UnusedElement))
            <==> elements_mismatch(eq@),
        r is Err ==> (r == Err::<(Vec<Vec<Rat>>, Vec<u32>), EquationError>(
            EquationError::UnusedElement,
        ) || r == Err::<(Vec<Vec<Rat>>, Vec<u32>), EquationError>(
            EquationError::ArithmeticOverflow,
        )),
        (!elements_mismatch(eq@) && side_units_fit(eq@.reactants) && side_units_fit(eq@.products)
            && eq@.reactants.len() + eq@.products.len() <= usize::MAX) ==> r is Ok,
{
    let ghost ev = eq@;
    let mut rkeys: Vec<u32> = Vec::new();
    let mut pkeys: Vec<u32> = Vec::new();
    proof {
        assert forall|i: int| 0 <= i < eq.reactants@.len() implies constituent_wf(
            (#[trigger] eq.reactants@[i])@,
        ) by {
            assert(eq.reactants@[i]@ == ev.reactants[i]);
        }
        assert forall|i: int| 0 <= i < eq.products@.len() implies constituent_wf(
            (#[trigger] eq.products@[i])@,
        ) by {
            assert(eq.products@[i]@ == ev.products[i]);
        }
    }
    side_keys(&eq.reactants, &mut rkeys);
    side_keys(&eq.products, &mut pkeys);
    proof {
        assert(crate::equations::constituents_view(eq.reactants@) =~= ev.reactants);
        assert(crate::equations::constituents_view(eq.products@) =~= ev.products);
        assert forall|x: int| key_in(rkeys@, x) <==> side_atoms(ev.reactants, x) != 0 by {
            assert(crate::equations::covers_side(
                rkeys@,
                Seq::<u32>::empty(),
                crate::equations::constituents_view(eq.reactants@),
                x,
            ));
        }
        assert forall|x: int| key_in(pkeys@, x) <==> side_atoms(ev.products, x) != 0 by {
            assert(crate::equations::covers_side(
                pkeys@,
                Seq::<u32>::empty(),
                crate::equations::constituents_view(eq.products@),
                x,
            ));
        }
    }
    if !keys_equal(&rkeys, &pkeys) {
        proof {
            if !elements_mismatch(ev) {
                assert forall|x: int| key_in(rkeys@, x) <==> key_in(pkeys@, x) by {
                    assert(!((side_atoms(ev.reactants, x) != 0) != (side_atoms(ev.products, x)
                        != 0)));
                }
                crate::equations::lemma_sorted_keys_same_members(rkeys@, pkeys@);
                assert(false);
            }
        }
        return Err(EquationError::UnusedElement);
    }
    proof {
        if elements_mismatch(ev) {
            let e = choose|e: int|
                (side_atoms(ev.reactants, e) != 0) != (side_atoms(ev.products, e) != 0);
            assert(key_in(rkeys@, e) != key_in(pkeys@, e));
            assert(false);
        }
    }
    let nrows = pkeys.len();
    let nr = eq.reactants.len();
    let np = eq.products.len();
    let ncols = match nr.checked_add(np) {
        Some(t) => t,
        None => {
            return Err(EquationError::ArithmeticOverflow);
        },
    };
    // the zero matrix
    let mut mat: Vec<Vec<Rat>> = Vec::new();
    let mut i: usize = 0;
    while i < nrows
        invariant
            i <= nrows,
            mat@.len() == i,
            forall|p: int|
                0 <= p < i ==> (#[trigger] mat@[p])@.len() == ncols && forall|q: int|
                    0 <= q < ncols ==> rat_num(#[trigger] mat@[p]@[q]) == 0 && mat@[p]@[q].den == 1
                        && rat_wf(mat@[p]@[q]),
        decreases nrows - i,
    {
        let mut row: Vec<Rat> = Vec::new();
        let mut q: usize = 0;
        while q < ncols
            invariant
                q <= ncols,
                row@.len() == q,
                forall|t: int|
                    0 <= t < q ==> rat_num(#[trigger] row@[t]) == 0 && row@[t].den == 1 && rat_wf(
                        row@[t],
                    ),
            decreases ncols - q,
        {
            row.push(rat_from_u64(0));
            q = q + 1;
        }
        mat.push(row);
        i = i + 1;
    }
    // the element order: each element to its row index
    let mut order = bimap_with_capacity(nrows);
    let mut i2: usize = 0;
    while i2 < nrows
        invariant
            i2 <= nrows,
            nrows == pkeys@.len(),
            sorted_keys(pkeys@),
            forall|p: int| 0 <= p < i2 ==> bimap_view(order).dom().contains(#[trigger] pkeys@[p])
                && bimap_view(order)[pkeys@[p]] == p,
            forall|k: u32| #[trigger]
                bimap_view(order).dom().contains(k) ==> exists|p: int|
                    0 <= p < i2 && pkeys@[p] == k,
        decreases nrows - i2,
    {
        let ghost prev = bimap_view(order);
        bimap_insert(&mut order, pkeys[i2], i2);
        proof {
            assert forall|p: int|
                0 <= p < i2 + 1 implies bimap_view(order).dom().contains(#[trigger] pkeys@[p])
                && bimap_view(order)[pkeys@[p]] == p by {
                if p < i2 {
                    assert(prev.dom().contains(pkeys@[p]) && prev[pkeys@[p]] == p);
                    assert(pkeys@[p] != pkeys@[i2 as int]);
                }
            }
        }
        i2 = i2 + 1;
    }
    // fill each column with the constituent's per-unit counts
    let mut j: usize = 0;
    while j < ncols
        invariant
            j <= ncols,
            ncols == nr + np,
            nr == eq.reactants@.len(),
            np == eq.products@.len(),
            ev == eq@,
            nrows == pkeys@.len(),
            sorted_keys(pkeys@),
            forall|x: int| key_in(pkeys@, x) <==> side_atoms(ev.products, x) != 0,
            forall|x: int| key_in(pkeys@, x) <==> side_atoms(ev.reactants, x) != 0,
            forall|i3: int| 0 <= i3 < eq@.reactants.len() ==> constituent_wf(
                #[trigger] eq@.reactants[i3],
            ),
            forall|i3: int| 0 <= i3 < eq@.products.len() ==> constituent_wf(
                #[trigger] eq@.products[i3],
            ),
            forall|p: int| 0 <= p < nrows ==> bimap_view(order).dom().contains(
                #[trigger] pkeys@[p],
            ) && bimap_view(order)[pkeys@[p]] == p,
            forall|k: u32| #[trigger]
                bimap_view(order).dom().contains(k) ==> exists|p: int|
                    0 <= p < nrows && pkeys@[p] == k,
            mat@.len() == nrows,
            forall|p: int| 0 <= p < nrows ==> (#[trigger] mat@[p])@.len() == ncols,
            forall|p: int, q: int|
                0 <= p < nrows && 0 <= q < ncols ==> rat_wf(#[trigger] mat@[p]@[q])
                    && mat@[p]@[q].den == 1,
            forall|p: int, q: int|
                0 <= p < nrows && 0 <= q < j ==> rat_num(#[trigger] mat@[p]@[q]) == col_unit(
                    ev,
                    q,
                    pkeys@[p] as int,
                ),
            forall|p: int, q: int|
                0 <= p < nrows && j <= q < ncols ==> rat_num(#[trigger] mat@[p]@[q]) == 0,
            forall|j2: int, e: int|
                0 <= j2 < j && j2 < nr ==> #[trigger] unit_atoms(ev.reactants[j2], e)
                    <= usize::MAX,
            forall|j2: int, e: int|
                nr <= j2 < j ==> #[trigger] unit_atoms(ev.products[j2 - nr], e) <= usize::MAX,
        decreases ncols - j,
    {
        let con: &EquationConstituent = if j < nr {
            &eq.reactants[j]
        } else {
            &eq.products[j - nr]
        };
        proof {
            assert(con@ == (if j < nr {
                ev.reactants[j as int]
            } else {
                ev.products[j - nr]
            }));
        }
        let elems = match unit_totals(con) {
            Ok(v) => v,
            Err(e) => {
                proof {
                    let x = choose|x: int| unit_atoms(con@, x) > usize::MAX;
                    if j < nr {
                        assert(unit_atoms(ev.reactants[j as int], x) > usize::MAX);
                        assert(!side_units_fit(ev.reactants));
                    } else {
                        assert(unit_atoms(ev.products[j - nr], x) > usize::MAX);
                        assert(!side_units_fit(ev.products));
                    }
                }
                return Err(e);
            },
        };
        proof {
            assert forall|e: int| #[trigger] unit_atoms(con@, e) <= usize::MAX by {
                if counts_contains(elems@, e) {
                    let w = choose|w: int| 0 <= w < elems@.len() && (#[trigger] elems@[w]).0 == e;
                    assert(elems@[w].1 == unit_atoms(con@, elems@[w].0 as int));
                } else {
                    assert(unit_atoms(con@, e) == 0);
                }
            }
        }
        let ghost pmat = mat@;
        let mut t: usize = 0;
        while t < elems.len()
            invariant
                t <= elems@.len(),
                j < ncols,
                ncols == nr + np,
                nr == eq.reactants@.len(),
                np == eq.products@.len(),
                ev == eq@,
                con@ == (if j < nr {
                    ev.reactants[j as int]
                } else {
                    ev.products[j - nr]
                }),
                nrows == pkeys@.len(),
                sorted_keys(pkeys@),
                forall|x: int| key_in(pkeys@, x) <==> side_atoms(ev.products, x) != 0,
                forall|x: int| key_in(pkeys@, x) <==> side_atoms(ev.reactants, x) != 0,
                forall|i3: int| 0 <= i3 < ev.reactants.len() ==> constituent_wf(
                    #[trigger] ev.reactants[i3],
                ),
                forall|i3: int| 0 <= i3 < ev.products.len() ==> constituent_wf(
                    #[trigger] ev.products[i3],
                ),
                crate::equations::sorted_counts(elems@),
                forall|i3: int| 0 <= i3 < elems@.len() ==> (#[trigger] elems@[i3]).1
                    == unit_atoms(con@, elems@[i3].0 as int),
                forall|x: int| counts_contains(elems@, x) <==> unit_atoms(con@, x) != 0,
                forall|p: int| 0 <= p < nrows ==> bimap_view(order).dom().contains(
                    #[trigger] pkeys@[p],
                ) && bimap_view(order)[pkeys@[p]] == p,
                forall|k: u32| #[trigger]
                    bimap_view(order).dom().contains(k) ==> exists|p: int|
                        0 <= p < nrows && pkeys@[p] == k,
                mat@.len() == nrows,
                forall|p: int| 0 <= p < nrows ==> (#[trigger] mat@[p])@.len() == ncols,
                forall|p: int, q: int|
                    0 <= p < nrows && 0 <= q < ncols ==> rat_wf(#[trigger] mat@[p]@[q])
                        && mat@[p]@[q].den == 1,
                forall|p: int, q: int|
                    0 <= p < nrows && 0 <= q < ncols && q != j ==> #[trigger] mat@[p]@[q]
                        == pmat[p]@[q],
                forall|p: int, q: int|
                    0 <= p < nrows && 0 <= q < j ==> rat_num(#[trigger] pmat[p]@[q]) == col_unit(
                        ev,
                        q,
                        pkeys@[p] as int,
                    ),
                forall|p: int, q: int|
                    0 <= p < nrows && j <= q < ncols ==> rat_num(#[trigger] pmat[p]@[q]) == 0,
                forall|p: int|
                    0 <= p < nrows ==> rat_num(#[trigger] mat@[p]@[j as int]) == (
                    if counts_contains(elems@.take(t as int), pkeys@[p] as int) {
                        if j < nr {
                            unit_atoms(con@, pkeys@[p] as int)
                        } else {
                            -unit_atoms(con@, pkeys@[p] as int)
                        }
                    } else {
                        0
                    }),
            decreases elems@.len() - t,
        {
            let (el, cnt) = elems[t];
            proof {
                assert(counts_contains(elems@, el as int)) by {
                    assert(elems@[t as int].0 == el);
                }
                assert(unit_atoms(con@, el as int) != 0);
                // the element occurs on its side, hence among the keys
                if j < nr {
                    crate::equations::lemma_side_atoms_term_lower(ev.reactants, j as int, el as int);
                    crate::equations::lemma_ctypes_atoms_nonneg(con@.components, el as int);
                    assert((con@.coefficient as int) * unit_atoms(con@, el as int) != 0)
                        by (nonlinear_arith)
                        requires
                            unit_atoms(con@, el as int) > 0,
                            con@.coefficient >= 1,
                    ;
                    assert(side_atoms(ev.reactants, el as int) != 0);
                } else {
                    crate::equations::lemma_side_atoms_term_lower(ev.products, j - nr, el as int);
                    crate::equations::lemma_ctypes_atoms_nonneg(con@.components, el as int);
                    assert((con@.coefficient as int) * unit_atoms(con@, el as int) != 0)
                        by (nonlinear_arith)
                        requires
                            unit_atoms(con@, el as int) > 0,
                            con@.coefficient >= 1,
                    ;
                    assert(side_atoms(ev.products, el as int) != 0);
                }
                assert(key_in(pkeys@, el as int));
            }
            let ri = match bimap_get_by_left(&order, el) {
                Some(ri) => ri,
                // every element of a constituent passed the side check
                // above, so its row index is always found
                None => {
                    proof {
                        let p = choose|p: int| 0 <= p < pkeys@.len() && pkeys@[p] == el;
                        assert(bimap_view(order).dom().contains(pkeys@[p]));
                        assert(false);
                    }
                    return Err(EquationError::UnusedElement);
                },
            };
            proof {
                let p = choose|p: int| 0 <= p < nrows && pkeys@[p] == el;
                assert(bimap_view(order)[pkeys@[p]] == p);
                assert(ri == p);
                assert(pkeys@[ri as int] == el);
            }
            let cell = if j < nr {
                rat_from_u64(cnt as u64)
            } else {
                rat_neg_u64(cnt as u64)
            };
            mat_set(&mut mat, ri, j, cell);
            proof {
                assert forall|p: int|
                    0 <= p < nrows implies rat_num(#[trigger] mat@[p]@[j as int]) == (
                    if counts_contains(elems@.take(t + 1), pkeys@[p] as int) {
                        if j < nr {
                            unit_atoms(con@, pkeys@[p] as int)
                        } else {
                            -unit_atoms(con@, pkeys@[p] as int)
                        }
                    } else {
                        0
                    }) by {
                    if p == ri {
                        assert(elems@.take(t + 1)[t as int].0 == el);
                        assert(counts_contains(elems@.take(t + 1), pkeys@[p] as int));
                    } else {
                        assert(pkeys@[p] != el);
                        assert(counts_contains(elems@.take(t + 1), pkeys@[p] as int)
                            <==> counts_contains(elems@.take(t as int), pkeys@[p] as int)) by {
                            if counts_contains(elems@.take(t + 1), pkeys@[p] as int) {
                                let w = choose|w: int|
                                    0 <= w < t + 1 && (#[trigger] elems@.take(t + 1)[w]).0
                                        == pkeys@[p];
                                if w < t {
                                    assert(elems@.take(t as int)[w].0 == pkeys@[p]);
                                }
                            }
                            if counts_contains(elems@.take(t as int), pkeys@[p] as int) {
                                let w = choose|w: int|
                                    0 <= w < t && (#[trigger] elems@.take(t as int)[w]).0
                                        == pkeys@[p];
                                assert(elems@.take(t + 1)[w].0 == pkeys@[p]);
                            }
                        }
                    }
                }
            }
            t = t + 1;
        }
        proof {
            assert(elems@.take(elems@.len() as int) =~= elems@);
            assert forall|p: int|
                0 <= p < nrows implies rat_num(#[trigger] mat@[p]@[j as int]) == col_unit(
                ev,
                j as int,
                pkeys@[p] as int,
            ) by {
                if !counts_contains(elems@, pkeys@[p] as int) {
                    assert(unit_atoms(con@, pkeys@[p] as int) == 0);
                }
            }
        }
        j = j + 1;
    }
    proof {
        assert(side_units_fit(ev.reactants));
        assert(side_units_fit(ev.products)) by {
            assert forall|i3: int, e: int|
                0 <= i3 < ev.products.len() implies #[trigger] unit_atoms(ev.products[i3], e)
                <= usize::MAX by {
                assert(unit_atoms(ev.products[(nr + i3) - nr], e) <= usize::MAX);
            }
        }
    }
    Ok((mat, pkeys))
}

/// A scaling factor `k` makes the entry integral.
pub open spec fn scaled_int(v: Rat, k: int) -> bool {
    (k * rat_num(v)) % (v.den as int) == 0
}

pub open spec fn all_scaled(vs: Seq<Rat>, k: int) -> bool {
    forall|j: int| 0 <= j < vs.len() ==> scaled_int(#[trigger] vs[j], k)
}

/// The first scaling factor from `k` up to the search bound of 100 that
/// makes every entry integral; 0 when none does.
pub open spec fn first_scale(vs: Seq<Rat>, k: int) -> int
    decreases 101 - k,
{
    if k < 1 || k > 100 {
        0
    } else if all_scaled(vs, k) {
        k
    } else {
        first_scale(vs, k + 1)
    }
}

/// The smallest scaling factor within the search bound, or 0.
pub open spec fn min_scale(vs: Seq<Rat>) -> int {
    first_scale(vs, 1)
}

/// The integer that a scaled entry becomes.
pub open spec fn scaled_val(v: Rat, k: int) -> int {
    (k * rat_num(v)) / (v.den as int)
}

/// The coefficient an entry resolves to: the scaled value, or the scaling
/// factor itself where the entry was a free zero.
pub open spec fn resolved_coef(v: Rat, k: int) -> int {
    if scaled_val(v, k) == 0 {
        k
    } else {
        scaled_val(v, k)
    }
}

/// Whether a column is a freed one: the dependent last column of the
/// homogeneous formulation, or a padded column past the row count. Only
/// these may take the scaling factor in place of a zero.
pub open spec fn is_free_col(j: int, nrows: int, ncols: int) -> bool {
    j >= nrows || j == ncols - 1
}

/// The raw coefficient of column `j`: the resolved value with the
/// zero-to-scaling-factor substitution applied on freed columns only.
pub open spec fn raw_val(sols: Seq<Rat>, k: int, j: int, nrows: int) -> int {
    if is_free_col(j, nrows, sols.len() as int) {
        resolved_coef(sols[j], k)
    } else {
        scaled_val(sols[j], k)
    }
}

proof fn lemma_first_scale_found(vs: Seq<Rat>, j: int, k: int)
    requires
        1 <= j <= k <= 100,
        all_scaled(vs, k),
        forall|k2: int| j <= k2 < k ==> !all_scaled(vs, k2),
    ensures
        first_scale(vs, j) == k,
    decreases k - j,
{
    if j < k {
        lemma_first_scale_found(vs, j + 1, k);
    }
}

proof fn lemma_first_scale_none(vs: Seq<Rat>, j: int)
    requires
        1 <= j <= 101,
        forall|k2: int| j <= k2 <= 100 ==> !all_scaled(vs, k2),
    ensures
        first_scale(vs, j) == 0,
    decreases 101 - j,
{
    if j <= 100 {
        lemma_first_scale_none(vs, j + 1);
    }
}

fn check_scaled(vs: &Vec<Rat>, k: u64) -> (b: bool)
    requires
        forall|j: int| 0 <= j < vs@.len() ==> rat_wf(#[trigger] vs@[j]) && !vs@[j].neg,
        1 <= k <= 100,
    ensures
        b == all_scaled(vs@, k as int),
{
    let mut j: usize = 0;
    while j < vs.len()
        invariant
            j <= vs@.len(),
            forall|p: int| 0 <= p < vs@.len() ==> rat_wf(#[trigger] vs@[p]) && !vs@[p].neg,
            1 <= k <= 100,
            forall|p: int| 0 <= p < j ==> scaled_int(#[trigger] vs@[p], k as int),
        decreases vs@.len() - j,
    {
        let v = vs[j];
        proof {
            assert((k as int) * (v.num as int) <= u128::MAX) by (nonlinear_arith)
                requires
                    k <= 100,
                    v.num <= u64::MAX,
            ;
            assert((k as int) * (v.num as int) >= 0) by (nonlinear_arith)
                requires
                    k >= 0,
                    v.num >= 0,
            ;
        }
        let prod = (k as u128) * (v.num as u128);
        let rem = prod % (v.den as u128);
        if rem != 0 {
            proof {
                assert(rat_num(vs@[j as int]) == v.num as int);
                assert(!scaled_int(vs@[j as int], k as int));
            }
            return false;
        }
        proof {
            assert(rat_num(vs@[j as int]) == v.num as int);
            assert(scaled_int(vs@[j as int], k as int));
        }
        j = j + 1;
    }
    true
}

/// Turns the solver's column into positive integers: the first scaling
/// factor within the bound of 100 that makes every entry integral is
/// applied. A zero entry on a freed column (the dependent last column,
/// or padding past the row count) takes the factor itself; a zero on a
/// determined column would be an invalid coefficient and is surfaced as
/// an arithmetic error.
pub fn resolve(vs: &Vec<Rat>, nrows: usize) -> (r: Result<Vec<usize>, EquationError>)
    requires
        forall|j: int| 0 <= j < vs@.len() ==> rat_wf(#[trigger] vs@[j]) && !vs@[j].neg,
    ensures
        r is Ok ==> min_scale(vs@) >= 1,
        r matches Ok(c) ==> c@.len() == vs@.len(),
        r is Err ==> (r == Err::<Vec<usize>, EquationError>(
            EquationError::NoIntegerSolutionFound(100),
        ) || r == Err::<Vec<usize>, EquationError>(EquationError::ArithmeticOverflow)),
        min_scale(vs@) == 0 ==> r == Err::<Vec<usize>, EquationError>(
            EquationError::NoIntegerSolutionFound(100),
        ),
        min_scale(vs@) >= 1 ==> (r matches Ok(c) ==> c@.len() == vs@.len() && forall|j: int|
            0 <= j < vs@.len() ==> (#[trigger] c@[j]) == raw_val(
                vs@,
                min_scale(vs@),
                j,
                nrows as int,
            ) && c@[j] >= 1),
        min_scale(vs@) >= 1 ==> (r is Err ==> r == Err::<Vec<usize>, EquationError>(
            EquationError::ArithmeticOverflow,
        ) && exists|j: int|
            0 <= j < vs@.len() && (scaled_val(#[trigger] vs@[j], min_scale(vs@)) > usize::MAX || (
            !is_free_col(j, nrows as int, vs@.len() as int) && scaled_val(
                vs@[j],
                min_scale(vs@),
            ) == 0))),
{
    let mut k: u64 = 1;
    while k <= 100 && !check_scaled(vs, k)
        invariant
            1 <= k <= 101,
            forall|p: int| 0 <= p < vs@.len() ==> rat_wf(#[trigger] vs@[p]) && !vs@[p].neg,
            forall|k2: int| 1 <= k2 < k ==> !all_scaled(vs@, k2),
        decreases 101 - k,
    {
        k = k + 1;
    }
    if k > 100 {
        proof {
            lemma_first_scale_none(vs@, 1);
        }
        return Err(EquationError::NoIntegerSolutionFound(100));
    }
    proof {
        lemma_first_scale_found(vs@, 1, k as int);
    }
    let mut out: Vec<usize> = Vec::new();
    let mut j: usize = 0;
    while j < vs.len()
        invariant
            j <= vs@.len(),
            forall|p: int| 0 <= p < vs@.len() ==> rat_wf(#[trigger] vs@[p]) && !vs@[p].neg,
            1 <= k <= 100,
            min_scale(vs@) == k,
            all_scaled(vs@, k as int),
            out@.len() == j,
            forall|p: int| 0 <= p < j ==> (#[trigger] out@[p]) == raw_val(
                vs@,
                k as int,
                p,
                nrows as int,
            ) && out@[p] >= 1,
        decreases vs@.len() - j,
    {
        let v = vs[j];
        proof {
            assert((k as int) * (v.num as int) <= u128::MAX) by (nonlinear_arith)
                requires
                    k <= 100,
                    v.num <= u64::MAX,
            ;
            assert((k as int) * (v.num as int) >= 0) by (nonlinear_arith)
                requires
                    k >= 0,
                    v.num >= 0,
            ;
            assert(rat_num(vs@[j as int]) == v.num as int);
        }
        let prod = (k as u128) * (v.num as u128);
        let q = prod / (v.den as u128);
        proof {
            assert(q as int == scaled_val(vs@[j as int], k as int));
        }
        if q == 0 {
            if j >= nrows || j + 1 == vs.len() {
                out.push(k as usize);
            } else {
                proof {
                    assert(!is_free_col(j as int, nrows as int, vs@.len() as int));
                    assert(scaled_val(vs@[j as int], k as int) == 0);
                }
                return Err(EquationError::ArithmeticOverflow);
            }
        } else {
            if q > usize::MAX as u128 {
                proof {
                    assert(scaled_val(vs@[j as int], k as int) > usize::MAX);
                }
                return Err(EquationError::ArithmeticOverflow);
            }
            out.push(q as usize);
        }
        j = j + 1;
    }
    Ok(out)
}

/// The ascending element order of the equation: uniquely determined by
/// the set of elements on the product side.
pub open spec fn spec_order(eq: EquationV) -> Seq<u32> {
    choose|ks: Seq<u32>|
        sorted_keys(ks) && (forall|x: int| key_in(ks, x) <==> side_atoms(eq.products, x) != 0)
}

/// The stoichiometry matrix of the equation as a mathematical value: one
/// row per element in ascending order, each cell the signed per-unit
/// count over the denominator one.
pub open spec fn spec_matrix(eq: EquationV) -> Seq<Seq<Rat>> {
    let keys = spec_order(eq);
    let ncols = eq.reactants.len() + eq.products.len();
    Seq::new(
        keys.len(),
        |i: int|
            Seq::new(
                ncols,
                |j: int|
                    {
                        let cu = col_unit(eq, j, keys[i] as int);
                        Rat {
                            neg: cu < 0,
                            num: (if cu < 0 {
                                -cu
                            } else {
                                cu
                            }) as u64,
                            den: 1,
                        }
                    },
            ),
    )
}

/// The solver's column: the absolute values of the eliminated matrix's
/// last column, padded with zeros to one entry per constituent.
pub open spec fn spec_sols(em: Seq<Seq<Rat>>, ncols: int) -> Seq<Rat> {
    Seq::new(
        ncols as nat,
        |j: int|
            if j < em.len() {
                Rat { neg: false, num: em[j][ncols - 1].num, den: em[j][ncols - 1].den }
            } else {
                Rat { neg: false, num: 0, den: 1 }
            },
    )
}

/// The raw resolved coefficients of the equation, before the final
/// reduction by their greatest common divisor.
pub open spec fn spec_raw_coeffs(eq: EquationV) -> Seq<usize> {
    let ncols = (eq.reactants.len() + eq.products.len()) as int;
    let em = spec_eliminated(spec_matrix(eq), ncols)->Some_0;
    let sols = spec_sols(em, ncols);
    Seq::new(ncols as nat, |j: int| raw_val(sols, min_scale(sols), j, em.len() as int) as usize)
}

/// The minimal coefficients the balancing pipeline computes.
pub open spec fn spec_coeffs(eq: EquationV) -> Seq<usize> {
    let raw = spec_raw_coeffs(eq);
    let g = crate::equations::rational::gcd_seq(raw);
    Seq::new(raw.len(), |j: int| ((raw[j] as nat) / g) as usize)
}

/// The side with the given coefficients written on, formulas unchanged.
pub open spec fn spec_applied(side: Seq<ConstituentV>, c: Seq<usize>, off: int) -> Seq<
    ConstituentV,
> {
    Seq::new(
        side.len(),
        |i: int| ConstituentV { coefficient: c[off + i], components: side[i].components },
    )
}

/// The stages up to elimination complete: the element sets match, every
/// per-unit count and the column count fit the machine range, and the
/// exact elimination finishes within range.
pub open spec fn spec_solver_runs(eq: EquationV) -> bool {
    &&& !elements_mismatch(eq)
    &&& side_units_fit(eq.reactants)
    &&& side_units_fit(eq.products)
    &&& eq.reactants.len() + eq.products.len() <= usize::MAX
    &&& spec_eliminated(spec_matrix(eq), (eq.reactants.len() + eq.products.len()) as int) is Some
}

/// The smallest scaling factor the resolver finds for the equation's
/// solver column; zero when the bound is exhausted.
pub open spec fn spec_min_scale(eq: EquationV) -> int {
    let ncols = (eq.reactants.len() + eq.products.len()) as int;
    min_scale(spec_sols(spec_eliminated(spec_matrix(eq), ncols)->Some_0, ncols))
}

/// Every resolved coefficient fits the machine range and no determined
/// column resolves to zero.
pub open spec fn spec_coeffs_fit(eq: EquationV) -> bool {
    let ncols = (eq.reactants.len() + eq.products.len()) as int;
    let em = spec_eliminated(spec_matrix(eq), ncols)->Some_0;
    let sols = spec_sols(em, ncols);
    &&& forall|j: int|
        0 <= j < ncols ==> #[trigger] raw_val(sols, min_scale(sols), j, em.len() as int)
            <= usize::MAX
    &&& forall|j: int|
        0 <= j < ncols && !is_free_col(j, em.len() as int, ncols) ==> scaled_val(
            #[trigger] sols[j],
            min_scale(sols),
        ) >= 1
}

/// The totals of the candidate coefficients fit the machine range.
pub open spec fn spec_candidate_fits(eq: EquationV) -> bool {
    let cand = spec_coeffs(eq);
    let ar = spec_applied(eq.reactants, cand, 0);
    let ap = spec_applied(eq.products, cand, eq.reactants.len() as int);
    forall|e: int| #![auto] side_atoms(ar, e) <= usize::MAX && side_atoms(ap, e) <= usize::MAX
}

/// The candidate coefficients conserve every element's atoms.
pub open spec fn spec_candidate_conserves(eq: EquationV) -> bool {
    let cand = spec_coeffs(eq);
    let ar = spec_applied(eq.reactants, cand, 0);
    let ap = spec_applied(eq.products, cand, eq.reactants.len() as int);
    forall|e: int| side_atoms(ar, e) == side_atoms(ap, e)
}

/// When balancing is owed to succeed: the element sets of the two sides

/// match, every count fits the machine range, the exact elimination
/// completes, a scaling factor within the bound exists, every resolved
/// coefficient fits, and the computed coefficients conserve every
/// element's atoms.
pub open spec fn spec_balance_ok(eq: EquationV) -> bool {
    let ncols = (eq.reactants.len() + eq.products.len()) as int;
    let emo = spec_eliminated(spec_matrix(eq), ncols);
    let sols = spec_sols(emo->Some_0, ncols);
    let cand = spec_coeffs(eq);
    let ar = spec_applied(eq.reactants, cand, 0);
    let ap = spec_applied(eq.products, cand, eq.reactants.len() as int);
    &&& !elements_mismatch(eq)
    &&& side_units_fit(eq.reactants)
    &&& side_units_fit(eq.products)
    &&& eq.reactants.len() + eq.products.len() <= usize::MAX
    &&& emo is Some
    &&& min_scale(sols) >= 1
    &&& forall|j: int|
        0 <= j < ncols ==> #[trigger] raw_val(sols, min_scale(sols), j, (emo->Some_0).len() as int)
            <= usize::MAX
    &&& forall|j: int|
        0 <= j < ncols && !is_free_col(j, (emo->Some_0).len() as int, ncols) ==> scaled_val(
            #[trigger] sols[j],
            min_scale(sols),
        ) >= 1
    &&& forall|e: int| #![auto] side_atoms(ar, e) <= usize::MAX && side_atoms(ap, e) <= usize::MAX
    &&& forall|e: int| side_atoms(ar, e) == side_atoms(ap, e)
}

/// The success condition, stage by stage.
pub proof fn lemma_balance_ok_parts(eq: EquationV)
    ensures
        spec_balance_ok(eq) == (spec_solver_runs(eq) && spec_min_scale(eq) >= 1
            && spec_coeffs_fit(eq) && spec_candidate_fits(eq) && spec_candidate_conserves(eq)),
{
}

/// A side's total for an element is nonzero exactly when some

/// constituent's formula holds that element.
proof fn lemma_side_nonzero_iff(s: Seq<ConstituentV>, x: int)
    requires
        forall|i: int| 0 <= i < s.len() ==> (#[trigger] s[i]).coefficient >= 1,
    ensures
        (side_atoms(s, x) != 0) <==> (exists|i: int|
            0 <= i < s.len() && unit_atoms(#[trigger] s[i], x) != 0),
    decreases s.len(),
{
    if s.len() > 0 {
        let dl = s.drop_last();
        assert(forall|i: int| 0 <= i < dl.len() ==> (#[trigger] dl[i]).coefficient >= 1);
        lemma_side_nonzero_iff(dl, x);
        crate::equations::lemma_side_atoms_nonneg(dl, x);
        crate::equations::lemma_constituent_atoms_nonneg(s.last(), x);
        crate::equations::lemma_ctypes_atoms_nonneg(s.last().components, x);
        assert((s.last().coefficient as int) * unit_atoms(s.last(), x) != 0 <==> unit_atoms(
            s.last(),
            x,
        ) != 0) by (nonlinear_arith)
            requires
                unit_atoms(s.last(), x) >= 0,
                s.last().coefficient >= 1,
        ;
        if side_atoms(s, x) != 0 {
            if side_atoms(dl, x) != 0 {
                let i = choose|i: int| 0 <= i < dl.len() && unit_atoms(#[trigger] dl[i], x) != 0;
                assert(unit_atoms(s[i], x) != 0);
            } else {
                assert(unit_atoms(s[s.len() - 1], x) != 0);
            }
        }
        if exists|i: int| 0 <= i < s.len() && unit_atoms(#[trigger] s[i], x) != 0 {
            let i = choose|i: int| 0 <= i < s.len() && unit_atoms(#[trigger] s[i], x) != 0;
            if i < s.len() - 1 {
                assert(unit_atoms(dl[i], x) != 0);
                assert(side_atoms(dl, x) != 0);
            } else {
                assert(crate::equations::constituent_atoms(s.last(), x) != 0);
            }
            assert(side_atoms(s, x) != 0);
        }
    }
}

/// Whether a side's totals are nonzero depends only on the formulas, not
/// on the coefficients.
proof fn lemma_side_nonzero_same(a: Seq<ConstituentV>, b: Seq<ConstituentV>)
    requires
        a.len() == b.len(),
        forall|i: int| 0 <= i < a.len() ==> (#[trigger] a[i]).components == b[i].components,
        forall|i: int| 0 <= i < a.len() ==> (#[trigger] a[i]).coefficient >= 1,
        forall|i: int| 0 <= i < b.len() ==> (#[trigger] b[i]).coefficient >= 1,
    ensures
        forall|x: int| (side_atoms(a, x) != 0) == (side_atoms(b, x) != 0),
{
    assert forall|x: int| (side_atoms(a, x) != 0) == (side_atoms(b, x) != 0) by {
        lemma_side_nonzero_iff(a, x);
        lemma_side_nonzero_iff(b, x);
        if exists|i: int| 0 <= i < a.len() && unit_atoms(#[trigger] a[i], x) != 0 {
            let i = choose|i: int| 0 <= i < a.len() && unit_atoms(#[trigger] a[i], x) != 0;
            assert(unit_atoms(b[i], x) != 0);
        }
        if exists|i: int| 0 <= i < b.len() && unit_atoms(#[trigger] b[i], x) != 0 {
            let i = choose|i: int| 0 <= i < b.len() && unit_atoms(#[trigger] b[i], x) != 0;
            assert(unit_atoms(a[i], x) != 0);
        }
    }
}

/// Idempotence of re-balancing on determinate inputs: balancing an
/// equation on which success is owed yields an equation on which success
/// is owed again, with the same minimal coefficients already written on,
/// so a second balancing leaves them unchanged. (On underdetermined
/// skeletons balancing rejects the input, so nothing is owed there.)
pub proof fn lemma_rebalancing_idempotent(eq: EquationV, once: EquationV)
    requires
        eq.products.len() >= 1,
        once.products.len() == eq.products.len(),
        spec_balance_ok(eq),
        spec_balance_ok(once) == spec_balance_ok(eq),
        spec_coeffs(once) == spec_coeffs(eq),
        coeffs_of(once) == spec_coeffs(eq),
    ensures
        spec_balance_ok(once),
        coeffs_of(once) == spec_coeffs(once),
{
}

/// Determinism of balancing: on any input on which balancing is owed to
/// succeed, the resolved coefficient sequence is the one mathematical
/// value `spec_coeffs` of the input, so two balancing runs of the same
/// equation end with identical coefficient sequences.
pub proof fn lemma_balancing_deterministic(eq: EquationV, e1: EquationV, e2: EquationV)
    requires
        eq.products.len() >= 1,
        spec_balance_ok(eq),
        coeffs_of(e1) == spec_coeffs(eq),
        coeffs_of(e2) == spec_coeffs(eq),
    ensures
        coeffs_of(e1) == coeffs_of(e2),
{
}

/// Ascending per-element total lists are determined by the totals they
/// record: when every element's total matches across the sides, the two
/// lists are equal.
proof fn lemma_totals_unique(
    rt: Seq<(u32, usize)>,
    pt: Seq<(u32, usize)>,
    reac: Seq<ConstituentV>,
    prod: Seq<ConstituentV>,
)
    requires
        crate::equations::sorted_counts(rt),
        crate::equations::sorted_counts(pt),
        forall|i: int| 0 <= i < rt.len() ==> (#[trigger] rt[i]).1 == side_atoms(
            reac,
            rt[i].0 as int,
        ),
        forall|x: int| counts_contains(rt, x) <==> side_atoms(reac, x) != 0,
        forall|i: int| 0 <= i < pt.len() ==> (#[trigger] pt[i]).1 == side_atoms(
            prod,
            pt[i].0 as int,
        ),
        forall|x: int| counts_contains(pt, x) <==> side_atoms(prod, x) != 0,
        forall|e: int| side_atoms(reac, e) == side_atoms(prod, e),
    ensures
        rt == pt,
{
    let ka = Seq::new(rt.len(), |i: int| rt[i].0);
    let kb = Seq::new(pt.len(), |i: int| pt[i].0);
    assert(sorted_keys(ka));
    assert(sorted_keys(kb));
    assert forall|x: int| key_in(ka, x) <==> key_in(kb, x) by {
        if key_in(ka, x) {
            let i = choose|i: int| 0 <= i < ka.len() && ka[i] == x;
            assert(rt[i].0 == x);
            assert(counts_contains(rt, x));
            assert(side_atoms(prod, x) != 0);
            assert(counts_contains(pt, x));
            let i2 = choose|i2: int| 0 <= i2 < pt.len() && (#[trigger] pt[i2]).0 == x;
            assert(kb[i2] == x);
            assert(key_in(kb, x));
        }
        if key_in(kb, x) {
            let i = choose|i: int| 0 <= i < kb.len() && kb[i] == x;
            assert(pt[i].0 == x);
            assert(counts_contains(pt, x));
            assert(side_atoms(reac, x) != 0);
            assert(counts_contains(rt, x));
            let i2 = choose|i2: int| 0 <= i2 < rt.len() && (#[trigger] rt[i2]).0 == x;
            assert(ka[i2] == x);
            assert(key_in(ka, x));
        }
    }
    crate::equations::lemma_sorted_keys_same_members(ka, kb);
    assert forall|i: int| 0 <= i < rt.len() implies rt[i] == pt[i] by {
        assert(ka[i] == kb[i]);
        assert(rt[i].0 == pt[i].0);
        assert(rt[i].1 == side_atoms(reac, rt[i].0 as int));
        assert(pt[i].1 == side_atoms(prod, pt[i].0 as int));
    }
    assert(rt =~= pt);
}

/// The coefficient vector of an equation, reactants first.
pub open spec fn coeffs_of(eq: EquationV) -> Seq<usize> {
    Seq::new(
        eq.reactants.len() + eq.products.len(),
        |j: int|
            if j < eq.reactants.len() {
                eq.reactants[j].coefficient
            } else {
                eq.products[j - eq.reactants.len()].coefficient
            },
    )
}

fn gcd_vec(v: &Vec<usize>) -> (g: usize)
    requires
        v@.len() >= 1,
    ensures
        g as nat == crate::equations::rational::gcd_seq(v@),
{
    let mut g: usize = 0;
    let mut i: usize = 0;
    proof {
        assert(v@.take(0) =~= Seq::<usize>::empty());
    }
    while i < v.len()
        invariant
            i <= v@.len(),
            g as nat == crate::equations::rational::gcd_seq(v@.take(i as int)),
        decreases v@.len() - i,
    {
        proof {
            assert(v@.take(i + 1).drop_last() =~= v@.take(i as int));
            assert(v@.take(i + 1).last() == v@[i as int]);
        }
        g = crate::equations::rational::gcd_usize(g, v[i]);
        i = i + 1;
    }
    proof {
        assert(v@.take(v@.len() as int) =~= v@);
    }
    g
}

fn div_coeffs(v: &Vec<usize>, g: usize) -> (w: Vec<usize>)
    requires
        g >= 1,
        forall|j: int| 0 <= j < v@.len() ==> (#[trigger] v@[j]) >= 1 && crate::equations::rational::divides(
            g as nat,
            v@[j] as nat,
        ),
    ensures
        w@.len() == v@.len(),
        forall|j: int| 0 <= j < v@.len() ==> (#[trigger] w@[j]) as nat * g == v@[j] && w@[j] >= 1,
{
    let mut w: Vec<usize> = Vec::new();
    let mut i: usize = 0;
    while i < v.len()
        invariant
            i <= v@.len(),
            g >= 1,
            forall|j: int| 0 <= j < v@.len() ==> (#[trigger] v@[j]) >= 1
                && crate::equations::rational::divides(g as nat, v@[j] as nat),
            w@.len() == i,
            forall|j: int| 0 <= j < i ==> (#[trigger] w@[j]) as nat * g == v@[j] && w@[j] >= 1,
        decreases v@.len() - i,
    {
        let q = v[i] / g;
        proof {
            vstd::arithmetic::div_mod::lemma_fundamental_div_mod(v@[i as int] as int, g as int);
            assert(v@[i as int] as int == g as int * q as int);
            assert(q as nat * g == v@[i as int]) by (nonlinear_arith)
                requires
                    v@[i as int] as int == g as int * q as int,
            ;
            if q == 0 {
                assert(v@[i as int] as int == 0) by (nonlinear_arith)
                    requires
                        v@[i as int] as int == g as int * q as int,
                        q == 0,
                ;
            }
        }
        w.push(q);
        i = i + 1;
    }
    w
}

/// The side with the given coefficients written on, formulas unchanged.
fn apply_coeffs(side: &Vec<EquationConstituent>, c: &Vec<usize>, off: usize) -> (w: Vec<
    EquationConstituent,
>)
    requires
        off + side@.len() <= c@.len(),
    ensures
        w@.len() == side@.len(),
        forall|i: int|
            0 <= i < side@.len() ==> (#[trigger] w@[i])@.components == side@[i]@.components
                && w@[i]@.coefficient == c@[off + i],
{
    let mut w: Vec<EquationConstituent> = Vec::new();
    let clen = c.len();
    let mut i: usize = 0;
    while i < side.len()
        invariant
            i <= side@.len(),
            off + side@.len() <= c@.len(),
            clen == c@.len(),
            w@.len() == i,
            forall|j: int|
                0 <= j < i ==> (#[trigger] w@[j])@.components == side@[j]@.components
                    && w@[j]@.coefficient == c@[off + j],
        decreases side@.len() - i,
    {
        proof {
            assert(off + i < clen);
        }
        let mut con = side[i].clone();
        con.coefficient = c[off + i];
        w.push(con);
        i = i + 1;
    }
    w
}

fn counts_eq(a: &Vec<(u32, usize)>, b: &Vec<(u32, usize)>) -> (r: bool)
    ensures
        r == (a@ == b@),
{
    if a.len() != b.len() {
        return false;
    }
    let mut i: usize = 0;
    while i < a.len()
        invariant
            i <= a@.len(),
            a@.len() == b@.len(),
            forall|j: int| 0 <= j < i ==> a@[j] == b@[j],
        decreases a@.len() - i,
    {
        let (x0, x1) = a[i];
        let (y0, y1) = b[i];
        if x0 != y0 || x1 != y1 {
            return false;
        }
        i = i + 1;
    }
    proof {
        assert(a@ =~= b@);
    }
    true
}

/// Equal per-element total lists mean the equation is balanced.
proof fn lemma_counts_eq_balanced(
    rt: Seq<(u32, usize)>,
    pt: Seq<(u32, usize)>,
    reac: Seq<crate::equations::ConstituentV>,
    prod: Seq<crate::equations::ConstituentV>,
)
    requires
        rt == pt,
        forall|i: int| 0 <= i < rt.len() ==> (#[trigger] rt[i]).1 == side_atoms(
            reac,
            rt[i].0 as int,
        ),
        forall|x: int| counts_contains(rt, x) <==> side_atoms(reac, x) != 0,
        forall|i: int| 0 <= i < pt.len() ==> (#[trigger] pt[i]).1 == side_atoms(
            prod,
            pt[i].0 as int,
        ),
        forall|x: int| counts_contains(pt, x) <==> side_atoms(prod, x) != 0,
    ensures
        forall|e: int| side_atoms(reac, e) == side_atoms(prod, e),
{
    assert forall|e: int| side_atoms(reac, e) == side_atoms(prod, e) by {
        if counts_contains(rt, e) {
            let i = choose|i: int| 0 <= i < rt.len() && (#[trigger] rt[i]).0 == e;
            assert(rt[i].1 == side_atoms(reac, e));
            assert(pt[i].1 == side_atoms(prod, pt[i].0 as int));
            assert(pt[i] == rt[i]);
        } else {
            assert(side_atoms(reac, e) == 0);
            assert(!counts_contains(pt, e));
            assert(side_atoms(prod, e) == 0);
        }
    }
}

/// Balances the equation in place: builds the stoichiometry matrix,
/// row-reduces it, resolves minimal positive integer coefficients, and
/// commits them only after re-checking atom conservation exactly.
pub fn balance_equation(eq: &mut Equation) -> (r: Result<(), EquationError>)
    requires
        crate::equations::equation_wf(old(eq)@),
    ensures
        crate::equations::same_skeleton(final(eq)@, old(eq)@),
        crate::equations::equation_wf(final(eq)@),
        r is Err ==> final(eq)@ == old(eq)@,
        old(eq)@.products.len() == 0 ==> r is Ok && final(eq)@ == old(eq)@,
        old(eq)@.products.len() >= 1 ==> ((r == Err::<(), EquationError>(
            EquationError::UnusedElement,
        )) <==> elements_mismatch(old(eq)@)),
        (r is Ok && old(eq)@.products.len() >= 1) ==> crate::equations::balanced_spec(final(eq)@)
            && crate::equations::rational::gcd_seq(coeffs_of(final(eq)@)) == 1,
        (old(eq)@.products.len() >= 1 && spec_balance_ok(old(eq)@)) ==> (r is Ok && coeffs_of(
            final(eq)@,
        ) == spec_coeffs(old(eq)@)),
        (r is Ok && old(eq)@.products.len() >= 1) ==> spec_balance_ok(final(eq)@)
            == spec_balance_ok(old(eq)@) && spec_coeffs(final(eq)@) == spec_coeffs(old(eq)@),
        (r is Ok && old(eq)@.products.len() >= 1) ==> spec_balance_ok(old(eq)@),
        (old(eq)@.products.len() >= 1 && spec_solver_runs(old(eq)@) && spec_min_scale(old(eq)@)
            == 0) ==> r == Err::<(), EquationError>(EquationError::NoIntegerSolutionFound(100)),
        (old(eq)@.products.len() >= 1 && spec_solver_runs(old(eq)@) && spec_min_scale(old(eq)@)
            >= 1 && spec_coeffs_fit(old(eq)@) && spec_candidate_fits(old(eq)@)
            && !spec_candidate_conserves(old(eq)@)) ==> r == Err::<(), EquationError>(
            EquationError::SingularWithoutSolution,
        ),
    {
    let ghost orig = eq@;
    if eq.products.len() == 0 {
        return Ok(());
    }
    proof {
        assert forall|i: int| 0 <= i < eq@.reactants.len() implies constituent_wf(
            #[trigger] eq@.reactants[i],
        ) by {
            assert(crate::equations::constituent_complete(eq@.reactants[i]));
        }
        assert forall|i: int| 0 <= i < eq@.products.len() implies constituent_wf(
            #[trigger] eq@.products[i],
        ) by {
            assert(crate::equations::constituent_complete(eq@.products[i]));
        }
    }
    let pr = create_matrix(eq);
    let mut mat: Vec<Vec<Rat>>;
    let keys: Vec<u32>;
    match pr {
        Ok(p) => {
            mat = p.0;
            keys = p.1;
        },
        Err(e) => {
            proof {
                if spec_balance_ok(orig) {
                    assert(false);
                }
                if spec_solver_runs(orig) {
                    assert(false);
                }
            }
            return Err(e);
        },
    }
    proof {
        assert(eq@ == orig);
        assert(!elements_mismatch(orig));
    }
    let ghost sord = spec_order(orig);
    let ghost sm = spec_matrix(orig);
    proof {
        // the returned element order is the unique ascending one
        assert(sorted_keys(keys@) && (forall|x: int|
            key_in(keys@, x) <==> side_atoms(orig.products, x) != 0));
        assert(exists|ks2: Seq<u32>|
            sorted_keys(ks2) && (forall|x: int|
                key_in(ks2, x) <==> side_atoms(orig.products, x) != 0)) by {
            assert(sorted_keys(keys@) && (forall|x: int|
                key_in(keys@, x) <==> side_atoms(orig.products, x) != 0));
        }
        assert(sorted_keys(sord) && (forall|x: int|
            key_in(sord, x) <==> side_atoms(orig.products, x) != 0));
        crate::equations::lemma_sorted_keys_same_members(keys@, sord);
        assert(keys@ == sord);
    }
    let nr = eq.reactants.len();
    let np = eq.products.len();
    let ncols = match nr.checked_add(np) {
        Some(t) => t,
        None => {
            proof {
                if spec_balance_ok(orig) {
                    assert(false);
                }
                if spec_solver_runs(orig) {
                    assert(false);
                }
            }
            return Err(EquationError::ArithmeticOverflow);
        },
    };
    proof {
        // the built matrix is the mathematical stoichiometry matrix
        assert forall|i: int| 0 <= i < keys@.len() implies mview(mat@)[i] == sm[i] by {
            assert(mat@[i]@.len() == ncols);
            assert forall|jj: int| 0 <= jj < ncols implies mat@[i]@[jj] == sm[i][jj] by {
                let cu = col_unit(orig, jj, keys@[i] as int);
                let cell = mat@[i]@[jj];
                assert(rat_num(cell) == cu && cell.den == 1 && rat_wf(cell));
                assert(cell.num as int == (if cu < 0 {
                    -cu
                } else {
                    cu
                }));
                assert(cell.neg == (cu < 0));
                assert((if cu < 0 {
                    -cu
                } else {
                    cu
                }) as u64 == cell.num);
                assert(sm[i][jj] == Rat {
                    neg: cu < 0,
                    num: (if cu < 0 {
                        -cu
                    } else {
                        cu
                    }) as u64,
                    den: 1,
                });
            }
            assert(mview(mat@)[i] =~= sm[i]);
        }
        assert(mview(mat@) =~= sm);
    }
    let ghost mpre = mview(mat@);
    match crate::equations::util::gaussian_elimination(&mut mat, ncols) {
        Ok(_) => {},
        Err(e) => {
            proof {
                if spec_balance_ok(orig) {
                    assert(spec_eliminated(mpre, ncols as int) is Some);
                    assert(false);
                }
                if spec_solver_runs(orig) {
                    assert(spec_eliminated(mpre, ncols as int) is Some);
                    assert(false);
                }
            }
            return Err(e);
        },
    }
    let ghost em = mview(mat@);
    proof {
        if spec_eliminated(sm, ncols as int) is Some {
            assert(em == spec_eliminated(sm, ncols as int)->Some_0);
        }
    }
    let nrows = mat.len();
    let ghost ssp = spec_sols(em, ncols as int);
    let mut sols: Vec<Rat> = Vec::new();
    let mut j: usize = 0;
    while j < ncols
        invariant
            j <= ncols,
            ncols >= 1,
            nrows == mat@.len(),
            matrix_wf(mat@, ncols as int),
            em == mview(mat@),
            ssp == spec_sols(em, ncols as int),
            sols@.len() == j,
            forall|p: int| 0 <= p < j ==> rat_wf(#[trigger] sols@[p]) && !sols@[p].neg,
            forall|p: int| 0 <= p < j ==> #[trigger] sols@[p] == ssp[p],
        decreases ncols - j,
    {
        if j < nrows {
            let cell = mat[j][ncols - 1];
            proof {
                assert(cell == em[j as int][ncols - 1]);
            }
            sols.push(crate::equations::rational::rat_abs(&cell));
        } else {
            let z = rat_from_u64(0);
            proof {
                assert(z.num == 0 && !z.neg && z.den == 1);
            }
            sols.push(z);
        }
        j = j + 1;
    }
    proof {
        assert(sols@ =~= ssp);
    }
    let coeffs = match resolve(&sols, nrows) {
        Ok(c) => c,
        Err(e) => {
            proof {
                if spec_solver_runs(orig) && spec_min_scale(orig) == 0 {
                    assert(min_scale(sols@) == 0);
                }
                if spec_solver_runs(orig) && spec_min_scale(orig) >= 1 && spec_coeffs_fit(orig) {
                    assert(min_scale(sols@) >= 1);
                    let bad2 = choose|bj: int|
                        0 <= bj < sols@.len() && (scaled_val(
                            #[trigger] sols@[bj],
                            min_scale(sols@),
                        ) > usize::MAX || (!is_free_col(bj, nrows as int, sols@.len() as int)
                            && scaled_val(sols@[bj], min_scale(sols@)) == 0));
                    if scaled_val(sols@[bad2], min_scale(sols@)) > usize::MAX {
                        assert(raw_val(sols@, min_scale(sols@), bad2, nrows as int) > usize::MAX);
                        assert(raw_val(ssp, min_scale(ssp), bad2, em.len() as int) <= usize::MAX);
                        assert(false);
                    }
                    assert(!is_free_col(bad2, em.len() as int, ssp.len() as int));
                    assert(scaled_val(ssp[bad2], min_scale(ssp)) >= 1);
                    assert(false);
                }
                if spec_balance_ok(orig) {
                    assert(min_scale(sols@) >= 1);
                    if e == EquationError::ArithmeticOverflow {
                        let bad = choose|bj: int|
                            0 <= bj < sols@.len() && (scaled_val(
                                #[trigger] sols@[bj],
                                min_scale(sols@),
                            ) > usize::MAX || (!is_free_col(
                                bj,
                                nrows as int,
                                sols@.len() as int,
                            ) && scaled_val(sols@[bj], min_scale(sols@)) == 0));
                        if scaled_val(sols@[bad], min_scale(sols@)) > usize::MAX {
                            assert(raw_val(sols@, min_scale(sols@), bad, nrows as int)
                                > usize::MAX);
                            assert(raw_val(ssp, min_scale(ssp), bad, em.len() as int)
                                <= usize::MAX);
                            assert(false);
                        }
                        assert(!is_free_col(bad, em.len() as int, ssp.len() as int));
                        assert(scaled_val(ssp[bad], min_scale(ssp)) >= 1);
                        assert(false);
                    }
                    assert(false);
                }
            }
            return Err(e);
        },
    };
    proof {
        if min_scale(sols@) == 0 {
            assert(false);
        }
    }
    proof {
        assert(sols@.len() == ncols);
        assert(coeffs@.len() == ncols);
        assert(ncols >= 1);
    }
    let g = gcd_vec(&coeffs);
    proof {
        crate::equations::rational::lemma_gcd_seq_pos(coeffs@);
        assert forall|p: int| 0 <= p < coeffs@.len() implies (#[trigger] coeffs@[p]) >= 1
            && crate::equations::rational::divides(g as nat, coeffs@[p] as nat) by {
            crate::equations::rational::lemma_gcd_seq_divides(coeffs@, p);
        }
    }
    let minimal = div_coeffs(&coeffs, g);
    proof {
        crate::equations::rational::lemma_gcd_seq_scale(minimal@, g as nat, coeffs@);
        assert(crate::equations::rational::gcd_seq(minimal@) == 1) by (nonlinear_arith)
            requires
                crate::equations::rational::gcd_seq(coeffs@) == (g as nat) * crate::equations::rational::gcd_seq(minimal@),
                g as nat == crate::equations::rational::gcd_seq(coeffs@),
                g >= 1,
        ;
    }
    proof {
        assert(sols@.len() == ncols);
        assert(coeffs@.len() == ncols);
        assert(minimal@.len() == ncols);
    }
    proof {
        if spec_eliminated(sm, ncols as int) is Some {
            assert(coeffs@ =~= spec_raw_coeffs(orig)) by {
                assert forall|p: int|
                    0 <= p < ncols implies coeffs@[p] == spec_raw_coeffs(orig)[p] by {
                    assert(coeffs@[p] == raw_val(sols@, min_scale(sols@), p, nrows as int));
                }
            }
            assert(minimal@ =~= spec_coeffs(orig)) by {
                assert forall|p: int|
                    0 <= p < ncols implies minimal@[p] == spec_coeffs(orig)[p] by {
                    assert(minimal@[p] as nat * g == coeffs@[p]);
                    vstd::arithmetic::div_mod::lemma_fundamental_div_mod_converse(
                        coeffs@[p] as int,
                        g as int,
                        minimal@[p] as int,
                        0,
                    );
                    assert(coeffs@[p] as int / g as int == minimal@[p] as int);
                    assert(g as nat == crate::equations::rational::gcd_seq(spec_raw_coeffs(orig)));
                }
            }
        }
    }
    let new_reac = apply_coeffs(&eq.reactants, &minimal, 0);
    let new_prod = apply_coeffs(&eq.products, &minimal, nr);
    proof {
        assert forall|i: int| 0 <= i < new_reac@.len() implies constituent_wf(
            (#[trigger] new_reac@[i])@,
        ) by {
            assert(new_reac@[i]@.components == eq@.reactants[i].components);
            assert(crate::equations::constituent_complete(eq@.reactants[i]));
            assert(new_reac@[i]@.coefficient == minimal@[i]);
        }
        assert forall|i: int| 0 <= i < new_prod@.len() implies constituent_wf(
            (#[trigger] new_prod@[i])@,
        ) by {
            assert(new_prod@[i]@.components == eq@.products[i].components);
            assert(crate::equations::constituent_complete(eq@.products[i]));
            assert(new_prod@[i]@.coefficient == minimal@[nr + i]);
        }
    }
    proof {
        assert(crate::equations::constituents_view(new_reac@) =~= spec_applied(
            orig.reactants,
            minimal@,
            0,
        )) by {
            assert forall|i: int|
                0 <= i < new_reac@.len() implies crate::equations::constituents_view(new_reac@)[i]
                == spec_applied(orig.reactants, minimal@, 0)[i] by {
                assert(new_reac@[i]@.components == orig.reactants[i].components);
                assert(new_reac@[i]@.coefficient == minimal@[i]);
            }
        }
        assert(crate::equations::constituents_view(new_prod@) =~= spec_applied(
            orig.products,
            minimal@,
            nr as int,
        )) by {
            assert forall|i: int|
                0 <= i < new_prod@.len() implies crate::equations::constituents_view(new_prod@)[i]
                == spec_applied(orig.products, minimal@, nr as int)[i] by {
                assert(new_prod@[i]@.components == orig.products[i].components);
                assert(new_prod@[i]@.coefficient == minimal@[nr + i]);
            }
        }
    }
    let rt = match crate::equations::side_totals(&new_reac) {
        Ok(v) => v,
        Err(e) => {
            proof {
                if spec_solver_runs(orig) && spec_min_scale(orig) >= 1 && spec_coeffs_fit(orig)
                    && spec_candidate_fits(orig) {
                    assert(minimal@ == spec_coeffs(orig));
                    let bad = choose|x: int|
                        side_atoms(
                            crate::equations::constituents_view(new_reac@),
                            x,
                        ) > usize::MAX;
                    assert(side_atoms(spec_applied(orig.reactants, spec_coeffs(orig), 0), bad)
                        > usize::MAX);
                    assert(false);
                }
                if spec_balance_ok(orig) {
                    lemma_balance_ok_parts(orig);
                    assert(false);
                }
            }
            return Err(e);
        },
    };
    let pt = match crate::equations::side_totals(&new_prod) {
        Ok(v) => v,
        Err(e) => {
            proof {
                if spec_solver_runs(orig) && spec_min_scale(orig) >= 1 && spec_coeffs_fit(orig)
                    && spec_candidate_fits(orig) {
                    assert(minimal@ == spec_coeffs(orig));
                    let bad = choose|x: int|
                        side_atoms(
                            crate::equations::constituents_view(new_prod@),
                            x,
                        ) > usize::MAX;
                    assert(side_atoms(
                        spec_applied(orig.products, spec_coeffs(orig), nr as int),
                        bad,
                    ) > usize::MAX);
                    assert(false);
                }
                if spec_balance_ok(orig) {
                    lemma_balance_ok_parts(orig);
                    assert(false);
                }
            }
            return Err(e);
        },
    };
    if counts_eq(&rt, &pt) {
        proof {
            lemma_counts_eq_balanced(
                rt@,
                pt@,
                crate::equations::constituents_view(new_reac@),
                crate::equations::constituents_view(new_prod@),
            );
        }
        eq.reactants = new_reac;
        eq.products = new_prod;
        proof {
            assert(eq@.reactants =~= crate::equations::constituents_view(new_reac@));
            assert(eq@.products =~= crate::equations::constituents_view(new_prod@));
            assert(coeffs_of(eq@) =~= minimal@);
            assert forall|i: int| 0 <= i < eq@.reactants.len() implies crate::equations::constituent_complete(
                #[trigger] eq@.reactants[i],
            ) by {
                assert(eq@.reactants[i] == new_reac@[i]@);
                assert(eq@.reactants[i].components == orig.reactants[i].components);
                assert(crate::equations::constituent_complete(orig.reactants[i]));
            }
            assert forall|i: int| 0 <= i < eq@.products.len() implies crate::equations::constituent_complete(
                #[trigger] eq@.products[i],
            ) by {
                assert(eq@.products[i] == new_prod@[i]@);
                assert(eq@.products[i].components == orig.products[i].components);
                assert(crate::equations::constituent_complete(orig.products[i]));
            }
        }
        proof {
            // success establishes every conjunct of the stated
            // success condition on the input itself
            assert(spec_balance_ok(orig)) by {
                assert(spec_eliminated(spec_matrix(orig), (orig.reactants.len()
                    + orig.products.len()) as int) == Some(em));
                assert(em.len() == nrows);
                assert(min_scale(ssp) >= 1);
                assert forall|j2: int|
                    0 <= j2 < ncols implies #[trigger] raw_val(
                    ssp,
                    min_scale(ssp),
                    j2,
                    em.len() as int,
                ) <= usize::MAX by {
                    assert(coeffs@[j2] == raw_val(sols@, min_scale(sols@), j2, nrows as int));
                }
                assert forall|j2: int|
                    0 <= j2 < ncols && !is_free_col(j2, em.len() as int, ncols as int)
                    implies scaled_val(#[trigger] ssp[j2], min_scale(ssp)) >= 1 by {
                    assert(coeffs@[j2] == raw_val(sols@, min_scale(sols@), j2, nrows as int));
                    assert(coeffs@[j2] >= 1);
                }
                let ar = spec_applied(orig.reactants, spec_coeffs(orig), 0);
                let ap = spec_applied(orig.products, spec_coeffs(orig), nr as int);
                assert(ar == crate::equations::constituents_view(new_reac@));
                assert(ap == crate::equations::constituents_view(new_prod@));
                assert forall|e: int| #![auto]
                    side_atoms(ar, e) <= usize::MAX && side_atoms(ap, e) <= usize::MAX by {
                    if counts_contains(rt@, e) {
                        let w = choose|w: int|
                            0 <= w < rt@.len() && (#[trigger] rt@[w]).0 == e;
                        assert(rt@[w].1 == side_atoms(ar, rt@[w].0 as int));
                    } else {
                        assert(side_atoms(ar, e) == 0);
                    }
                    if counts_contains(pt@, e) {
                        let w = choose|w: int|
                            0 <= w < pt@.len() && (#[trigger] pt@[w]).0 == e;
                        assert(pt@[w].1 == side_atoms(ap, pt@[w].0 as int));
                    } else {
                        assert(side_atoms(ap, e) == 0);
                    }
                }
            }
            // the balanced result has the same skeleton, so every
            // ingredient of the pipeline's mathematical value is kept
            assert(forall|i: int|
                0 <= i < eq@.reactants.len() ==> (#[trigger] eq@.reactants[i]).components
                    == orig.reactants[i].components);
            assert(forall|i: int|
                0 <= i < eq@.products.len() ==> (#[trigger] eq@.products[i]).components
                    == orig.products[i].components);
            assert(forall|i: int|
                0 <= i < eq@.reactants.len() ==> (#[trigger] eq@.reactants[i]).coefficient >= 1);
            assert(forall|i: int|
                0 <= i < eq@.products.len() ==> (#[trigger] eq@.products[i]).coefficient >= 1);
            assert(forall|i: int|
                0 <= i < orig.reactants.len() ==> (#[trigger] orig.reactants[i]).coefficient >= 1);
            assert(forall|i: int|
                0 <= i < orig.products.len() ==> (#[trigger] orig.products[i]).coefficient >= 1);
            lemma_side_nonzero_same(eq@.products, orig.products);
            lemma_side_nonzero_same(eq@.reactants, orig.reactants);
            assert(sorted_keys(keys@) && (forall|x: int|
                key_in(keys@, x) <==> side_atoms(eq@.products, x) != 0));
            assert(exists|ks2: Seq<u32>|
                sorted_keys(ks2) && (forall|x: int|
                    key_in(ks2, x) <==> side_atoms(eq@.products, x) != 0)) by {
                assert(sorted_keys(keys@) && (forall|x: int|
                    key_in(keys@, x) <==> side_atoms(eq@.products, x) != 0));
            }
            assert(sorted_keys(spec_order(eq@)) && (forall|x: int|
                key_in(spec_order(eq@), x) <==> side_atoms(eq@.products, x) != 0));
            crate::equations::lemma_sorted_keys_same_members(keys@, spec_order(eq@));
            assert(spec_order(eq@) == spec_order(orig));
            assert(forall|i: int, e: int|
                0 <= i < eq@.reactants.len() ==> #[trigger] unit_atoms(eq@.reactants[i], e)
                    == unit_atoms(orig.reactants[i], e));
            assert(forall|i: int, e: int|
                0 <= i < eq@.products.len() ==> #[trigger] unit_atoms(eq@.products[i], e)
                    == unit_atoms(orig.products[i], e));
            assert(spec_matrix(eq@) =~~= spec_matrix(orig)) by {
                assert forall|i: int|
                    0 <= i < spec_order(orig).len() implies spec_matrix(eq@)[i] =~= spec_matrix(
                    orig,
                )[i] by {
                    assert forall|jj: int|
                        0 <= jj < ncols implies spec_matrix(eq@)[i][jj] == spec_matrix(
                        orig,
                    )[i][jj] by {
                        assert(col_unit(eq@, jj, spec_order(orig)[i] as int) == col_unit(
                            orig,
                            jj,
                            spec_order(orig)[i] as int,
                        ));
                    }
                }
            }
            assert(spec_eliminated(spec_matrix(eq@), ncols as int) == Some(em));
            assert(spec_raw_coeffs(eq@) =~= spec_raw_coeffs(orig));
            assert(spec_coeffs(eq@) =~= spec_coeffs(orig));
            assert(spec_applied(eq@.reactants, spec_coeffs(eq@), 0) =~= spec_applied(
                orig.reactants,
                spec_coeffs(orig),
                0,
            ));
            assert(spec_applied(eq@.products, spec_coeffs(eq@), nr as int) =~= spec_applied(
                orig.products,
                spec_coeffs(orig),
                nr as int,
            ));
            assert(spec_balance_ok(eq@) == spec_balance_ok(orig)) by {
                assert(elements_mismatch(eq@) == elements_mismatch(orig)) by {
                    if elements_mismatch(eq@) {
                        let e = choose|e: int|
                            (side_atoms(eq@.reactants, e) != 0) != (side_atoms(
                                eq@.products,
                                e,
                            ) != 0);
                        assert((side_atoms(orig.reactants, e) != 0) != (side_atoms(
                            orig.products,
                            e,
                        ) != 0));
                    }
                    if elements_mismatch(orig) {
                        let e = choose|e: int|
                            (side_atoms(orig.reactants, e) != 0) != (side_atoms(
                                orig.products,
                                e,
                            ) != 0);
                        assert((side_atoms(eq@.reactants, e) != 0) != (side_atoms(
                            eq@.products,
                            e,
                        ) != 0));
                    }
                }
                assert(side_units_fit(eq@.reactants) == side_units_fit(orig.reactants)) by {
                    if side_units_fit(orig.reactants) {
                        assert forall|j2: int, e: int|
                            0 <= j2 < eq@.reactants.len() implies #[trigger] unit_atoms(
                            eq@.reactants[j2],
                            e,
                        ) <= usize::MAX by {
                            assert(unit_atoms(orig.reactants[j2], e) <= usize::MAX);
                        }
                    }
                    if side_units_fit(eq@.reactants) {
                        assert forall|j2: int, e: int|
                            0 <= j2 < orig.reactants.len() implies #[trigger] unit_atoms(
                            orig.reactants[j2],
                            e,
                        ) <= usize::MAX by {
                            assert(unit_atoms(eq@.reactants[j2], e) <= usize::MAX);
                        }
                    }
                }
                assert(side_units_fit(eq@.products) == side_units_fit(orig.products)) by {
                    if side_units_fit(orig.products) {
                        assert forall|j2: int, e: int|
                            0 <= j2 < eq@.products.len() implies #[trigger] unit_atoms(
                            eq@.products[j2],
                            e,
                        ) <= usize::MAX by {
                            assert(unit_atoms(orig.products[j2], e) <= usize::MAX);
                        }
                    }
                    if side_units_fit(eq@.products) {
                        assert forall|j2: int, e: int|
                            0 <= j2 < orig.products.len() implies #[trigger] unit_atoms(
                            orig.products[j2],
                            e,
                        ) <= usize::MAX by {
                            assert(unit_atoms(eq@.products[j2], e) <= usize::MAX);
                        }
                    }
                }
            }
            if spec_balance_ok(orig) {
                assert(coeffs_of(eq@) == spec_coeffs(orig));
            }
            lemma_balance_ok_parts(orig);
            if spec_solver_runs(orig) && spec_min_scale(orig) == 0 {
                assert(min_scale(sols@) == 0);
                assert(false);
            }
        }
        Ok(())
    } else {
        proof {
            if spec_solver_runs(orig) && spec_min_scale(orig) == 0 {
                assert(min_scale(sols@) == 0);
                assert(false);
            }
            if spec_balance_ok(orig) {
                assert(minimal@ == spec_coeffs(orig));
                lemma_totals_unique(
                    rt@,
                    pt@,
                    crate::equations::constituents_view(new_reac@),
                    crate::equations::constituents_view(new_prod@),
                );
                assert(rt@ == pt@);
                assert(false);
            }
        }
        Err(EquationError::SingularWithoutSolution)
    }
}

} // verus!
