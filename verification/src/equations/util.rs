//! Gauss-Jordan elimination over exact rationals. The whole reduction is
//! mirrored by spec functions, so the eliminated matrix is fixed by the
//! contract as a function of the input matrix.

use vstd::prelude::*;

use crate::equations::rational::{
    rat_div, rat_is_zero, rat_mul, rat_num, rat_sub, rat_wf, spec_rat_div, spec_rat_mul,
    spec_rat_sub, Rat,
};
use crate::equations::EquationError;

verus! {

pub open spec fn row_wf(r: Seq<Rat>) -> bool {
    forall|j: int| 0 <= j < r.len() ==> rat_wf(#[trigger] r[j])
}

pub open spec fn matrix_wf(m: Seq<Vec<Rat>>, cols: int) -> bool {
    forall|i: int|
        0 <= i < m.len() ==> (#[trigger] m[i])@.len() == cols && row_wf(m[i]@)
}

/// The rows of the matrix as plain sequences.
pub open spec fn mview(m: Seq<Vec<Rat>>) -> Seq<Seq<Rat>> {
    Seq::new(m.len(), |i: int| m[i]@)
}

/// The row divided entrywise by the pivot value; `None` when any reduced
/// entry leaves the machine range.
pub open spec fn spec_row_div(row: Seq<Rat>, p: Rat) -> Option<Seq<Rat>>
    decreases row.len(),
{
    if row.len() == 0 {
        Some(Seq::empty())
    } else {
        match spec_rat_div(row[0], p) {
            None => None,
            Some(q) => {
                match spec_row_div(row.drop_first(), p) {
                    None => None,
                    Some(rest) => Some(seq![q] + rest),
                }
            },
        }
    }
}

proof fn lemma_row_div_char(row: Seq<Rat>, p: Rat)
    ensures
        spec_row_div(row, p) is Some <==> (forall|j: int|
            0 <= j < row.len() ==> spec_rat_div(#[trigger] row[j], p) is Some),
        spec_row_div(row, p) matches Some(v) ==> v.len() == row.len() && forall|j: int|
            0 <= j < row.len() ==> v[j] == spec_rat_div(#[trigger] row[j], p)->Some_0,
    decreases row.len(),
{
    if row.len() > 0 {
        let rest_row = row.drop_first();
        lemma_row_div_char(rest_row, p);
        if spec_row_div(row, p) is Some {
            assert forall|j: int|
                0 <= j < row.len() implies spec_rat_div(#[trigger] row[j], p) is Some by {
                if j > 0 {
                    assert(row[j] == rest_row[j - 1]);
                    assert(spec_rat_div(rest_row[j - 1], p) is Some);
                }
            }
            let q = spec_rat_div(row[0], p)->Some_0;
            let rest = spec_row_div(rest_row, p)->Some_0;
            assert(spec_row_div(row, p) == Some(seq![q] + rest));
            assert forall|j: int|
                0 <= j < row.len() implies (seq![q] + rest)[j] == spec_rat_div(
                #[trigger] row[j],
                p,
            )->Some_0 by {
                if j > 0 {
                    assert((seq![q] + rest)[j] == rest[j - 1]);
                    assert(row[j] == rest_row[j - 1]);
                    assert(rest[j - 1] == spec_rat_div(rest_row[j - 1], p)->Some_0);
                }
            }
        }
        if forall|j: int| 0 <= j < row.len() ==> spec_rat_div(#[trigger] row[j], p) is Some {
            assert(spec_rat_div(row[0], p) is Some);
            assert forall|j: int|
                0 <= j < rest_row.len() implies spec_rat_div(
                #[trigger] rest_row[j],
                p,
            ) is Some by {
                assert(rest_row[j] == row[j + 1]);
                assert(spec_rat_div(row[j + 1], p) is Some);
            }
            assert(spec_row_div(rest_row, p) is Some);
            assert(spec_row_div(row, p) is Some);
        }
    }
}

/// One entry of an elimination step: the entry minus `f` times the pivot
/// row's entry.
pub open spec fn spec_entry_elim(x: Rat, pv: Rat, f: Rat) -> Option<Rat> {
    match spec_rat_mul(f, pv) {
        None => None,
        Some(prod) => spec_rat_sub(x, prod),
    }
}

/// The row with `f` times the pivot row subtracted, entry by entry.
pub open spec fn spec_row_elim(row: Seq<Rat>, pivot: Seq<Rat>, f: Rat) -> Option<Seq<Rat>>
    decreases row.len(),
{
    if row.len() == 0 {
        Some(Seq::empty())
    } else {
        match spec_entry_elim(row[0], pivot[0], f) {
            None => None,
            Some(q) => {
                match spec_row_elim(row.drop_first(), pivot.drop_first(), f) {
                    None => None,
                    Some(rest) => Some(seq![q] + rest),
                }
            },
        }
    }
}

proof fn lemma_row_elim_char(row: Seq<Rat>, pivot: Seq<Rat>, f: Rat)
    requires
        row.len() == pivot.len(),
    ensures
        spec_row_elim(row, pivot, f) is Some <==> (forall|j: int|
            0 <= j < row.len() ==> spec_entry_elim(#[trigger] row[j], pivot[j], f) is Some),
        spec_row_elim(row, pivot, f) matches Some(v) ==> v.len() == row.len() && forall|j: int|
            0 <= j < row.len() ==> v[j] == spec_entry_elim(#[trigger] row[j], pivot[j], f)->Some_0,
    decreases row.len(),
{
    if row.len() > 0 {
        let rest_row = row.drop_first();
        let rest_piv = pivot.drop_first();
        lemma_row_elim_char(rest_row, rest_piv, f);
        if spec_row_elim(row, pivot, f) is Some {
            assert forall|j: int|
                0 <= j < row.len() implies spec_entry_elim(
                #[trigger] row[j],
                pivot[j],
                f,
            ) is Some by {
                if j > 0 {
                    assert(row[j] == rest_row[j - 1]);
                    assert(pivot[j] == rest_piv[j - 1]);
                    assert(spec_entry_elim(rest_row[j - 1], rest_piv[j - 1], f) is Some);
                }
            }
            let q = spec_entry_elim(row[0], pivot[0], f)->Some_0;
            let rest = spec_row_elim(rest_row, rest_piv, f)->Some_0;
            assert(spec_row_elim(row, pivot, f) == Some(seq![q] + rest));
            assert forall|j: int|
                0 <= j < row.len() implies (seq![q] + rest)[j] == spec_entry_elim(
                #[trigger] row[j],
                pivot[j],
                f,
            )->Some_0 by {
                if j > 0 {
                    assert((seq![q] + rest)[j] == rest[j - 1]);
                    assert(row[j] == rest_row[j - 1]);
                    assert(pivot[j] == rest_piv[j - 1]);
                    assert(rest[j - 1] == spec_entry_elim(
                        rest_row[j - 1],
                        rest_piv[j - 1],
                        f,
                    )->Some_0);
                }
            }
        }
        if forall|j: int|
            0 <= j < row.len() ==> spec_entry_elim(#[trigger] row[j], pivot[j], f) is Some {
            assert(spec_entry_elim(row[0], pivot[0], f) is Some);
            assert forall|j: int|
                0 <= j < rest_row.len() implies spec_entry_elim(
                #[trigger] rest_row[j],
                rest_piv[j],
                f,
            ) is Some by {
                assert(rest_row[j] == row[j + 1]);
                assert(rest_piv[j] == pivot[j + 1]);
                assert(spec_entry_elim(row[j + 1], pivot[j + 1], f) is Some);
            }
            assert(spec_row_elim(rest_row, rest_piv, f) is Some);
            assert(spec_row_elim(row, pivot, f) is Some);
        }
    }
}

/// The first row at or after `r` with a nonzero entry in the column, or
/// the row count when there is none.
pub open spec fn find_pivot(m: Seq<Seq<Rat>>, col: int, r: int) -> int
    decreases m.len() - r,
{
    if r < 0 || r >= m.len() {
        m.len() as int
    } else if rat_num(m[r][col]) != 0 {
        r
    } else {
        find_pivot(m, col, r + 1)
    }
}

proof fn lemma_find_pivot_exact(m: Seq<Seq<Rat>>, col: int, s: int, r: int)
    requires
        0 <= s <= r <= m.len(),
        forall|p: int| s <= p < r ==> rat_num(#[trigger] m[p][col]) == 0,
        r == m.len() || rat_num(m[r][col]) != 0,
    ensures
        find_pivot(m, col, s) == r,
    decreases r - s,
{
    if s < r {
        lemma_find_pivot_exact(m, col, s + 1, r);
    }
}

/// Clears the column from every row other than the pivot row, from `r2`
/// on; `None` when an entry leaves the machine range.
pub open spec fn spec_elim_pass(m: Seq<Seq<Rat>>, p: int, col: int, r2: int) -> Option<
    Seq<Seq<Rat>>,
>
    decreases m.len() - r2,
{
    if r2 < 0 || r2 >= m.len() {
        Some(m)
    } else if r2 == p || rat_num(m[r2][col]) == 0 {
        spec_elim_pass(m, p, col, r2 + 1)
    } else {
        match spec_row_elim(m[r2], m[p], m[r2][col]) {
            None => None,
            Some(nr) => spec_elim_pass(m.update(r2, nr), p, col, r2 + 1),
        }
    }
}

/// Gauss-Jordan elimination from the given column and pivot row on:
/// select the first nonzero entry of the column as pivot, swap its row
/// up, normalize it to one, clear the column elsewhere, and move on;
/// `None` when the exact arithmetic leaves the machine range.
pub open spec fn spec_gauss(m: Seq<Seq<Rat>>, ncols: int, col: int, pivot_row: int) -> Option<
    Seq<Seq<Rat>>,
>
    decreases ncols - col,
{
    if col < 0 || col >= ncols || pivot_row < 0 || pivot_row >= m.len() {
        Some(m)
    } else {
        let r = find_pivot(m, col, pivot_row);
        if r < m.len() {
            let m1 = if r != pivot_row {
                m.update(r, m[pivot_row]).update(pivot_row, m[r])
            } else {
                m
            };
            match spec_row_div(m1[pivot_row], m1[pivot_row][col]) {
                None => None,
                Some(nrow) => {
                    let m2 = m1.update(pivot_row, nrow);
                    match spec_elim_pass(m2, pivot_row, col, 0) {
                        None => None,
                        Some(m3) => spec_gauss(m3, ncols, col + 1, pivot_row + 1),
                    }
                },
            }
        } else {
            spec_gauss(m, ncols, col + 1, pivot_row)
        }
    }
}

/// What the whole reduction of a matrix yields.
pub open spec fn spec_eliminated(m: Seq<Seq<Rat>>, ncols: int) -> Option<Seq<Seq<Rat>>> {
    spec_gauss(m, ncols, 0, 0)
}

/// A fresh copy of a row.
fn copy_row(row: &Vec<Rat>) -> (res: Vec<Rat>)
    ensures
        res@ == row@,
{
    let mut res: Vec<Rat> = Vec::new();
    let mut j: usize = 0;
    while j < row.len()
        invariant
            j <= row@.len(),
            res@ == row@.take(j as int),
        decreases row@.len() - j,
    {
        res.push(row[j]);
        proof {
            assert(res@ =~= row@.take(j + 1));
        }
        j = j + 1;
    }
    proof {
        assert(row@.take(row@.len() as int) =~= row@);
    }
    res
}

/// Divides every entry of the row by the nonzero pivot value.
fn row_div(row: &Vec<Rat>, p: &Rat) -> (r: Result<Vec<Rat>, EquationError>)
    requires
        row_wf(row@),
        rat_wf(*p),
        p.num != 0,
    ensures
        r matches Ok(v) ==> v@.len() == row@.len() && row_wf(v@) && spec_row_div(row@, *p)
            == Some(v@),
        r is Err ==> r == Err::<Vec<Rat>, EquationError>(EquationError::ArithmeticOverflow)
            && spec_row_div(row@, *p) is None,
{
    let mut out: Vec<Rat> = Vec::new();
    let mut j: usize = 0;
    while j < row.len()
        invariant
            j <= row@.len(),
            row_wf(row@),
            rat_wf(*p),
            p.num != 0,
            out@.len() == j,
            row_wf(out@),
            forall|t: int| 0 <= t < j ==> spec_rat_div(#[trigger] row@[t], *p) is Some
                && out@[t] == spec_rat_div(row@[t], *p)->Some_0,
        decreases row@.len() - j,
    {
        match rat_div(&row[j], p) {
            Some(q) => {
                out.push(q);
            },
            None => {
                proof {
                    lemma_row_div_char(row@, *p);
                }
                return Err(EquationError::ArithmeticOverflow);
            },
        }
        j = j + 1;
    }
    proof {
        lemma_row_div_char(row@, *p);
        assert(spec_row_div(row@, *p) is Some);
        assert forall|t: int|
            0 <= t < out@.len() implies out@[t] == spec_row_div(row@, *p)->Some_0[t] by {
            assert(spec_rat_div(row@[t], *p) is Some);
        }
        assert(out@ =~= spec_row_div(row@, *p)->Some_0);
    }
    Ok(out)
}

/// Subtracts `f` times the pivot row from the row, entry by entry.
fn row_elim(row: &Vec<Rat>, pivot: &Vec<Rat>, f: &Rat) -> (r: Result<Vec<Rat>, EquationError>)
    requires
        row_wf(row@),
        row_wf(pivot@),
        rat_wf(*f),
        row@.len() == pivot@.len(),
    ensures
        r matches Ok(v) ==> v@.len() == row@.len() && row_wf(v@) && spec_row_elim(
            row@,
            pivot@,
            *f,
        ) == Some(v@),
        r is Err ==> r == Err::<Vec<Rat>, EquationError>(EquationError::ArithmeticOverflow)
            && spec_row_elim(row@, pivot@, *f) is None,
{
    let mut out: Vec<Rat> = Vec::new();
    let mut j: usize = 0;
    while j < row.len()
        invariant
            j <= row@.len(),
            row_wf(row@),
            row_wf(pivot@),
            rat_wf(*f),
            row@.len() == pivot@.len(),
            out@.len() == j,
            row_wf(out@),
            forall|t: int| 0 <= t < j ==> spec_entry_elim(#[trigger] row@[t], pivot@[t], *f)
                is Some && out@[t] == spec_entry_elim(row@[t], pivot@[t], *f)->Some_0,
        decreases row@.len() - j,
    {
        match rat_mul(f, &pivot[j]) {
            Some(prod) => {
                match rat_sub(&row[j], &prod) {
                    Some(d) => {
                        out.push(d);
                    },
                    None => {
                        proof {
                            lemma_row_elim_char(row@, pivot@, *f);
                        }
                        return Err(EquationError::ArithmeticOverflow);
                    },
                }
            },
            None => {
                proof {
                    lemma_row_elim_char(row@, pivot@, *f);
                }
                return Err(EquationError::ArithmeticOverflow);
            },
        }
        j = j + 1;
    }
    proof {
        lemma_row_elim_char(row@, pivot@, *f);
        assert(spec_row_elim(row@, pivot@, *f) is Some);
        assert forall|t: int|
            0 <= t < out@.len() implies out@[t] == spec_row_elim(row@, pivot@, *f)->Some_0[t] by {
            assert(spec_entry_elim(row@[t], pivot@[t], *f) is Some);
        }
        assert(out@ =~= spec_row_elim(row@, pivot@, *f)->Some_0);
    }
    Ok(out)
}

/// Reduces the matrix to reduced row-echelon form by Gauss-Jordan
/// elimination over exact rationals. The result is fixed by the contract:
/// it is exactly what `spec_eliminated` yields on the input.
pub fn gaussian_elimination(m: &mut Vec<Vec<Rat>>, ncols: usize) -> (r: Result<(), EquationError>)
    requires
        matrix_wf(old(m)@, ncols as int),
    ensures
        matrix_wf(final(m)@, ncols as int),
        final(m)@.len() == old(m)@.len(),
        spec_eliminated(mview(old(m)@), ncols as int) matches Some(em) ==> r is Ok && mview(
            final(m)@,
        ) == em,
        spec_eliminated(mview(old(m)@), ncols as int) is None ==> r == Err::<
            (),
            EquationError,
        >(EquationError::ArithmeticOverflow),
        r is Err ==> r == Err::<(), EquationError>(EquationError::ArithmeticOverflow),
{
    let ghost target = spec_eliminated(mview(old(m)@), ncols as int);
    let nrows = m.len();
    let mut pivot_row: usize = 0;
    let mut col: usize = 0;
    while col < ncols && pivot_row < nrows
        invariant
            matrix_wf(m@, ncols as int),
            m@.len() == nrows,
            nrows == old(m)@.len(),
            pivot_row <= nrows,
            col <= ncols,
            target == spec_eliminated(mview(old(m)@), ncols as int),
            target == spec_gauss(mview(m@), ncols as int, col as int, pivot_row as int),
        decreases ncols - col,
    {
        let ghost mv0 = mview(m@);
        let mut r = pivot_row;
        while r < nrows && rat_is_zero(&m[r][col])
            invariant
                matrix_wf(m@, ncols as int),
                m@.len() == nrows,
                nrows == old(m)@.len(),
                pivot_row <= r <= nrows,
                col < ncols,
                mview(m@) == mv0,
                forall|p: int| pivot_row <= p < r ==> rat_num(#[trigger] mv0[p][col as int]) == 0,
            decreases nrows - r,
        {
            proof {
                assert(mv0[r as int] == m@[r as int]@);
            }
            r = r + 1;
        }
        proof {
            if r < nrows {
                assert(mv0[r as int] == m@[r as int]@);
            }
            lemma_find_pivot_exact(mv0, col as int, pivot_row as int, r as int);
        }
        if r < nrows {
            if r != pivot_row {
                let tmp_r = copy_row(&m[r]);
                let tmp_p = copy_row(&m[pivot_row]);
                m.set(r, tmp_p);
                m.set(pivot_row, tmp_r);
            }
            proof {
                assert(mview(m@) =~= (if r != pivot_row {
                    mv0.update(r as int, mv0[pivot_row as int]).update(
                        pivot_row as int,
                        mv0[r as int],
                    )
                } else {
                    mv0
                }));
            }
            let ghost m1 = mview(m@);
            let pivot_val = m[pivot_row][col];
            proof {
                assert(pivot_val == m1[pivot_row as int][col as int]);
                assert(rat_num(mv0[r as int][col as int]) != 0);
                assert(pivot_val.num != 0);
            }
            match row_div(&m[pivot_row], &pivot_val) {
                Ok(nrow) => {
                    m.set(pivot_row, nrow);
                },
                Err(e) => {
                    proof {
                        assert(spec_gauss(mv0, ncols as int, col as int, pivot_row as int)
                            is None);
                    }
                    return Err(e);
                },
            }
            proof {
                assert(mview(m@) =~= m1.update(
                    pivot_row as int,
                    spec_row_div(m1[pivot_row as int], pivot_val)->Some_0,
                ));
            }
            let ghost m2 = mview(m@);
            proof {
                assert(spec_gauss(mv0, ncols as int, col as int, pivot_row as int) == (
                match spec_elim_pass(m2, pivot_row as int, col as int, 0) {
                    None => None::<Seq<Seq<Rat>>>,
                    Some(m3) => spec_gauss(m3, ncols as int, col as int + 1, pivot_row as int + 1),
                }));
            }
            let mut r2: usize = 0;
            while r2 < nrows
                invariant
                    matrix_wf(m@, ncols as int),
                    m@.len() == nrows,
                    nrows == old(m)@.len(),
                    pivot_row < nrows,
                    col < ncols,
                    r2 <= nrows,
                    target == spec_eliminated(mview(old(m)@), ncols as int),
                    target == spec_gauss(mv0, ncols as int, col as int, pivot_row as int),
                    spec_gauss(mv0, ncols as int, col as int, pivot_row as int) == (
                    match spec_elim_pass(m2, pivot_row as int, col as int, 0) {
                        None => None::<Seq<Seq<Rat>>>,
                        Some(m3) => spec_gauss(
                            m3,
                            ncols as int,
                            col as int + 1,
                            pivot_row as int + 1,
                        ),
                    }),
                    spec_elim_pass(m2, pivot_row as int, col as int, 0) == spec_elim_pass(
                        mview(m@),
                        pivot_row as int,
                        col as int,
                        r2 as int,
                    ),
                decreases nrows - r2,
            {
                let ghost cur = mview(m@);
                if r2 != pivot_row {
                    let f = m[r2][col];
                    proof {
                        assert(f == cur[r2 as int][col as int]);
                    }
                    if f.num != 0 {
                        let prow = copy_row(&m[pivot_row]);
                        proof {
                            assert(prow@ == cur[pivot_row as int]);
                        }
                        match row_elim(&m[r2], &prow, &f) {
                            Ok(nrow) => {
                                m.set(r2, nrow);
                                proof {
                                    assert(mview(m@) =~= cur.update(r2 as int, nrow@));
                                }
                            },
                            Err(e) => {
                                proof {
                                    assert(spec_elim_pass(
                                        cur,
                                        pivot_row as int,
                                        col as int,
                                        r2 as int,
                                    ) is None);
                                    assert(spec_elim_pass(
                                        m2,
                                        pivot_row as int,
                                        col as int,
                                        0,
                                    ) is None);
                                    assert(target is None);
                                }
                                return Err(e);
                            },
                        }
                    } else {
                        proof {
                            assert(rat_num(cur[r2 as int][col as int]) == 0);
                        }
                    }
                }
                r2 = r2 + 1;
            }
            proof {
                assert(spec_elim_pass(
                    mview(m@),
                    pivot_row as int,
                    col as int,
                    nrows as int,
                ) == Some(mview(m@)));
                assert(spec_gauss(mv0, ncols as int, col as int, pivot_row as int) == spec_gauss(
                    mview(m@),
                    ncols as int,
                    col as int + 1,
                    pivot_row as int + 1,
                ));
            }
            pivot_row = pivot_row + 1;
        } else {
            proof {
                assert(spec_gauss(mv0, ncols as int, col as int, pivot_row as int) == spec_gauss(
                    mview(m@),
                    ncols as int,
                    col as int + 1,
                    pivot_row as int,
                ));
            }
        }
        col = col + 1;
    }
    proof {
        assert(spec_gauss(mview(m@), ncols as int, col as int, pivot_row as int) == Some(
            mview(m@),
        ));
    }
    Ok(())
}

} // verus!
