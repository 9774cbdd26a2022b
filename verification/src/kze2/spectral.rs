//! Spectral learning of a weighted automaton from a Hankel block and its
//! letter-shifted blocks.
use crate::error::ExperimentError;
use crate::kze2::automaton::is_automaton;
use crate::kze2::field::Field;
use crate::kze2::linalg::{
    column_rank, lemma_pivots_count, independent_row_indices, invert, is_mat, is_vec, mat_mul, mat_vec_mul, pivot_columns,
    select_col, select_cols, select_rows, selection_cols, selection_rows, vec_mat_mul, Matrix,
    Vector,
};
use vstd::prelude::*;

verus! {

/// A learned automaton: `rank` states, initial row `alpha`, final column
/// `beta`, one transition matrix per letter.
#[derive(Clone, Debug)]
pub struct SpectralModel {
    pub rank: usize,
    pub alpha: Vector,
    pub beta: Vector,
    pub transitions: Vec<Matrix>,
}

/// The model is a well-shaped automaton over `field` with `letters` letters.
pub open spec fn is_model(field: Field, m: SpectralModel, letters: int) -> bool {
    &&& m.rank >= 1
    &&& is_vec(field, m.alpha@, m.rank as int)
    &&& is_vec(field, m.beta@, m.rank as int)
    &&& m.transitions.len() == letters
    &&& is_automaton(field, m.transitions@, m.rank as int)
}

/// Learns an automaton from the Hankel block `hankel` (rows: prefixes, columns:
/// suffixes, row 0 and column 0 the empty word) and the blocks shifted by each
/// letter.
pub fn spectral_learn(hankel: &Matrix, hankel_shifted: &[Matrix], field: &Field) -> (r: Result<
    SpectralModel,
    ExperimentError,
>)
    requires
        field.wf(),
        hankel.len() > 0 ==> is_mat(*field, hankel@, hankel.len() as int, hankel@[0]@.len() as int),
        hankel.len() > 0 ==> forall|l: int|
            0 <= l < hankel_shifted@.len() ==> is_mat(
                *field,
                #[trigger] hankel_shifted@[l]@,
                hankel.len() as int,
                hankel@[0]@.len() as int,
            ),
    ensures
        (hankel.len() == 0 || hankel@[0]@.len() == 0) ==> r is Err,
        (hankel.len() > 0 && hankel@[0]@.len() > 0 && column_rank(
            hankel@,
            hankel.len() as int,
            hankel@[0]@.len() as int,
            field.modulus(),
        ) == 0) ==> r is Err,
        r matches Ok(model) ==> is_model(*field, model, hankel_shifted@.len() as int)
            && model.rank <= hankel.len() && model.rank <= hankel@[0]@.len(),
        r matches Ok(model) ==> model.rank == column_rank(
            hankel@,
            hankel.len() as int,
            hankel@[0]@.len() as int,
            field.modulus(),
        ),
{
    if hankel.len() == 0 || hankel[0].len() == 0 {
        return Err(ExperimentError::InvalidConfig("empty hankel matrix".to_string()));
    }
    let rows = hankel.len();
    let cols = hankel[0].len();
    let pivot_cols = pivot_columns(hankel, field)?;
    let rank = pivot_cols.len();
    proof {
        lemma_pivots_count(pivot_cols@, hankel@, rows as int, cols as int, field.modulus());
    }
    if rank == 0 {
        return Err(ExperimentError::InvalidConfig("hankel rank is zero".to_string()));
    }
    let pm = select_cols(hankel, pivot_cols.as_slice());
    assert(is_mat(*field, pm@, rows as int, rank as int)) by {
        assert forall|i: int, j: int| 0 <= i < rows && 0 <= j < rank implies field.holds(
            #[trigger] pm@[i]@[j],
        ) by {
            assert(pm@[i]@[j] == hankel@[i]@[pivot_cols@[j] as int]);
        }
    }
    let row_indices = independent_row_indices(&pm, field)?;
    if row_indices.len() != rank {
        return Err(ExperimentError::InvalidConfig("insufficient independent rows in Pm".to_string()));
    }
    let r_mat = select_rows(&pm, row_indices.as_slice());
    assert(is_mat(*field, r_mat@, rank as int, rank as int)) by {
        assert forall|i: int| 0 <= i < rank implies #[trigger] r_mat@[i]@.len() == rank by {
            assert(r_mat@[i]@ == pm@[row_indices@[i] as int]@);
        }
        assert forall|i: int, j: int| 0 <= i < rank && 0 <= j < rank implies field.holds(
            #[trigger] r_mat@[i]@[j],
        ) by {
            assert(r_mat@[i]@ == pm@[row_indices@[i] as int]@);
        }
    }
    let inv_r = invert(&r_mat, field)?;
    let sel_rows = selection_rows(row_indices.as_slice(), rows, field);
    let l_left = mat_mul(&inv_r, &sel_rows, field);
    let sm = mat_mul(&l_left, hankel, field);
    let pivot_cols_sm = pivot_columns(&sm, field)?;
    if pivot_cols_sm.len() != rank {
        return Err(ExperimentError::InvalidConfig("insufficient independent cols in Sm".to_string()));
    }
    let c_mat = select_cols(&sm, pivot_cols_sm.as_slice());
    assert(is_mat(*field, c_mat@, rank as int, rank as int)) by {
        assert forall|i: int, j: int| 0 <= i < rank && 0 <= j < rank implies field.holds(
            #[trigger] c_mat@[i]@[j],
        ) by {
            assert(c_mat@[i]@[j] == sm@[i]@[pivot_cols_sm@[j] as int]);
        }
    }
    let inv_c = invert(&c_mat, field)?;
    let sel_cols = selection_cols(pivot_cols_sm.as_slice(), cols, field);
    let r_right = mat_mul(&sel_cols, &inv_c, field);
    let mut transitions: Vec<Matrix> = Vec::with_capacity(hankel_shifted.len());
    let mut t: usize = 0;
    while t < hankel_shifted.len()
        invariant
            field.wf(),
            rows == hankel.len(),
            cols == hankel@[0]@.len(),
            cols > 0,
            rank >= 1,
            rank <= rows,
            forall|l: int|
                0 <= l < hankel_shifted@.len() ==> is_mat(
                    *field,
                    #[trigger] hankel_shifted@[l]@,
                    rows as int,
                    cols as int,
                ),
            is_mat(*field, l_left@, rank as int, rows as int),
            is_mat(*field, r_right@, cols as int, rank as int),
            t <= hankel_shifted@.len(),
            transitions.len() == t,
            is_automaton(*field, transitions@, rank as int),
        decreases hankel_shifted@.len() - t,
    {
        let ha = &hankel_shifted[t];
        let left = mat_mul(&l_left, ha, field);
        let mat = mat_mul(&left, &r_right, field);
        assert(r_right@[0]@.len() == rank);
        assert(is_mat(*field, mat@, rank as int, rank as int));
        transitions.push(mat);
        proof {
            assert forall|l: int| 0 <= l < transitions.len() implies is_mat(*field, #[trigger] transitions@[l]@, rank as int, rank as int) by {
                if l < t {
                } else {
                    assert(transitions@[l] == mat);
                }
            }
        }
        t += 1;
    }
    assert(is_vec(*field, hankel@[0]@, cols as int));
    let alpha = vec_mat_mul(hankel[0].as_slice(), &r_right, field);
    let h_col0 = select_col(hankel, 0);
    assert(is_vec(*field, h_col0@, rows as int)) by {
        assert forall|k: int| 0 <= k < rows implies field.holds(#[trigger] h_col0@[k]) by {
            assert(h_col0@[k] == hankel@[k]@[0]);
        }
    }
    let beta = mat_vec_mul(&l_left, h_col0.as_slice(), field);
    Ok(SpectralModel { rank, alpha, beta, transitions })
}

} // verus!
