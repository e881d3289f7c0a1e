//! Merging a validity sequence with a values sequence into one sequence
//! of optional values.

use vstd::prelude::*;
use crate::errors::DecodeError;

verus! {

/// How many entries of a validity sequence are set.
pub open spec fn count_true(v: Seq<bool>) -> nat
    decreases v.len(),
{
    if v.len() == 0 {
        0
    } else {
        count_true(v.drop_last()) + (if v.last() {
            1nat
        } else {
            0nat
        })
    }
}

/// A prefix never holds more set entries than the whole sequence.
pub proof fn lemma_count_true_prefix(v: Seq<bool>, j: int)
    requires
        0 <= j <= v.len(),
    ensures
        count_true(v.take(j)) <= count_true(v),
    decreases v.len() - j,
{
    if j < v.len() {
        lemma_count_true_prefix(v, j + 1);
        assert(v.take(j + 1).drop_last() =~= v.take(j));
        assert(count_true(v.take(j + 1)) == count_true(v.take(j)) + (if v[j] {
            1nat
        } else {
            0nat
        }));
    } else {
        assert(v.take(j) =~= v);
    }
}

/// The merge of a validity sequence and a values sequence: one entry per
/// validity entry, present exactly where the validity entry is set, each
/// present entry taking the next value in order.
pub open spec fn spec_optional_values<T>(validity: Seq<bool>, values: Seq<T>) -> Seq<Option<T>> {
    Seq::new(
        validity.len(),
        |i: int| if validity[i] {
            Some(values[count_true(validity.take(i)) as int])
        } else {
            None
        },
    )
}

/// The merged sequence has the validity sequence's length, is absent
/// exactly where the validity entry is unset, and hands the values out
/// in order: position `i`, when set, holds the value whose index is the
/// number of set entries before `i`.
pub proof fn lemma_optional_values_shape<T>(validity: Seq<bool>, values: Seq<T>)
    ensures
        spec_optional_values(validity, values).len() == validity.len(),
        forall|i: int| 0 <= i < validity.len() && validity[i]
            ==> #[trigger] spec_optional_values(validity, values)[i] == Some(
            values[count_true(validity.take(i)) as int],
        ),
        forall|i: int| 0 <= i < validity.len() && !validity[i]
            ==> #[trigger] spec_optional_values(validity, values)[i] is None,
{
}

/// Merges a validity sequence with its values. Fails with an underflow
/// exactly when the values run out: when fewer values are given than the
/// validity sequence has set entries.
pub fn combine_optional<T: Copy>(validity: &Vec<bool>, values: &Vec<T>) -> (r: Result<
    Vec<Option<T>>,
    DecodeError,
>)
    ensures
        r is Ok <==> count_true(validity@) <= values@.len(),
        r matches Ok(v) ==> v@ == spec_optional_values(validity@, values@),
        r is Err ==> r->Err_0 == DecodeError::Underflow,
{
    let n = validity.len();
    let mut out: Vec<Option<T>> = Vec::new();
    let mut next: usize = 0;
    let mut i: usize = 0;
    proof {
        assert(validity@.take(0) =~= Seq::<bool>::empty());
    }
    while i < n
        invariant
            i <= n,
            n == validity@.len(),
            next == count_true(validity@.take(i as int)),
            next <= values@.len(),
            out@ =~= spec_optional_values(validity@, values@).take(i as int),
        decreases n - i,
    {
        proof {
            assert(validity@.take(i + 1).drop_last() =~= validity@.take(i as int));
            assert(count_true(validity@.take(i + 1)) == count_true(validity@.take(i as int)) + (
            if validity@[i as int] {
                1nat
            } else {
                0nat
            }));
            assert(spec_optional_values(validity@, values@).take(i + 1) =~= spec_optional_values(
                validity@,
                values@,
            ).take(i as int).push(spec_optional_values(validity@, values@)[i as int]));
        }
        if validity[i] {
            if next >= values.len() {
                proof {
                    lemma_count_true_prefix(validity@, i + 1);
                }
                return Err(DecodeError::Underflow);
            }
            out.push(Some(values[next]));
            next += 1;
        } else {
            out.push(None);
        }
        i += 1;
    }
    proof {
        assert(validity@.take(n as int) =~= validity@);
        assert(spec_optional_values(validity@, values@).take(n as int) =~= spec_optional_values(
            validity@,
            values@,
        ));
    }
    Ok(out)
}

} // verus!
