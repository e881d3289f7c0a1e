//! The per-page decode state machine: selects one of the decode shapes
//! from a page's encoding, repetition and dictionary, and runs one
//! decode pass over the page's byte regions.

use vstd::prelude::*;
use crate::deserialize::dictionary::Dictionary;
use crate::deserialize::filter::{filter_rows, sel_wf, spec_filter, RowInterval};
use crate::deserialize::hybrid_rle::{
    hybrid_rle_decode, lemma_hybrid_decode_len, spec_hybrid_decode,
};
use crate::deserialize::native::{native_cast, spec_native_cast, NativeType};
use crate::deserialize::optional::{combine_optional, count_true, spec_optional_values};
use crate::errors::DecodeError;
use crate::schema::types::{PhysicalType, Repetition};

verus! {

/// How a page's values region is encoded.
#[derive(Clone, Copy, Debug, PartialEq, Eq, Structural)]
pub enum Encoding {
    Plain,
    RleDictionary,
    DeltaBinaryPacked,
}

/// What a page says about itself: level bounds, repetition, encoding and
/// row count.
#[derive(Clone, Copy, Debug, PartialEq, Eq, Structural)]
pub struct Descriptor {
    pub max_rep_level: u16,
    pub max_def_level: u16,
    pub physical_type: PhysicalType,
    pub repetition: Repetition,
    pub encoding: Encoding,
    pub num_values: usize,
}

/// One data page: its descriptor, its pre-split byte regions, and the
/// caller's optional row selection.
#[derive(Debug)]
pub struct DataPage {
    pub descriptor: Descriptor,
    pub def_levels: Vec<u8>,
    pub values: Vec<u8>,
    pub selected_rows: Option<Vec<RowInterval>>,
}

impl DataPage {
    /// What this engine assumes of a page: flat columns only, a one-bit
    /// definition level for optional pages, and a well-formed row
    /// selection when one is present.
    pub open spec fn wf(&self) -> bool {
        &&& self.descriptor.max_rep_level == 0
        &&& (self.descriptor.repetition == Repetition::Optional ==> self.descriptor.max_def_level
            == 1)
        &&& (self.selected_rows matches Some(sel) ==> sel_wf(
            sel@,
            self.descriptor.num_values as nat,
        ))
    }
}

/// What decoding the definition-level region to one validity bit per row
/// gives: `true` marks a non-null row.
pub open spec fn spec_validity(def_levels: Seq<u8>, n: nat) -> Result<Seq<bool>, DecodeError> {
    match spec_hybrid_decode(def_levels, 1, n) {
        None => Err(DecodeError::CorruptedStream),
        Some(levels) => Ok(levels.map_values(|v: u32| v == 1)),
    }
}

/// Decodes the definition-level region to one validity bit per row.
pub fn decode_validity(def_levels: &[u8], n: usize) -> (r: Result<Vec<bool>, DecodeError>)
    ensures
        r is Ok <==> spec_validity(def_levels@, n as nat) is Ok,
        r matches Ok(v) ==> spec_validity(def_levels@, n as nat) == Ok::<_, DecodeError>(v@),
        r is Err ==> r->Err_0 == DecodeError::CorruptedStream,
        r matches Ok(v) ==> v@.len() == n,
{
    let levels = match hybrid_rle_decode(def_levels, 1, n) {
        Ok(l) => l,
        Err(_) => {
            return Err(DecodeError::CorruptedStream);
        },
    };
    proof {
        lemma_hybrid_decode_len(def_levels@, 1, n as nat);
    }
    let ghost mapped = levels@.map_values(|v: u32| v == 1);
    let mut out: Vec<bool> = Vec::new();
    let mut i: usize = 0;
    while i < levels.len()
        invariant
            i <= levels@.len(),
            mapped == levels@.map_values(|v: u32| v == 1),
            out@ =~= mapped.take(i as int),
        decreases levels@.len() - i,
    {
        proof {
            assert(mapped.take(i + 1) =~= mapped.take(i as int).push(mapped[i as int]));
        }
        out.push(levels[i] == 1);
        i += 1;
    }
    proof {
        assert(mapped.take(levels@.len() as int) =~= mapped);
    }
    Ok(out)
}

/// The number of bits needed to hold every index below `n`: zero for a
/// dictionary of at most one value, else the ceiling of the base-two
/// logarithm.
pub open spec fn bits_needed(n: nat) -> nat
    decreases n,
{
    if n <= 1 {
        0
    } else {
        1 + bits_needed((n + 1) / 2)
    }
}

/// For `n` at most two to the `k`, `k` bits are enough.
pub proof fn lemma_bits_needed_le(n: nat, k: nat)
    requires
        n <= vstd::arithmetic::power2::pow2(k),
    ensures
        bits_needed(n) <= k,
    decreases k,
{
    if n > 1 {
        assert(k >= 1) by {
            if k == 0 {
                assert(vstd::arithmetic::power2::pow2(0) == 1) by {
                    vstd::arithmetic::power2::lemma2_to64();
                }
            }
        }
        assert(vstd::arithmetic::power2::pow2(k) == 2 * vstd::arithmetic::power2::pow2(
            (k - 1) as nat,
        )) by {
            vstd::arithmetic::power2::lemma_pow2_adds(1, (k - 1) as nat);
            vstd::arithmetic::power2::lemma2_to64();
        }
        assert((n + 1) / 2 <= vstd::arithmetic::power2::pow2((k - 1) as nat)) by (nonlinear_arith)
            requires
                n <= vstd::arithmetic::power2::pow2(k),
                vstd::arithmetic::power2::pow2(k) == 2 * vstd::arithmetic::power2::pow2(
                    (k - 1) as nat,
                ),
        ;
        lemma_bits_needed_le((n + 1) / 2, (k - 1) as nat);
    }
}

/// Computes the dictionary index bit width.
pub fn compute_bits_needed(n: usize) -> (r: usize)
    ensures
        r as nat == bits_needed(n as nat),
        r <= 64,
{
    proof {
        assert(vstd::arithmetic::power2::pow2(64) == 0x1_0000_0000_0000_0000) by {
            vstd::arithmetic::power2::lemma2_to64_rest();
        }
        lemma_bits_needed_le(n as nat, 64);
    }
    let mut m = n;
    let mut b: usize = 0;
    while m > 1
        invariant
            bits_needed(n as nat) == b + bits_needed(m as nat),
            bits_needed(n as nat) <= 64,
        decreases m,
    {
        proof {
            assert(m / 2 + m % 2 == (m + 1) / 2) by (nonlinear_arith)
                requires
                    m >= 1,
            ;
        }
        m = m / 2 + m % 2;
        b += 1;
    }
    b
}

/// What decoding a plain required page gives: the first `n` values of
/// the cast region.
pub open spec fn spec_required_page<T: NativeType>(values: Seq<u8>, n: nat) -> Result<
    Seq<Option<T>>,
    DecodeError,
> {
    match spec_native_cast::<T>(values) {
        None => Err(DecodeError::BufferLengthMismatch),
        Some(vs) => if vs.len() < n {
            Err(DecodeError::CorruptedStream)
        } else {
            Ok(Seq::new(n, |i: int| Some(vs[i])))
        },
    }
}

/// What decoding a plain optional page gives: the validity bits merged
/// with the cast non-null values.
pub open spec fn spec_optional_page<T: NativeType>(
    def_levels: Seq<u8>,
    values: Seq<u8>,
    n: nat,
) -> Result<Seq<Option<T>>, DecodeError> {
    match spec_validity(def_levels, n) {
        Err(e) => Err(e),
        Ok(validity) => match spec_native_cast::<T>(values) {
            None => Err(DecodeError::BufferLengthMismatch),
            Some(vs) => if count_true(validity) > vs.len() {
                Err(DecodeError::Underflow)
            } else {
                Ok(spec_optional_values(validity, vs))
            },
        },
    }
}

/// What decoding a required dictionary page gives: `n` indices at the
/// dictionary's bit width, each resolved through the dictionary.
pub open spec fn spec_required_dict_page<T>(
    values: Seq<u8>,
    dict: Seq<T>,
    n: nat,
) -> Result<Seq<Option<T>>, DecodeError> {
    let bw = bits_needed(dict.len());
    if bw > 32 {
        Err(DecodeError::UnsupportedEncoding)
    } else {
        match spec_hybrid_decode(values, bw, n) {
            None => Err(DecodeError::CorruptedStream),
            Some(idxs) => if exists|i: int| 0 <= i < n && (#[trigger] idxs[i]) >= dict.len() {
                Err(DecodeError::DictionaryIndexOutOfRange)
            } else {
                Ok(Seq::new(n, |i: int| Some(dict[idxs[i] as int])))
            },
        }
    }
}

/// What decoding an optional dictionary page gives: one index per
/// non-null row, each resolved through the dictionary, merged with the
/// validity bits.
pub open spec fn spec_optional_dict_page<T>(
    def_levels: Seq<u8>,
    values: Seq<u8>,
    dict: Seq<T>,
    n: nat,
) -> Result<Seq<Option<T>>, DecodeError> {
    match spec_validity(def_levels, n) {
        Err(e) => Err(e),
        Ok(validity) => {
            let c = count_true(validity);
            let bw = bits_needed(dict.len());
            if bw > 32 {
                Err(DecodeError::UnsupportedEncoding)
            } else {
                match spec_hybrid_decode(values, bw, c) {
                    None => Err(DecodeError::CorruptedStream),
                    Some(idxs) => if exists|i: int|
                        0 <= i < c && (#[trigger] idxs[i]) >= dict.len() {
                        Err(DecodeError::DictionaryIndexOutOfRange)
                    } else {
                        Ok(
                            spec_optional_values(
                                validity,
                                idxs.map_values(|x: u32| dict[x as int]),
                            ),
                        )
                    },
                }
            }
        },
    }
}

/// What decoding a filtered plain required page gives: the unfiltered
/// rows restricted to the selection.
pub open spec fn spec_filtered_required_page<T: NativeType>(
    values: Seq<u8>,
    n: nat,
    sel: Seq<RowInterval>,
) -> Result<Seq<Option<T>>, DecodeError> {
    match spec_required_page::<T>(values, n) {
        Err(e) => Err(e),
        Ok(rows) => Ok(spec_filter(rows, sel)),
    }
}

/// What decoding a filtered plain optional page gives: the unfiltered
/// rows restricted to the selection.
pub open spec fn spec_filtered_optional_page<T: NativeType>(
    def_levels: Seq<u8>,
    values: Seq<u8>,
    n: nat,
    sel: Seq<RowInterval>,
) -> Result<Seq<Option<T>>, DecodeError> {
    match spec_optional_page::<T>(def_levels, values, n) {
        Err(e) => Err(e),
        Ok(rows) => Ok(spec_filter(rows, sel)),
    }
}

} // verus!

verus! {

/// Whether a combination of encoding, repetition, dictionary and
/// filtering is one of the decode shapes this engine implements.
pub open spec fn spec_shape_supported(d: Descriptor, has_dict: bool, filtered: bool) -> bool {
    if filtered {
        d.encoding == Encoding::Plain && (d.repetition == Repetition::Required || d.repetition
            == Repetition::Optional)
    } else {
        match (d.encoding, d.repetition) {
            (Encoding::Plain, Repetition::Required) => true,
            (Encoding::Plain, Repetition::Optional) => true,
            (Encoding::RleDictionary, Repetition::Required) => has_dict,
            (Encoding::RleDictionary, Repetition::Optional) => has_dict,
            _ => false,
        }
    }
}

/// The decode shape of one native-typed page, chosen once per page from
/// its encoding, repetition, dictionary and row selection, and consumed
/// by a single decode pass.
pub enum NativePageState<'a, T: NativeType> {
    /// Plain required values.
    Required(&'a DataPage),
    /// Plain optional values: validity bits, then the non-null values.
    Optional(&'a DataPage),
    /// Dictionary indices, each resolved through the dictionary.
    RequiredDictionary(&'a DataPage, &'a Dictionary<T>),
    /// Validity bits, then one dictionary index per non-null row.
    OptionalDictionary(&'a DataPage, &'a Dictionary<T>),
    /// Plain required values restricted to the selected rows.
    FilteredRequired(&'a DataPage),
    /// Plain optional values restricted to the selected rows.
    FilteredOptional(&'a DataPage),
}

impl<'a, T: NativeType> NativePageState<'a, T> {
    /// The page behind the state is well formed, and a filtered state
    /// carries a selection.
    pub open spec fn wf(self) -> bool {
        match self {
            NativePageState::Required(p) => p.wf(),
            NativePageState::Optional(p) => p.wf(),
            NativePageState::RequiredDictionary(p, _) => p.wf(),
            NativePageState::OptionalDictionary(p, _) => p.wf(),
            NativePageState::FilteredRequired(p) => p.wf() && p.selected_rows is Some,
            NativePageState::FilteredOptional(p) => p.wf() && p.selected_rows is Some,
        }
    }

    /// What decoding this state's page gives.
    pub open spec fn spec_decode(self) -> Result<Seq<Option<T>>, DecodeError> {
        match self {
            NativePageState::Required(p) => spec_required_page::<T>(
                p.values@,
                p.descriptor.num_values as nat,
            ),
            NativePageState::Optional(p) => spec_optional_page::<T>(
                p.def_levels@,
                p.values@,
                p.descriptor.num_values as nat,
            ),
            NativePageState::RequiredDictionary(p, d) => spec_required_dict_page::<T>(
                p.values@,
                d.values@,
                p.descriptor.num_values as nat,
            ),
            NativePageState::OptionalDictionary(p, d) => spec_optional_dict_page::<T>(
                p.def_levels@,
                p.values@,
                d.values@,
                p.descriptor.num_values as nat,
            ),
            NativePageState::FilteredRequired(p) => match p.selected_rows {
                Some(sel) => spec_filtered_required_page::<T>(
                    p.values@,
                    p.descriptor.num_values as nat,
                    sel@,
                ),
                None => Err(DecodeError::UnsupportedEncoding),
            },
            NativePageState::FilteredOptional(p) => match p.selected_rows {
                Some(sel) => spec_filtered_optional_page::<T>(
                    p.def_levels@,
                    p.values@,
                    p.descriptor.num_values as nat,
                    sel@,
                ),
                None => Err(DecodeError::UnsupportedEncoding),
            },
        }
    }

    /// Chooses the decode shape for a page. Succeeds exactly on the
    /// combinations of encoding, repetition, dictionary and filtering
    /// that the engine implements; anything else is an unsupported
    /// encoding, never a silent approximation. Filtering is only
    /// supported for plain pages: combined with dictionary encoding it
    /// fails rather than ignoring the filter.
    pub fn try_new(page: &'a DataPage, dict: Option<&'a Dictionary<T>>) -> (r: Result<
        Self,
        DecodeError,
    >)
        requires
            page.wf(),
        ensures
            r is Ok <==> spec_shape_supported(
                page.descriptor,
                dict is Some,
                page.selected_rows is Some,
            ),
            r is Err ==> r->Err_0 == DecodeError::UnsupportedEncoding,
            r matches Ok(s) ==> s.wf(),
            r matches Ok(s) ==> s == (if page.selected_rows is Some {
                if page.descriptor.repetition == Repetition::Required {
                    NativePageState::<'a, T>::FilteredRequired(page)
                } else {
                    NativePageState::<'a, T>::FilteredOptional(page)
                }
            } else {
                match (page.descriptor.encoding, page.descriptor.repetition) {
                    (Encoding::Plain, Repetition::Required) => NativePageState::<
                        'a,
                        T,
                    >::Required(page),
                    (Encoding::Plain, Repetition::Optional) => NativePageState::<
                        'a,
                        T,
                    >::Optional(page),
                    (Encoding::RleDictionary, Repetition::Required) => NativePageState::<
                        'a,
                        T,
                    >::RequiredDictionary(page, dict->0),
                    _ => NativePageState::<'a, T>::OptionalDictionary(page, dict->0),
                }
            }),
    {
        let is_optional = matches!(page.descriptor.repetition, Repetition::Optional);
        let is_required = matches!(page.descriptor.repetition, Repetition::Required);
        if page.selected_rows.is_some() {
            match (page.descriptor.encoding, is_optional, is_required) {
                (Encoding::Plain, true, _) => Ok(NativePageState::FilteredOptional(page)),
                (Encoding::Plain, _, true) => Ok(NativePageState::FilteredRequired(page)),
                _ => Err(DecodeError::UnsupportedEncoding),
            }
        } else {
            match (page.descriptor.encoding, dict, is_optional, is_required) {
                (Encoding::Plain, _, _, true) => Ok(NativePageState::Required(page)),
                (Encoding::Plain, _, true, _) => Ok(NativePageState::Optional(page)),
                (Encoding::RleDictionary, Some(d), _, true) => Ok(
                    NativePageState::RequiredDictionary(page, d),
                ),
                (Encoding::RleDictionary, Some(d), true, _) => Ok(
                    NativePageState::OptionalDictionary(page, d),
                ),
                _ => Err(DecodeError::UnsupportedEncoding),
            }
        }
    }
}

/// Counts the set entries of a validity row.
pub fn count_set(validity: &Vec<bool>) -> (r: usize)
    ensures
        r == count_true(validity@),
{
    let mut c: usize = 0;
    let mut i: usize = 0;
    proof {
        assert(validity@.take(0) =~= Seq::<bool>::empty());
    }
    while i < validity.len()
        invariant
            i <= validity@.len(),
            c == count_true(validity@.take(i as int)),
            c <= i,
        decreases validity@.len() - i,
    {
        proof {
            assert(validity@.take(i + 1).drop_last() =~= validity@.take(i as int));
        }
        if validity[i] {
            c += 1;
        }
        i += 1;
    }
    proof {
        assert(validity@.take(validity@.len() as int) =~= validity@);
    }
    c
}

/// Resolves a row of dictionary indices. Fails exactly when one of them
/// is out of range.
fn resolve_indices<T: Copy>(idxs: &Vec<u32>, dict: &Dictionary<T>) -> (r: Result<
    Vec<T>,
    DecodeError,
>)
    ensures
        r is Ok <==> (forall|i: int|
            0 <= i < idxs@.len() ==> (#[trigger] idxs@[i]) < dict.values@.len()),
        r matches Ok(v) ==> v@ == idxs@.map_values(|x: u32| dict.values@[x as int]),
        r is Err ==> r->Err_0 == DecodeError::DictionaryIndexOutOfRange,
{
    let ghost mapped = idxs@.map_values(|x: u32| dict.values@[x as int]);
    let mut out: Vec<T> = Vec::new();
    let mut i: usize = 0;
    while i < idxs.len()
        invariant
            i <= idxs@.len(),
            mapped == idxs@.map_values(|x: u32| dict.values@[x as int]),
            out@ =~= mapped.take(i as int),
            forall|k: int| 0 <= k < i ==> (#[trigger] idxs@[k]) < dict.values@.len(),
        decreases idxs@.len() - i,
    {
        let v = match dict.value(idxs[i] as usize) {
            Ok(v) => v,
            Err(e) => {
                return Err(e);
            },
        };
        proof {
            assert(mapped.take(i + 1) =~= mapped.take(i as int).push(mapped[i as int]));
        }
        out.push(v);
        i += 1;
    }
    proof {
        assert(mapped.take(idxs@.len() as int) =~= mapped);
    }
    Ok(out)
}

} // verus!

verus! {

impl<'a, T: NativeType> NativePageState<'a, T> {
    /// Runs the single decode pass for this page: one optional value per
    /// row, or one per selected row when the page carries a selection.
    /// Decoding aborts at the first error; no partial output is
    /// returned.
    #[verifier::rlimit(100)]
    pub fn decode(&self) -> (r: Result<Vec<Option<T>>, DecodeError>)
        requires
            self.wf(),
        ensures
            r is Ok <==> self.spec_decode() is Ok,
            r matches Ok(v) ==> self.spec_decode() == Ok::<Seq<Option<T>>, DecodeError>(v@),
            r is Err ==> self.spec_decode() is Err && r->Err_0 == self.spec_decode()->Err_0,
    {
        match self {
            NativePageState::Required(page) => {
                let n = page.descriptor.num_values;
                let vs = match native_cast::<T>(page.values.as_slice()) {
                    Ok(v) => v,
                    Err(e) => {
                        return Err(e);
                    },
                };
                if vs.len() < n {
                    return Err(DecodeError::CorruptedStream);
                }
                let ghost rows = spec_required_page::<T>(page.values@, n as nat)->Ok_0;
                let mut out: Vec<Option<T>> = Vec::new();
                let mut i: usize = 0;
                while i < n
                    invariant
                        i <= n,
                        n <= vs@.len(),
                        rows == Seq::new(n as nat, |k: int| Some(vs@[k])),
                        out@ =~= rows.take(i as int),
                    decreases n - i,
                {
                    proof {
                        assert(rows.take(i + 1) =~= rows.take(i as int).push(rows[i as int]));
                    }
                    out.push(Some(vs[i]));
                    i += 1;
                }
                proof {
                    assert(rows.take(n as int) =~= rows);
                }
                Ok(out)
            },
            NativePageState::Optional(page) => {
                let n = page.descriptor.num_values;
                let validity = match decode_validity(page.def_levels.as_slice(), n) {
                    Ok(v) => v,
                    Err(e) => {
                        return Err(e);
                    },
                };
                let vs = match native_cast::<T>(page.values.as_slice()) {
                    Ok(v) => v,
                    Err(e) => {
                        return Err(e);
                    },
                };
                match combine_optional(&validity, &vs) {
                    Ok(rows) => Ok(rows),
                    Err(e) => Err(e),
                }
            },
            NativePageState::RequiredDictionary(page, dict) => {
                let n = page.descriptor.num_values;
                let bw = compute_bits_needed(dict.len());
                if bw > 32 {
                    return Err(DecodeError::UnsupportedEncoding);
                }
                let idxs = match hybrid_rle_decode(page.values.as_slice(), bw, n) {
                    Ok(v) => v,
                    Err(e) => {
                        return Err(e);
                    },
                };
                proof {
                    lemma_hybrid_decode_len(page.values@, bw as nat, n as nat);
                }
                let resolved = match resolve_indices(&idxs, dict) {
                    Ok(v) => v,
                    Err(e) => {
                        return Err(e);
                    },
                };
                let ghost rows = spec_required_dict_page::<T>(
                    page.values@,
                    dict.values@,
                    n as nat,
                )->Ok_0;
                let mut out: Vec<Option<T>> = Vec::new();
                let mut i: usize = 0;
                proof {
                    assert(rows =~= Seq::new(
                        n as nat,
                        |k: int| Some(dict.values@[idxs@[k] as int]),
                    ));
                }
                while i < n
                    invariant
                        i <= n,
                        n == idxs@.len(),
                        n == resolved@.len(),
                        resolved@ == idxs@.map_values(|x: u32| dict.values@[x as int]),
                        rows =~= Seq::new(n as nat, |k: int| Some(dict.values@[idxs@[k] as int])),
                        out@ =~= rows.take(i as int),
                    decreases n - i,
                {
                    proof {
                        assert(rows.take(i + 1) =~= rows.take(i as int).push(rows[i as int]));
                    }
                    out.push(Some(resolved[i]));
                    i += 1;
                }
                proof {
                    assert(rows.take(n as int) =~= rows);
                }
                Ok(out)
            },
            NativePageState::OptionalDictionary(page, dict) => {
                let n = page.descriptor.num_values;
                let validity = match decode_validity(page.def_levels.as_slice(), n) {
                    Ok(v) => v,
                    Err(e) => {
                        return Err(e);
                    },
                };
                let c = count_set(&validity);
                let bw = compute_bits_needed(dict.len());
                if bw > 32 {
                    return Err(DecodeError::UnsupportedEncoding);
                }
                let idxs = match hybrid_rle_decode(page.values.as_slice(), bw, c) {
                    Ok(v) => v,
                    Err(e) => {
                        return Err(e);
                    },
                };
                proof {
                    lemma_hybrid_decode_len(page.values@, bw as nat, c as nat);
                }
                let resolved = match resolve_indices(&idxs, dict) {
                    Ok(v) => v,
                    Err(e) => {
                        return Err(e);
                    },
                };
                match combine_optional(&validity, &resolved) {
                    Ok(rows) => {
                        proof {
                            assert(idxs@.map_values(|x: u32| dict.values@[x as int])
                                == resolved@);
                        }
                        Ok(rows)
                    },
                    Err(e) => {
                        proof {
                            assert(false);
                        }
                        Err(e)
                    },
                }
            },
            NativePageState::FilteredRequired(page) => {
                let n = page.descriptor.num_values;
                let sel = match &page.selected_rows {
                    Some(s) => s,
                    None => {
                        proof {
                            assert(false);
                        }
                        return Err(DecodeError::UnsupportedEncoding);
                    },
                };
                let vs = match native_cast::<T>(page.values.as_slice()) {
                    Ok(v) => v,
                    Err(e) => {
                        return Err(e);
                    },
                };
                if vs.len() < n {
                    return Err(DecodeError::CorruptedStream);
                }
                let ghost rows = spec_required_page::<T>(page.values@, n as nat)->Ok_0;
                let mut full: Vec<Option<T>> = Vec::new();
                let mut i: usize = 0;
                while i < n
                    invariant
                        i <= n,
                        n <= vs@.len(),
                        rows == Seq::new(n as nat, |k: int| Some(vs@[k])),
                        full@ =~= rows.take(i as int),
                    decreases n - i,
                {
                    proof {
                        assert(rows.take(i + 1) =~= rows.take(i as int).push(rows[i as int]));
                    }
                    full.push(Some(vs[i]));
                    i += 1;
                }
                proof {
                    assert(rows.take(n as int) =~= rows);
                }
                let out = filter_rows(&full, sel);
                Ok(out)
            },
            NativePageState::FilteredOptional(page) => {
                let n = page.descriptor.num_values;
                let sel = match &page.selected_rows {
                    Some(s) => s,
                    None => {
                        proof {
                            assert(false);
                        }
                        return Err(DecodeError::UnsupportedEncoding);
                    },
                };
                let validity = match decode_validity(page.def_levels.as_slice(), n) {
                    Ok(v) => v,
                    Err(e) => {
                        return Err(e);
                    },
                };
                let vs = match native_cast::<T>(page.values.as_slice()) {
                    Ok(v) => v,
                    Err(e) => {
                        return Err(e);
                    },
                };
                let full = match combine_optional(&validity, &vs) {
                    Ok(rows) => rows,
                    Err(e) => {
                        return Err(e);
                    },
                };
                let out = filter_rows(&full, sel);
                Ok(out)
            },
        }
    }
}

} // verus!

verus! {

/// The character-for-character views of a row of byte values.
pub open spec fn bytes_views(s: Seq<Vec<u8>>) -> Seq<Seq<u8>> {
    s.map_values(|b: Vec<u8>| b@)
}

/// Whether a decoded row of optional byte values matches its model: the
/// same length, absent entries in the same places, and equal bytes in
/// the present ones.
pub open spec fn rows_match(v: Seq<Option<Vec<u8>>>, s: Seq<Option<Seq<u8>>>) -> bool {
    &&& v.len() == s.len()
    &&& forall|i: int|
        0 <= i < v.len() ==> match (#[trigger] v[i], s[i]) {
            (Some(a), Some(b)) => a@ == b,
            (None, None) => true,
            _ => false,
        }
}

/// The byte width of a fixed-length binary page, from its descriptor.
pub open spec fn spec_bin_width(d: Descriptor) -> Option<nat> {
    match d.physical_type {
        PhysicalType::FixedLenByteArray(sz) => if sz >= 1 {
            Some(sz as nat)
        } else {
            None
        },
        _ => None,
    }
}

/// What decoding a plain required fixed-length binary page gives.
pub open spec fn spec_required_bin_page(values: Seq<u8>, w: nat, n: nat) -> Result<
    Seq<Option<Seq<u8>>>,
    DecodeError,
> {
    match crate::deserialize::fixed_len::spec_fixed_chunks(values, w) {
        None => Err(DecodeError::BufferLengthMismatch),
        Some(chunks) => if chunks.len() < n {
            Err(DecodeError::CorruptedStream)
        } else {
            Ok(Seq::new(n, |i: int| Some(chunks[i])))
        },
    }
}

/// What decoding a plain optional fixed-length binary page gives.
pub open spec fn spec_optional_bin_page(
    def_levels: Seq<u8>,
    values: Seq<u8>,
    w: nat,
    n: nat,
) -> Result<Seq<Option<Seq<u8>>>, DecodeError> {
    match spec_validity(def_levels, n) {
        Err(e) => Err(e),
        Ok(validity) => match crate::deserialize::fixed_len::spec_fixed_chunks(values, w) {
            None => Err(DecodeError::BufferLengthMismatch),
            Some(chunks) => if count_true(validity) > chunks.len() {
                Err(DecodeError::Underflow)
            } else {
                Ok(spec_optional_values(validity, chunks))
            },
        },
    }
}

/// What decoding a required dictionary fixed-length binary page gives.
pub open spec fn spec_required_bin_dict_page(
    values: Seq<u8>,
    dict: Seq<Seq<u8>>,
    n: nat,
) -> Result<Seq<Option<Seq<u8>>>, DecodeError> {
    let bw = bits_needed(dict.len());
    if bw > 32 {
        Err(DecodeError::UnsupportedEncoding)
    } else {
        match spec_hybrid_decode(values, bw, n) {
            None => Err(DecodeError::CorruptedStream),
            Some(idxs) => if exists|i: int| 0 <= i < n && (#[trigger] idxs[i]) >= dict.len() {
                Err(DecodeError::DictionaryIndexOutOfRange)
            } else {
                Ok(Seq::new(n, |i: int| Some(dict[idxs[i] as int])))
            },
        }
    }
}

/// What decoding an optional dictionary fixed-length binary page gives.
pub open spec fn spec_optional_bin_dict_page(
    def_levels: Seq<u8>,
    values: Seq<u8>,
    dict: Seq<Seq<u8>>,
    n: nat,
) -> Result<Seq<Option<Seq<u8>>>, DecodeError> {
    match spec_validity(def_levels, n) {
        Err(e) => Err(e),
        Ok(validity) => {
            let c = count_true(validity);
            let bw = bits_needed(dict.len());
            if bw > 32 {
                Err(DecodeError::UnsupportedEncoding)
            } else {
                match spec_hybrid_decode(values, bw, c) {
                    None => Err(DecodeError::CorruptedStream),
                    Some(idxs) => if exists|i: int|
                        0 <= i < c && (#[trigger] idxs[i]) >= dict.len() {
                        Err(DecodeError::DictionaryIndexOutOfRange)
                    } else {
                        Ok(
                            spec_optional_values(
                                validity,
                                idxs.map_values(|x: u32| dict[x as int]),
                            ),
                        )
                    },
                }
            }
        },
    }
}

} // verus!

verus! {

/// Merges a validity row with fixed-length byte values, copying each
/// value that a non-null row consumes. Fails with an underflow exactly
/// when the values run out.
pub fn combine_optional_bytes(validity: &Vec<bool>, values: &Vec<Vec<u8>>) -> (r: Result<
    Vec<Option<Vec<u8>>>,
    DecodeError,
>)
    ensures
        r is Ok <==> count_true(validity@) <= values@.len(),
        r matches Ok(v) ==> rows_match(
            v@,
            spec_optional_values(validity@, bytes_views(values@)),
        ),
        r is Err ==> r->Err_0 == DecodeError::Underflow,
{
    let n = validity.len();
    let ghost model = spec_optional_values(validity@, bytes_views(values@));
    let mut out: Vec<Option<Vec<u8>>> = Vec::new();
    let mut next: usize = 0;
    let mut i: usize = 0;
    proof {
        assert(validity@.take(0) =~= Seq::<bool>::empty());
    }
    while i < n
        invariant
            i <= n,
            n == validity@.len(),
            model == spec_optional_values(validity@, bytes_views(values@)),
            next == count_true(validity@.take(i as int)),
            next <= values@.len(),
            out@.len() == i,
            forall|k: int|
                0 <= k < i ==> match (#[trigger] out@[k], model[k]) {
                    (Some(a), Some(b)) => a@ == b,
                    (None, None) => true,
                    _ => false,
                },
        decreases n - i,
    {
        proof {
            assert(validity@.take(i + 1).drop_last() =~= validity@.take(i as int));
            assert(count_true(validity@.take(i + 1)) == count_true(validity@.take(i as int)) + (
            if validity@[i as int] {
                1nat
            } else {
                0nat
            }));
        }
        if validity[i] {
            if next >= values.len() {
                proof {
                    crate::deserialize::optional::lemma_count_true_prefix(validity@, i + 1);
                }
                return Err(DecodeError::Underflow);
            }
            let b = vstd::slice::slice_to_vec(values[next].as_slice());
            proof {
                assert(bytes_views(values@)[next as int] == values@[next as int]@);
            }
            out.push(Some(b));
            next += 1;
        } else {
            out.push(None);
        }
        i += 1;
    }
    proof {
        assert(validity@.take(n as int) =~= validity@);
    }
    Ok(out)
}

/// Keeps the byte rows whose row index falls in the selection, in
/// ascending order, copying each kept value.
#[verifier::rlimit(100)]
pub fn filter_byte_rows(items: &Vec<Option<Vec<u8>>>, sel: &Vec<RowInterval>, Ghost(model): Ghost<
    Seq<Option<Seq<u8>>>,
>) -> (r: Vec<Option<Vec<u8>>>)
    requires
        sel_wf(sel@, items@.len()),
        rows_match(items@, model),
    ensures
        rows_match(r@, spec_filter(model, sel@)),
{
    let ghost filtered = spec_filter(model, sel@);
    let mut out: Vec<Option<Vec<u8>>> = Vec::new();
    let mut k: usize = 0;
    let ilen = items.len();
    proof {
        assert(sel@.skip(0) =~= sel@);
    }
    while k < sel.len()
        invariant
            k <= sel@.len(),
            ilen == items@.len(),
            model.len() == items@.len(),
            rows_match(items@, model),
            sel_wf(sel@, items@.len()),
            filtered == spec_filter(model, sel@),
            spec_filter(model, sel@) =~= spec_filter(model, sel@.take(k as int)) + spec_filter(
                model,
                sel@.skip(k as int),
            ),
            out@.len() == spec_filter(model, sel@.take(k as int)).len(),
            forall|j: int|
                0 <= j < out@.len() ==> match (#[trigger] out@[j], spec_filter(
                    model,
                    sel@.take(k as int),
                )[j]) {
                    (Some(a), Some(b)) => a@ == b,
                    (None, None) => true,
                    _ => false,
                },
        decreases sel@.len() - k,
    {
        let iv = sel[k];
        let ghost done = spec_filter(model, sel@.take(k as int));
        let mut t: usize = 0;
        while t < iv.length
            invariant
                t <= iv.length,
                ilen == items@.len(),
                model.len() == items@.len(),
                rows_match(items@, model),
                iv.start + iv.length <= items@.len(),
                done == spec_filter(model, sel@.take(k as int)),
                out@.len() == done.len() + t,
                forall|j: int|
                    0 <= j < done.len() ==> match (#[trigger] out@[j], done[j]) {
                        (Some(a), Some(b)) => a@ == b,
                        (None, None) => true,
                        _ => false,
                    },
                forall|j: int|
                    0 <= j < t ==> match (#[trigger] out@[done.len() + j], model[iv.start + j]) {
                        (Some(a), Some(b)) => a@ == b,
                        (None, None) => true,
                        _ => false,
                    },
            decreases iv.length - t,
        {
            let copied: Option<Vec<u8>> = match &items[iv.start + t] {
                Some(v) => Some(vstd::slice::slice_to_vec(v.as_slice())),
                None => None,
            };
            out.push(copied);
            t += 1;
        }
        proof {
            assert(sel@.take(k + 1).drop_last() =~= sel@.take(k as int));
            assert(sel@.take(k + 1).last() == iv);
            crate::deserialize::filter::lemma_filter_snoc(model, sel@.take(k + 1));
            assert(spec_filter(model, sel@.take(k + 1)) =~= done + model.subrange(
                iv.start as int,
                iv.start + iv.length,
            ));
            assert(sel@.skip(k as int)[0] == iv);
            assert(sel@.skip(k as int).skip(1) =~= sel@.skip(k + 1));
            assert(spec_filter(model, sel@.skip(k as int)) == model.subrange(
                iv.start as int,
                iv.start + iv.length,
            ) + spec_filter(model, sel@.skip(k + 1)));
            assert((done + model.subrange(iv.start as int, iv.start + iv.length)) + spec_filter(
                model,
                sel@.skip(k + 1),
            ) =~= done + (model.subrange(iv.start as int, iv.start + iv.length) + spec_filter(
                model,
                sel@.skip(k + 1),
            )));
            assert(spec_filter(model, sel@) =~= spec_filter(model, sel@.take(k + 1))
                + spec_filter(model, sel@.skip(k + 1)));
            assert forall|j: int| 0 <= j < out@.len() implies match (#[trigger] out@[j],
            spec_filter(model, sel@.take(k + 1))[j]) {
                (Some(a), Some(b)) => a@ == b,
                (None, None) => true,
                _ => false,
            } by {
                if j >= done.len() {
                    let j2 = j - done.len();
                    assert(out@[done.len() + j2] == out@[j]);
                    assert(spec_filter(model, sel@.take(k + 1))[j] == model.subrange(
                        iv.start as int,
                        iv.start + iv.length,
                    )[j2]);
                    assert(model.subrange(iv.start as int, iv.start + iv.length)[j2] == model[
                        iv.start + j2
                    ]);
                } else {
                    assert(spec_filter(model, sel@.take(k + 1))[j] == done[j]);
                }
            }
        }
        k += 1;
    }
    proof {
        assert(sel@.take(sel@.len() as int) =~= sel@);
    }
    out
}

/// The decode shape of one fixed-length binary page, chosen once per
/// page and consumed by a single decode pass.
pub enum FixedLenBinaryPageState<'a> {
    /// Plain required values.
    Required(&'a DataPage),
    /// Plain optional values: validity bits, then the non-null values.
    Optional(&'a DataPage),
    /// Dictionary indices, each resolved through the dictionary.
    RequiredDictionary(&'a DataPage, &'a crate::deserialize::dictionary::FixedLenDictionary),
    /// Validity bits, then one dictionary index per non-null row.
    OptionalDictionary(&'a DataPage, &'a crate::deserialize::dictionary::FixedLenDictionary),
    /// Plain required values restricted to the selected rows.
    FilteredRequired(&'a DataPage),
    /// Plain optional values restricted to the selected rows.
    FilteredOptional(&'a DataPage),
}

impl<'a> FixedLenBinaryPageState<'a> {
    /// The page behind the state is well formed and names a positive
    /// fixed byte width.
    pub open spec fn wf(self) -> bool {
        match self {
            FixedLenBinaryPageState::Required(p) => p.wf() && spec_bin_width(p.descriptor)
                is Some,
            FixedLenBinaryPageState::Optional(p) => p.wf() && spec_bin_width(p.descriptor)
                is Some,
            FixedLenBinaryPageState::RequiredDictionary(p, _) => p.wf() && spec_bin_width(
                p.descriptor,
            ) is Some,
            FixedLenBinaryPageState::OptionalDictionary(p, _) => p.wf() && spec_bin_width(
                p.descriptor,
            ) is Some,
            FixedLenBinaryPageState::FilteredRequired(p) => p.wf() && spec_bin_width(p.descriptor)
                is Some && p.selected_rows is Some,
            FixedLenBinaryPageState::FilteredOptional(p) => p.wf() && spec_bin_width(p.descriptor)
                is Some && p.selected_rows is Some,
        }
    }

    /// What decoding this state's page gives.
    pub open spec fn spec_decode(self) -> Result<Seq<Option<Seq<u8>>>, DecodeError> {
        match self {
            FixedLenBinaryPageState::Required(p) => spec_required_bin_page(
                p.values@,
                spec_bin_width(p.descriptor)->0,
                p.descriptor.num_values as nat,
            ),
            FixedLenBinaryPageState::Optional(p) => spec_optional_bin_page(
                p.def_levels@,
                p.values@,
                spec_bin_width(p.descriptor)->0,
                p.descriptor.num_values as nat,
            ),
            FixedLenBinaryPageState::RequiredDictionary(p, d) => spec_required_bin_dict_page(
                p.values@,
                bytes_views(d.values@),
                p.descriptor.num_values as nat,
            ),
            FixedLenBinaryPageState::OptionalDictionary(p, d) => spec_optional_bin_dict_page(
                p.def_levels@,
                p.values@,
                bytes_views(d.values@),
                p.descriptor.num_values as nat,
            ),
            FixedLenBinaryPageState::FilteredRequired(p) => match p.selected_rows {
                Some(sel) => match spec_required_bin_page(
                    p.values@,
                    spec_bin_width(p.descriptor)->0,
                    p.descriptor.num_values as nat,
                ) {
                    Err(e) => Err(e),
                    Ok(rows) => Ok(spec_filter(rows, sel@)),
                },
                None => Err(DecodeError::UnsupportedEncoding),
            },
            FixedLenBinaryPageState::FilteredOptional(p) => match p.selected_rows {
                Some(sel) => match spec_optional_bin_page(
                    p.def_levels@,
                    p.values@,
                    spec_bin_width(p.descriptor)->0,
                    p.descriptor.num_values as nat,
                ) {
                    Err(e) => Err(e),
                    Ok(rows) => Ok(spec_filter(rows, sel@)),
                },
                None => Err(DecodeError::UnsupportedEncoding),
            },
        }
    }

    /// Chooses the decode shape for a fixed-length binary page. Succeeds
    /// exactly on the implemented combinations of encoding, repetition,
    /// dictionary and filtering, on a page whose descriptor names a
    /// positive fixed width. As for the other value types, filtering is
    /// only supported for plain pages; combined with dictionary encoding
    /// it fails rather than ignoring the filter.
    pub fn try_new(
        page: &'a DataPage,
        dict: Option<&'a crate::deserialize::dictionary::FixedLenDictionary>,
    ) -> (r: Result<Self, DecodeError>)
        requires
            page.wf(),
        ensures
            r is Ok <==> (spec_bin_width(page.descriptor) is Some && spec_shape_supported(
                page.descriptor,
                dict is Some,
                page.selected_rows is Some,
            )),
            r is Err ==> r->Err_0 == DecodeError::UnsupportedEncoding,
            r matches Ok(s) ==> s.wf(),
            r matches Ok(s) ==> s == (if page.selected_rows is Some {
                if page.descriptor.repetition == Repetition::Required {
                    FixedLenBinaryPageState::FilteredRequired(page)
                } else {
                    FixedLenBinaryPageState::FilteredOptional(page)
                }
            } else {
                match (page.descriptor.encoding, page.descriptor.repetition) {
                    (Encoding::Plain, Repetition::Required) => FixedLenBinaryPageState::Required(
                        page,
                    ),
                    (Encoding::Plain, Repetition::Optional) => FixedLenBinaryPageState::Optional(
                        page,
                    ),
                    (Encoding::RleDictionary, Repetition::Required)
                        => FixedLenBinaryPageState::RequiredDictionary(page, dict->0),
                    _ => FixedLenBinaryPageState::OptionalDictionary(page, dict->0),
                }
            }),
    {
        let width_ok = match page.descriptor.physical_type {
            PhysicalType::FixedLenByteArray(sz) => sz >= 1,
            _ => false,
        };
        if !width_ok {
            return Err(DecodeError::UnsupportedEncoding);
        }
        let is_optional = matches!(page.descriptor.repetition, Repetition::Optional);
        let is_required = matches!(page.descriptor.repetition, Repetition::Required);
        if page.selected_rows.is_some() {
            match (page.descriptor.encoding, is_optional, is_required) {
                (Encoding::Plain, true, _) => Ok(FixedLenBinaryPageState::FilteredOptional(page)),
                (Encoding::Plain, _, true) => Ok(FixedLenBinaryPageState::FilteredRequired(page)),
                _ => Err(DecodeError::UnsupportedEncoding),
            }
        } else {
            match (page.descriptor.encoding, dict, is_optional, is_required) {
                (Encoding::Plain, _, _, true) => Ok(FixedLenBinaryPageState::Required(page)),
                (Encoding::Plain, _, true, _) => Ok(FixedLenBinaryPageState::Optional(page)),
                (Encoding::RleDictionary, Some(d), _, true) => Ok(
                    FixedLenBinaryPageState::RequiredDictionary(page, d),
                ),
                (Encoding::RleDictionary, Some(d), true, _) => Ok(
                    FixedLenBinaryPageState::OptionalDictionary(page, d),
                ),
                _ => Err(DecodeError::UnsupportedEncoding),
            }
        }
    }
}

} // verus!

verus! {


/// Resolves a row of dictionary indices to copies of their byte values.
/// Fails exactly when one of them is out of range.
fn resolve_bin_indices(
    idxs: &Vec<u32>,
    dict: &crate::deserialize::dictionary::FixedLenDictionary,
) -> (r: Result<Vec<Vec<u8>>, DecodeError>)
    ensures
        r is Ok <==> (forall|i: int|
            0 <= i < idxs@.len() ==> (#[trigger] idxs@[i]) < dict.values@.len()),
        r matches Ok(v) ==> {
            &&& v@.len() == idxs@.len()
            &&& forall|i: int|
                0 <= i < idxs@.len() ==> (#[trigger] v@[i])@ == bytes_views(dict.values@)[idxs@[i] as int]
        },
        r is Err ==> r->Err_0 == DecodeError::DictionaryIndexOutOfRange,
{
    let mut out: Vec<Vec<u8>> = Vec::new();
    let mut i: usize = 0;
    while i < idxs.len()
        invariant
            i <= idxs@.len(),
            forall|k: int| 0 <= k < i ==> (#[trigger] idxs@[k]) < dict.values@.len(),
            out@.len() == i,
            forall|k: int|
                0 <= k < i ==> (#[trigger] out@[k])@ == bytes_views(dict.values@)[idxs@[k] as int],
        decreases idxs@.len() - i,
    {
        let b = match dict.value(idxs[i] as usize) {
            Ok(v) => v,
            Err(e) => {
                return Err(e);
            },
        };
        proof {
            assert(bytes_views(dict.values@)[idxs@[i as int] as int] == dict.values@[idxs@[
                i as int
            ] as int]@);
        }
        out.push(b);
        i += 1;
    }
    Ok(out)
}

impl<'a> FixedLenBinaryPageState<'a> {
    /// Runs the single decode pass for this fixed-length binary page:
    /// one optional byte value per row. Decoding aborts at the first
    /// error; no partial output is returned.
    #[verifier::rlimit(100)]
    pub fn decode(&self) -> (r: Result<Vec<Option<Vec<u8>>>, DecodeError>)
        requires
            self.wf(),
        ensures
            r is Ok <==> self.spec_decode() is Ok,
            r matches Ok(v) ==> (self.spec_decode() matches Ok(s) && rows_match(v@, s)),
            r is Err ==> self.spec_decode() is Err && r->Err_0 == self.spec_decode()->Err_0,
    {
        match self {
            FixedLenBinaryPageState::Required(page) => {
                let n = page.descriptor.num_values;
                let w = match page.descriptor.physical_type {
                    PhysicalType::FixedLenByteArray(sz) => sz as usize,
                    _ => {
                        proof {
                            assert(false);
                        }
                        return Err(DecodeError::UnsupportedEncoding);
                    },
                };
                let chunks = match crate::deserialize::fixed_len::decode_fixed_len(
                    page.values.as_slice(),
                    w,
                ) {
                    Ok(c) => c,
                    Err(e) => {
                        return Err(e);
                    },
                };
                if chunks.len() < n {
                    return Err(DecodeError::CorruptedStream);
                }
                let ghost model = self.spec_decode()->Ok_0;
                let mut out: Vec<Option<Vec<u8>>> = Vec::new();
                let mut i: usize = 0;
                while i < n
                    invariant
                        i <= n,
                        n <= chunks@.len(),
                        model == self.spec_decode()->Ok_0,
                        self.spec_decode() is Ok,
                        model.len() == n,
                        forall|k: int|
                            0 <= k < n ==> (#[trigger] model[k] matches Some(b) && b == (
                            crate::deserialize::fixed_len::spec_fixed_chunks(
                                page.values@,
                                spec_bin_width(page.descriptor)->0,
                            )->0)[k]),
                        forall|k: int|
                            0 <= k < chunks@.len() ==> (#[trigger] chunks@[k])@ == (
                            crate::deserialize::fixed_len::spec_fixed_chunks(
                                page.values@,
                                spec_bin_width(page.descriptor)->0,
                            )->0)[k],
                        out@.len() == i,
                        forall|k: int|
                            0 <= k < i ==> match (#[trigger] out@[k], model[k]) {
                                (Some(a), Some(b)) => a@ == b,
                                (None, None) => true,
                                _ => false,
                            },
                    decreases n - i,
                {
                    let b = vstd::slice::slice_to_vec(chunks[i].as_slice());
                    out.push(Some(b));
                    i += 1;
                }
                Ok(out)
            },
            FixedLenBinaryPageState::Optional(page) => {
                let n = page.descriptor.num_values;
                let w = match page.descriptor.physical_type {
                    PhysicalType::FixedLenByteArray(sz) => sz as usize,
                    _ => {
                        proof {
                            assert(false);
                        }
                        return Err(DecodeError::UnsupportedEncoding);
                    },
                };
                let validity = match decode_validity(page.def_levels.as_slice(), n) {
                    Ok(v) => v,
                    Err(e) => {
                        return Err(e);
                    },
                };
                let chunks = match crate::deserialize::fixed_len::decode_fixed_len(
                    page.values.as_slice(),
                    w,
                ) {
                    Ok(c) => c,
                    Err(e) => {
                        return Err(e);
                    },
                };
                proof {
                    assert(bytes_views(chunks@) =~= crate::deserialize::fixed_len::spec_fixed_chunks(
                        page.values@,
                        spec_bin_width(page.descriptor)->0,
                    )->0);
                }
                match combine_optional_bytes(&validity, &chunks) {
                    Ok(rows) => Ok(rows),
                    Err(e) => Err(e),
                }
            },
            FixedLenBinaryPageState::RequiredDictionary(page, dict) => {
                let n = page.descriptor.num_values;
                let bw = compute_bits_needed(dict.len());
                if bw > 32 {
                    return Err(DecodeError::UnsupportedEncoding);
                }
                let idxs = match hybrid_rle_decode(page.values.as_slice(), bw, n) {
                    Ok(v) => v,
                    Err(e) => {
                        return Err(e);
                    },
                };
                proof {
                    lemma_hybrid_decode_len(page.values@, bw as nat, n as nat);
                }
                let ghost dviews = bytes_views(dict.values@);
                let ghost model = self.spec_decode()->Ok_0;
                let mut out: Vec<Option<Vec<u8>>> = Vec::new();
                let mut i: usize = 0;
                while i < n
                    invariant
                        i <= n,
                        n == idxs@.len(),
                        dviews == bytes_views(dict.values@),
                        model == self.spec_decode()->Ok_0,
                        self.spec_decode() == spec_required_bin_dict_page(
                            page.values@,
                            dviews,
                            n as nat,
                        ),
                        bits_needed(dviews.len()) <= 32,
                        spec_hybrid_decode(page.values@, bits_needed(dviews.len()), n as nat)
                            == Some(idxs@),
                        forall|k: int| 0 <= k < i ==> (#[trigger] idxs@[k]) < dviews.len(),
                        out@.len() == i,
                        forall|k: int|
                            0 <= k < i ==> match (#[trigger] out@[k]) {
                                Some(a) => a@ == dviews[idxs@[k] as int],
                                None => false,
                            },
                    decreases n - i,
                {
                    let b = match dict.value(idxs[i] as usize) {
                        Ok(v) => v,
                        Err(e) => {
                            return Err(e);
                        },
                    };
                    proof {
                        assert(dviews[idxs@[i as int] as int] == dict.values@[idxs@[
                            i as int
                        ] as int]@);
                    }
                    out.push(Some(b));
                    i += 1;
                }
                proof {
                    assert(!(exists|k: int| 0 <= k < n && (#[trigger] idxs@[k]) >= dviews.len()));
                    assert(model =~= Seq::new(n as nat, |k: int| Some(dviews[idxs@[k] as int])));
                }
                Ok(out)
            },
            FixedLenBinaryPageState::OptionalDictionary(page, dict) => {
                let n = page.descriptor.num_values;
                let validity = match decode_validity(page.def_levels.as_slice(), n) {
                    Ok(v) => v,
                    Err(e) => {
                        return Err(e);
                    },
                };
                let c = count_set(&validity);
                let bw = compute_bits_needed(dict.len());
                if bw > 32 {
                    return Err(DecodeError::UnsupportedEncoding);
                }
                let idxs = match hybrid_rle_decode(page.values.as_slice(), bw, c) {
                    Ok(v) => v,
                    Err(e) => {
                        return Err(e);
                    },
                };
                proof {
                    lemma_hybrid_decode_len(page.values@, bw as nat, c as nat);
                }
                let ghost dviews = bytes_views(dict.values@);
                let resolved = match resolve_bin_indices(&idxs, dict) {
                    Ok(v) => v,
                    Err(e) => {
                        return Err(e);
                    },
                };
                proof {
                    assert(!(exists|k: int| 0 <= k < c && (#[trigger] idxs@[k]) >= dviews.len()));
                }
                match combine_optional_bytes(&validity, &resolved) {
                    Ok(rows) => {
                        proof {
                            assert(bytes_views(resolved@) =~= idxs@.map_values(
                                |x: u32| dviews[x as int],
                            ));
                        }
                        Ok(rows)
                    },
                    Err(e) => {
                        proof {
                            assert(false);
                        }
                        Err(e)
                    },
                }
            },
            FixedLenBinaryPageState::FilteredRequired(page) => {
                let n = page.descriptor.num_values;
                let sel = match &page.selected_rows {
                    Some(s) => s,
                    None => {
                        proof {
                            assert(false);
                        }
                        return Err(DecodeError::UnsupportedEncoding);
                    },
                };
                let w = match page.descriptor.physical_type {
                    PhysicalType::FixedLenByteArray(sz) => sz as usize,
                    _ => {
                        proof {
                            assert(false);
                        }
                        return Err(DecodeError::UnsupportedEncoding);
                    },
                };
                let chunks = match crate::deserialize::fixed_len::decode_fixed_len(
                    page.values.as_slice(),
                    w,
                ) {
                    Ok(c) => c,
                    Err(e) => {
                        return Err(e);
                    },
                };
                if chunks.len() < n {
                    return Err(DecodeError::CorruptedStream);
                }
                let ghost model = spec_required_bin_page(
                    page.values@,
                    spec_bin_width(page.descriptor)->0,
                    n as nat,
                )->Ok_0;
                let mut full: Vec<Option<Vec<u8>>> = Vec::new();
                let mut i: usize = 0;
                while i < n
                    invariant
                        i <= n,
                        n <= chunks@.len(),
                        model == spec_required_bin_page(
                            page.values@,
                            spec_bin_width(page.descriptor)->0,
                            n as nat,
                        )->Ok_0,
                        spec_required_bin_page(
                            page.values@,
                            spec_bin_width(page.descriptor)->0,
                            n as nat,
                        ) is Ok,
                        model.len() == n,
                        forall|k: int|
                            0 <= k < n ==> (#[trigger] model[k] matches Some(b) && b == (
                            crate::deserialize::fixed_len::spec_fixed_chunks(
                                page.values@,
                                spec_bin_width(page.descriptor)->0,
                            )->0)[k]),
                        forall|k: int|
                            0 <= k < chunks@.len() ==> (#[trigger] chunks@[k])@ == (
                            crate::deserialize::fixed_len::spec_fixed_chunks(
                                page.values@,
                                spec_bin_width(page.descriptor)->0,
                            )->0)[k],
                        full@.len() == i,
                        forall|k: int|
                            0 <= k < i ==> match (#[trigger] full@[k], model[k]) {
                                (Some(a), Some(b)) => a@ == b,
                                (None, None) => true,
                                _ => false,
                            },
                    decreases n - i,
                {
                    let b = vstd::slice::slice_to_vec(chunks[i].as_slice());
                    full.push(Some(b));
                    i += 1;
                }
                let out = filter_byte_rows(&full, sel, Ghost(model));
                Ok(out)
            },
            FixedLenBinaryPageState::FilteredOptional(page) => {
                let n = page.descriptor.num_values;
                let sel = match &page.selected_rows {
                    Some(s) => s,
                    None => {
                        proof {
                            assert(false);
                        }
                        return Err(DecodeError::UnsupportedEncoding);
                    },
                };
                let w = match page.descriptor.physical_type {
                    PhysicalType::FixedLenByteArray(sz) => sz as usize,
                    _ => {
                        proof {
                            assert(false);
                        }
                        return Err(DecodeError::UnsupportedEncoding);
                    },
                };
                let validity = match decode_validity(page.def_levels.as_slice(), n) {
                    Ok(v) => v,
                    Err(e) => {
                        return Err(e);
                    },
                };
                let chunks = match crate::deserialize::fixed_len::decode_fixed_len(
                    page.values.as_slice(),
                    w,
                ) {
                    Ok(c) => c,
                    Err(e) => {
                        return Err(e);
                    },
                };
                proof {
                    assert(bytes_views(chunks@) =~= crate::deserialize::fixed_len::spec_fixed_chunks(
                        page.values@,
                        spec_bin_width(page.descriptor)->0,
                    )->0);
                }
                let full = match combine_optional_bytes(&validity, &chunks) {
                    Ok(rows) => rows,
                    Err(e) => {
                        return Err(e);
                    },
                };
                let ghost model = spec_optional_bin_page(
                    page.def_levels@,
                    page.values@,
                    spec_bin_width(page.descriptor)->0,
                    n as nat,
                )->Ok_0;
                proof {
                    crate::deserialize::optional::lemma_optional_values_shape(
                        validity@,
                        bytes_views(chunks@),
                    );
                }
                let out = filter_byte_rows(&full, sel, Ghost(model));
                Ok(out)
            },
        }
    }
}

} // verus!

verus! {

/// What decoding a plain required boolean page gives: one bit per row.
pub open spec fn spec_required_bool_page(values: Seq<u8>, n: nat) -> Result<
    Seq<Option<bool>>,
    DecodeError,
> {
    if n <= 8 * values.len() {
        Ok(
            Seq::new(
                n,
                |i: int| Some(crate::deserialize::bitutil::spec_bit(values, i) == 1),
            ),
        )
    } else {
        Err(DecodeError::CorruptedStream)
    }
}

/// What decoding a plain optional boolean page gives: the validity bits
/// merged with one packed bit per non-null row.
pub open spec fn spec_optional_bool_page(def_levels: Seq<u8>, values: Seq<u8>, n: nat) -> Result<
    Seq<Option<bool>>,
    DecodeError,
> {
    match spec_validity(def_levels, n) {
        Err(e) => Err(e),
        Ok(validity) => {
            let c = count_true(validity);
            if c <= 8 * values.len() {
                Ok(
                    spec_optional_values(
                        validity,
                        crate::deserialize::boolean::spec_plain_booleans(values, c),
                    ),
                )
            } else {
                Err(DecodeError::CorruptedStream)
            }
        },
    }
}

/// The decode shape of one boolean page: plain booleans are packed one
/// bit per row directly in the values region, with no run headers.
pub enum BooleanPageState<'a> {
    /// Plain required values.
    Required(&'a DataPage),
    /// Plain optional values: validity bits, then the non-null bits.
    Optional(&'a DataPage),
    /// Dictionary indices, each resolved through the dictionary.
    RequiredDictionary(&'a DataPage, &'a Dictionary<bool>),
    /// Validity bits, then one dictionary index per non-null row.
    OptionalDictionary(&'a DataPage, &'a Dictionary<bool>),
    /// Plain required values restricted to the selected rows.
    FilteredRequired(&'a DataPage),
    /// Plain optional values restricted to the selected rows.
    FilteredOptional(&'a DataPage),
}

impl<'a> BooleanPageState<'a> {
    /// The page behind the state is well formed, and a filtered state
    /// carries a selection.
    pub open spec fn wf(self) -> bool {
        match self {
            BooleanPageState::Required(p) => p.wf(),
            BooleanPageState::Optional(p) => p.wf(),
            BooleanPageState::RequiredDictionary(p, _) => p.wf(),
            BooleanPageState::OptionalDictionary(p, _) => p.wf(),
            BooleanPageState::FilteredRequired(p) => p.wf() && p.selected_rows is Some,
            BooleanPageState::FilteredOptional(p) => p.wf() && p.selected_rows is Some,
        }
    }

    /// What decoding this state's page gives.
    pub open spec fn spec_decode(self) -> Result<Seq<Option<bool>>, DecodeError> {
        match self {
            BooleanPageState::Required(p) => spec_required_bool_page(
                p.values@,
                p.descriptor.num_values as nat,
            ),
            BooleanPageState::Optional(p) => spec_optional_bool_page(
                p.def_levels@,
                p.values@,
                p.descriptor.num_values as nat,
            ),
            BooleanPageState::RequiredDictionary(p, d) => spec_required_dict_page::<bool>(
                p.values@,
                d.values@,
                p.descriptor.num_values as nat,
            ),
            BooleanPageState::OptionalDictionary(p, d) => spec_optional_dict_page::<bool>(
                p.def_levels@,
                p.values@,
                d.values@,
                p.descriptor.num_values as nat,
            ),
            BooleanPageState::FilteredRequired(p) => match p.selected_rows {
                Some(sel) => match spec_required_bool_page(
                    p.values@,
                    p.descriptor.num_values as nat,
                ) {
                    Err(e) => Err(e),
                    Ok(rows) => Ok(spec_filter(rows, sel@)),
                },
                None => Err(DecodeError::UnsupportedEncoding),
            },
            BooleanPageState::FilteredOptional(p) => match p.selected_rows {
                Some(sel) => match spec_optional_bool_page(
                    p.def_levels@,
                    p.values@,
                    p.descriptor.num_values as nat,
                ) {
                    Err(e) => Err(e),
                    Ok(rows) => Ok(spec_filter(rows, sel@)),
                },
                None => Err(DecodeError::UnsupportedEncoding),
            },
        }
    }

    /// Chooses the decode shape for a boolean page. Succeeds exactly on
    /// the implemented combinations of encoding, repetition, dictionary
    /// and filtering; filtering combined with dictionary encoding fails
    /// rather than ignoring the filter.
    pub fn try_new(page: &'a DataPage, dict: Option<&'a Dictionary<bool>>) -> (r: Result<
        Self,
        DecodeError,
    >)
        requires
            page.wf(),
        ensures
            r is Ok <==> spec_shape_supported(
                page.descriptor,
                dict is Some,
                page.selected_rows is Some,
            ),
            r is Err ==> r->Err_0 == DecodeError::UnsupportedEncoding,
            r matches Ok(s) ==> s.wf(),
            r matches Ok(s) ==> s == (if page.selected_rows is Some {
                if page.descriptor.repetition == Repetition::Required {
                    BooleanPageState::FilteredRequired(page)
                } else {
                    BooleanPageState::FilteredOptional(page)
                }
            } else {
                match (page.descriptor.encoding, page.descriptor.repetition) {
                    (Encoding::Plain, Repetition::Required) => BooleanPageState::Required(page),
                    (Encoding::Plain, Repetition::Optional) => BooleanPageState::Optional(page),
                    (Encoding::RleDictionary, Repetition::Required)
                        => BooleanPageState::RequiredDictionary(page, dict->0),
                    _ => BooleanPageState::OptionalDictionary(page, dict->0),
                }
            }),
    {
        let is_optional = matches!(page.descriptor.repetition, Repetition::Optional);
        let is_required = matches!(page.descriptor.repetition, Repetition::Required);
        if page.selected_rows.is_some() {
            match (page.descriptor.encoding, is_optional, is_required) {
                (Encoding::Plain, true, _) => Ok(BooleanPageState::FilteredOptional(page)),
                (Encoding::Plain, _, true) => Ok(BooleanPageState::FilteredRequired(page)),
                _ => Err(DecodeError::UnsupportedEncoding),
            }
        } else {
            match (page.descriptor.encoding, dict, is_optional, is_required) {
                (Encoding::Plain, _, _, true) => Ok(BooleanPageState::Required(page)),
                (Encoding::Plain, _, true, _) => Ok(BooleanPageState::Optional(page)),
                (Encoding::RleDictionary, Some(d), _, true) => Ok(
                    BooleanPageState::RequiredDictionary(page, d),
                ),
                (Encoding::RleDictionary, Some(d), true, _) => Ok(
                    BooleanPageState::OptionalDictionary(page, d),
                ),
                _ => Err(DecodeError::UnsupportedEncoding),
            }
        }
    }

    /// Runs the single decode pass for this boolean page: one optional
    /// boolean per row, or one per selected row when the page carries a
    /// selection.
    #[verifier::rlimit(100)]
    pub fn decode(&self) -> (r: Result<Vec<Option<bool>>, DecodeError>)
        requires
            self.wf(),
        ensures
            r is Ok <==> self.spec_decode() is Ok,
            r matches Ok(v) ==> self.spec_decode() == Ok::<Seq<Option<bool>>, DecodeError>(v@),
            r is Err ==> self.spec_decode() is Err && r->Err_0 == self.spec_decode()->Err_0,
    {
        match self {
            BooleanPageState::Required(page) => {
                let n = page.descriptor.num_values;
                let bits = match crate::deserialize::boolean::decode_plain_booleans(
                    page.values.as_slice(),
                    n,
                ) {
                    Ok(b) => b,
                    Err(e) => {
                        return Err(e);
                    },
                };
                let rows = wrap_required_bools(&bits);
                proof {
                    assert(self.spec_decode()->Ok_0 =~= rows@);
                }
                Ok(rows)
            },
            BooleanPageState::Optional(page) => {
                let n = page.descriptor.num_values;
                let validity = match decode_validity(page.def_levels.as_slice(), n) {
                    Ok(v) => v,
                    Err(e) => {
                        return Err(e);
                    },
                };
                let c = count_set(&validity);
                let bits = match crate::deserialize::boolean::decode_plain_booleans(
                    page.values.as_slice(),
                    c,
                ) {
                    Ok(b) => b,
                    Err(e) => {
                        return Err(e);
                    },
                };
                match combine_optional(&validity, &bits) {
                    Ok(rows) => Ok(rows),
                    Err(e) => {
                        proof {
                            assert(false);
                        }
                        Err(e)
                    },
                }
            },
            BooleanPageState::RequiredDictionary(page, dict) => {
                let n = page.descriptor.num_values;
                let bw = compute_bits_needed(dict.len());
                if bw > 32 {
                    return Err(DecodeError::UnsupportedEncoding);
                }
                let idxs = match hybrid_rle_decode(page.values.as_slice(), bw, n) {
                    Ok(v) => v,
                    Err(e) => {
                        return Err(e);
                    },
                };
                proof {
                    lemma_hybrid_decode_len(page.values@, bw as nat, n as nat);
                }
                let resolved = match resolve_indices(&idxs, dict) {
                    Ok(v) => v,
                    Err(e) => {
                        return Err(e);
                    },
                };
                let ghost rows = spec_required_dict_page::<bool>(
                    page.values@,
                    dict.values@,
                    n as nat,
                )->Ok_0;
                let mut out: Vec<Option<bool>> = Vec::new();
                let mut i: usize = 0;
                proof {
                    assert(rows =~= Seq::new(
                        n as nat,
                        |k: int| Some(dict.values@[idxs@[k] as int]),
                    ));
                }
                while i < n
                    invariant
                        i <= n,
                        n == idxs@.len(),
                        n == resolved@.len(),
                        resolved@ == idxs@.map_values(|x: u32| dict.values@[x as int]),
                        rows =~= Seq::new(n as nat, |k: int| Some(dict.values@[idxs@[k] as int])),
                        out@ =~= rows.take(i as int),
                    decreases n - i,
                {
                    proof {
                        assert(rows.take(i + 1) =~= rows.take(i as int).push(rows[i as int]));
                    }
                    out.push(Some(resolved[i]));
                    i += 1;
                }
                proof {
                    assert(rows.take(n as int) =~= rows);
                }
                Ok(out)
            },
            BooleanPageState::OptionalDictionary(page, dict) => {
                let n = page.descriptor.num_values;
                let validity = match decode_validity(page.def_levels.as_slice(), n) {
                    Ok(v) => v,
                    Err(e) => {
                        return Err(e);
                    },
                };
                let c = count_set(&validity);
                let bw = compute_bits_needed(dict.len());
                if bw > 32 {
                    return Err(DecodeError::UnsupportedEncoding);
                }
                let idxs = match hybrid_rle_decode(page.values.as_slice(), bw, c) {
                    Ok(v) => v,
                    Err(e) => {
                        return Err(e);
                    },
                };
                proof {
                    lemma_hybrid_decode_len(page.values@, bw as nat, c as nat);
                }
                let resolved = match resolve_indices(&idxs, dict) {
                    Ok(v) => v,
                    Err(e) => {
                        return Err(e);
                    },
                };
                match combine_optional(&validity, &resolved) {
                    Ok(rows) => {
                        proof {
                            assert(idxs@.map_values(|x: u32| dict.values@[x as int])
                                == resolved@);
                        }
                        Ok(rows)
                    },
                    Err(e) => {
                        proof {
                            assert(false);
                        }
                        Err(e)
                    },
                }
            },
            BooleanPageState::FilteredRequired(page) => {
                let n = page.descriptor.num_values;
                let sel = match &page.selected_rows {
                    Some(s) => s,
                    None => {
                        proof {
                            assert(false);
                        }
                        return Err(DecodeError::UnsupportedEncoding);
                    },
                };
                let bits = match crate::deserialize::boolean::decode_plain_booleans(
                    page.values.as_slice(),
                    n,
                ) {
                    Ok(b) => b,
                    Err(e) => {
                        return Err(e);
                    },
                };
                let full = wrap_required_bools(&bits);
                proof {
                    assert(spec_required_bool_page(page.values@, n as nat)->Ok_0 =~= full@);
                }
                Ok(filter_rows(&full, sel))
            },
            BooleanPageState::FilteredOptional(page) => {
                let n = page.descriptor.num_values;
                let sel = match &page.selected_rows {
                    Some(s) => s,
                    None => {
                        proof {
                            assert(false);
                        }
                        return Err(DecodeError::UnsupportedEncoding);
                    },
                };
                let validity = match decode_validity(page.def_levels.as_slice(), n) {
                    Ok(v) => v,
                    Err(e) => {
                        return Err(e);
                    },
                };
                let c = count_set(&validity);
                let bits = match crate::deserialize::boolean::decode_plain_booleans(
                    page.values.as_slice(),
                    c,
                ) {
                    Ok(b) => b,
                    Err(e) => {
                        return Err(e);
                    },
                };
                let full = match combine_optional(&validity, &bits) {
                    Ok(rows) => rows,
                    Err(e) => {
                        proof {
                            assert(false);
                        }
                        return Err(e);
                    },
                };
                Ok(filter_rows(&full, sel))
            },
        }
    }
}

/// Wraps each decoded boolean as a present row.
fn wrap_required_bools(bits: &Vec<bool>) -> (r: Vec<Option<bool>>)
    ensures
        r@.len() == bits@.len(),
        forall|i: int| 0 <= i < bits@.len() ==> #[trigger] r@[i] == Some(bits@[i]),
{
    let mut out: Vec<Option<bool>> = Vec::new();
    let mut i: usize = 0;
    while i < bits.len()
        invariant
            i <= bits@.len(),
            out@.len() == i,
            forall|k: int| 0 <= k < i ==> #[trigger] out@[k] == Some(bits@[k]),
        decreases bits@.len() - i,
    {
        out.push(Some(bits[i]));
        i += 1;
    }
    out
}

} // verus!
