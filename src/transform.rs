//! The layout half of the spectral transform. A real cycle's spectrum is
//! conjugate-symmetric, so only its lower half is stored; these functions
//! cut a full spectrum down to that half, rebuild the full spectrum from it,
//! and take the real parts of a reconstructed cycle. The arithmetic on the
//! coefficients (scaling, conjugation, the residue test) is handed in as a
//! closure.
use vstd::prelude::*;
use crate::wavetable::{WAVE_SAMPLES, PARTIAL_COUNT};

verus! {

/// Why a reconstructed cycle cannot be taken as real.
#[derive(Debug, Clone, Copy, PartialEq, Eq, Structural)]
pub enum TransformError {
    /// The sample at `index` has an imaginary part that is not negligible:
    /// the edited partials broke conjugate symmetry.
    ImaginaryResidue { index: usize },
}

/// The position in the stored half whose conjugate sits at position `k` of
/// the full spectrum, for `k` in the upper half.
pub open spec fn mirror_source(k: int) -> int {
    WAVE_SAMPLES - k
}

/// Keeps the coefficients at indices 0 through 1024 of a full spectrum,
/// each passed through `scale`; the redundant upper half is dropped.
pub fn half_spectrum<T: Copy, F: Fn(T) -> T>(full: &Vec<T>, scale: F) -> (r: Vec<T>)
    requires
        full.len() == WAVE_SAMPLES,
        forall|x: T| #[trigger] scale.requires((x,)),
    ensures
        r.len() == PARTIAL_COUNT,
        forall|i: int| 0 <= i < PARTIAL_COUNT ==> scale.ensures((full[i],), #[trigger] r[i]),
{
    let mut r: Vec<T> = Vec::new();
    let mut i: usize = 0;
    while i < PARTIAL_COUNT
        invariant
            full.len() == WAVE_SAMPLES,
            forall|x: T| #[trigger] scale.requires((x,)),
            i <= PARTIAL_COUNT,
            r.len() == i,
            forall|k: int| 0 <= k < i ==> scale.ensures((full[k],), #[trigger] r[k]),
        decreases PARTIAL_COUNT - i,
    {
        let v = scale(full[i]);
        r.push(v);
        i = i + 1;
    }
    r
}

/// Rebuilds the full spectrum from its stored half: positions 0 through
/// 1024 are the stored coefficients as they are, and each position `k`
/// above the midpoint holds the conjugate of position `2048 - k`.
pub fn mirror_spectrum<T: Copy, F: Fn(T) -> T>(half: &Vec<T>, conj: F) -> (r: Vec<T>)
    requires
        half.len() == PARTIAL_COUNT,
        forall|x: T| #[trigger] conj.requires((x,)),
    ensures
        r.len() == WAVE_SAMPLES,
        forall|k: int| 0 <= k < PARTIAL_COUNT ==> #[trigger] r[k] == half[k],
        forall|k: int|
            PARTIAL_COUNT <= k < WAVE_SAMPLES ==> conj.ensures(
                (half[mirror_source(k)],),
                #[trigger] r[k],
            ),
{
    let mut r: Vec<T> = Vec::new();
    let mut k: usize = 0;
    while k < WAVE_SAMPLES
        invariant
            half.len() == PARTIAL_COUNT,
            forall|x: T| #[trigger] conj.requires((x,)),
            k <= WAVE_SAMPLES,
            r.len() == k,
            forall|j: int| 0 <= j < k && j < PARTIAL_COUNT ==> #[trigger] r[j] == half[j],
            forall|j: int|
                PARTIAL_COUNT <= j < k ==> conj.ensures((half[mirror_source(j)],), #[trigger] r[j]),
        decreases WAVE_SAMPLES - k,
    {
        if k < PARTIAL_COUNT {
            r.push(half[k]);
        } else {
            let v = conj(half[WAVE_SAMPLES - k]);
            r.push(v);
        }
        k = k + 1;
    }
    r
}

/// Takes the real part of every sample of a reconstructed cycle. `real_part`
/// gives the real part of a sample, or `None` where its imaginary part is
/// too large to drop; the first such sample is reported.
pub fn real_parts<T: Copy, S, F: Fn(T) -> Option<S>>(samples: &Vec<T>, real_part: F) -> (r: Result<
    Vec<S>,
    TransformError,
>)
    requires
        forall|x: T| #[trigger] real_part.requires((x,)),
    ensures
        match r {
            Ok(v) => {
                &&& v.len() == samples.len()
                &&& forall|i: int|
                    0 <= i < samples.len() ==> real_part.ensures((samples[i],), Some(#[trigger] v[i]))
            },
            Err(TransformError::ImaginaryResidue { index }) => {
                &&& index < samples.len()
                &&& real_part.ensures((samples[index as int],), None)
                &&& forall|i: int| #![trigger samples[i]]
                    0 <= i < index ==> real_part.ensures(
                        (samples[i],),
                        Some(choose|s: S| real_part.ensures((samples[i],), Some(s))),
                    )
            },
        },
{
    let mut v: Vec<S> = Vec::new();
    let mut i: usize = 0;
    while i < samples.len()
        invariant
            forall|x: T| #[trigger] real_part.requires((x,)),
            i <= samples.len(),
            v.len() == i,
            forall|k: int| 0 <= k < i ==> real_part.ensures((samples[k],), Some(#[trigger] v[k])),
        decreases samples.len() - i,
    {
        match real_part(samples[i]) {
            Some(s) => {
                v.push(s);
            },
            None => {
                assert forall|k: int| #![trigger samples[k]] 0 <= k < i implies real_part.ensures(
                    (samples[k],),
                    Some(choose|s: S| real_part.ensures((samples[k],), Some(s))),
                ) by {
                    assert(real_part.ensures((samples[k],), Some(v[k])));
                }
                return Err(TransformError::ImaginaryResidue { index: i });
            },
        }
        i = i + 1;
    }
    Ok(v)
}

} // verus!
