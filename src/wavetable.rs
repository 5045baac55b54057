//! A wavetable as an ordered list of fixed-length cycles, with the opaque
//! vendor chunk that travels with it from load to save.
use vstd::prelude::*;

verus! {

/// Samples in one cycle.
pub const WAVE_SAMPLES: usize = 2048;

/// Coefficients in the non-redundant half of a cycle's spectrum: DC and 1024
/// partials.
pub const PARTIAL_COUNT: usize = 1025;

/// Why a sample stream cannot be read as a wavetable.
#[derive(Debug, Clone, Copy, PartialEq, Eq, Structural)]
pub enum TableError {
    /// The container holds more than one channel.
    NotMono,
    /// The sample count is zero or not a multiple of the cycle length.
    BadSampleCount,
}

/// The cycles that a flat sample stream splits into, `WAVE_SAMPLES` each.
pub open spec fn cycles_of<S>(samples: Seq<S>) -> Seq<Seq<S>> {
    Seq::new(
        samples.len() / WAVE_SAMPLES as nat,
        |c: int| samples.subrange(c * WAVE_SAMPLES, (c + 1) * WAVE_SAMPLES),
    )
}

/// The cycles written one after another.
pub open spec fn flatten<S>(cycles: Seq<Seq<S>>) -> Seq<S>
    decreases cycles.len(),
{
    if cycles.len() == 0 {
        Seq::empty()
    } else {
        flatten(cycles.drop_last()) + cycles.last()
    }
}

/// Cutting a stream into cycles and writing them out one after another gives
/// the stream back, for every stream of a whole number of cycles.
pub proof fn lemma_cycles_round_trip<S>(samples: Seq<S>)
    requires
        samples.len() % WAVE_SAMPLES as nat == 0,
    ensures
        flatten(cycles_of(samples)) == samples,
    decreases samples.len(),
{
    let n = samples.len() / WAVE_SAMPLES as nat;
    if n == 0 {
        assert(samples.len() == 0);
        assert(flatten(cycles_of(samples)) =~= samples);
    } else {
        let head = samples.subrange(0, samples.len() - WAVE_SAMPLES);
        assert(head.len() / WAVE_SAMPLES as nat == n - 1);
        lemma_cycles_round_trip(head);
        let cs = cycles_of(samples);
        assert forall|c: int| 0 <= c < n - 1 implies #[trigger] cs.drop_last()[c] == cycles_of(
            head,
        )[c] by {
            assert((c + 1) * WAVE_SAMPLES <= (n - 1) * WAVE_SAMPLES) by (nonlinear_arith)
                requires
                    c + 1 <= n - 1,
            ;
            assert(cs.drop_last()[c] =~= cycles_of(head)[c]);
        }
        assert(cs.drop_last() =~= cycles_of(head));
        assert(cs.last() == samples.subrange((n - 1) * WAVE_SAMPLES, n * WAVE_SAMPLES));
        assert(n * WAVE_SAMPLES == samples.len());
        assert(head + cs.last() =~= samples);
    }
}

/// A sample count that a wavetable can be made of.
pub open spec fn valid_sample_count(n: nat) -> bool {
    n > 0 && n % WAVE_SAMPLES as nat == 0
}

/// A table of cycles of `WAVE_SAMPLES` samples each, at least one, in
/// playback order, with the vendor chunk it was loaded with.
#[derive(Clone)]
pub struct WaveTable<S> {
    cycles: Vec<Vec<S>>,
    clm_chunk: Option<Vec<u8>>,
}

impl<S> View for WaveTable<S> {
    type V = Seq<Seq<S>>;

    closed spec fn view(&self) -> Seq<Seq<S>> {
        Seq::new(self.cycles@.len(), |c: int| self.cycles@[c]@)
    }
}

impl<S: Copy> WaveTable<S> {
    /// At least one cycle, each of `WAVE_SAMPLES` samples.
    pub open spec fn wf(&self) -> bool {
        &&& self@.len() > 0
        &&& forall|c: int| 0 <= c < self@.len() ==> (#[trigger] self@[c]).len() == WAVE_SAMPLES
    }

    /// The vendor chunk, as bytes.
    pub closed spec fn chunk(&self) -> Option<Seq<u8>> {
        match self.clm_chunk {
            Some(v) => Some(v@),
            None => None,
        }
    }

    /// Cuts a decoded sample stream into cycles. The stream must come from a
    /// single channel and hold a positive whole number of cycles.
    pub fn from_samples(channels: u16, samples: &Vec<S>, clm_chunk: Option<Vec<u8>>) -> (r: Result<
        WaveTable<S>,
        TableError,
    >)
        ensures
            r is Ok <==> channels == 1 && valid_sample_count(samples@.len()),
            r matches Err(e) ==> (e == TableError::NotMono <==> channels != 1),
            r matches Ok(t) ==> {
                &&& t.wf()
                &&& t@ == cycles_of(samples@)
                &&& t.chunk() == match clm_chunk {
                    Some(v) => Some(v@),
                    None => None::<Seq<u8>>,
                }
            },
    {
        if channels != 1 {
            return Err(TableError::NotMono);
        }
        if samples.len() == 0 || samples.len() % WAVE_SAMPLES != 0 {
            return Err(TableError::BadSampleCount);
        }
        let num_cycles = samples.len() / WAVE_SAMPLES;
        let mut cycles: Vec<Vec<S>> = Vec::new();
        let mut c: usize = 0;
        while c < num_cycles
            invariant
                num_cycles == samples.len() / WAVE_SAMPLES,
                samples.len() % WAVE_SAMPLES == 0,
                c <= num_cycles,
                cycles.len() == c,
                forall|k: int|
                    0 <= k < c ==> (#[trigger] cycles[k])@ == cycles_of(samples@)[k],
            decreases num_cycles - c,
        {
            proof {
                assert((c + 1) * WAVE_SAMPLES <= num_cycles * WAVE_SAMPLES) by (nonlinear_arith)
                    requires
                        c + 1 <= num_cycles,
                ;
            }
            let base = c * WAVE_SAMPLES;
            let mut cycle: Vec<S> = Vec::new();
            let mut k: usize = 0;
            while k < WAVE_SAMPLES
                invariant
                    base == c * WAVE_SAMPLES,
                    base + WAVE_SAMPLES <= samples.len(),
                    k <= WAVE_SAMPLES,
                    cycle@ == samples@.subrange(base as int, base + k),
                decreases WAVE_SAMPLES - k,
            {
                cycle.push(samples[base + k]);
                proof {
                    assert(samples@.subrange(base as int, base + k + 1) =~= samples@.subrange(
                        base as int,
                        base + k,
                    ).push(samples@[base + k]));
                }
                k = k + 1;
            }
            cycles.push(cycle);
            c = c + 1;
        }
        let t = WaveTable { cycles, clm_chunk };
        assert(t@ =~= cycles_of(samples@));
        Ok(t)
    }

    /// The number of cycles.
    pub fn num_cycles(&self) -> (r: usize)
        ensures
            r == self@.len(),
    {
        self.cycles.len()
    }

    /// The samples of cycle `i`.
    pub fn cycle(&self, i: usize) -> (r: &Vec<S>)
        requires
            i < self@.len(),
        ensures
            r@ == self@[i as int],
    {
        &self.cycles[i]
    }

    /// Replaces cycle `i` with `cycle`; the other cycles and the vendor chunk
    /// stay as they were.
    pub fn set_cycle(&mut self, i: usize, cycle: Vec<S>)
        requires
            old(self).wf(),
            i < old(self)@.len(),
            cycle.len() == WAVE_SAMPLES,
        ensures
            final(self).wf(),
            final(self)@ == old(self)@.update(i as int, cycle@),
            final(self).chunk() == old(self).chunk(),
    {
        self.cycles.set(i, cycle);
        assert(self@ =~= old(self)@.update(i as int, cycle@));
    }

    /// The vendor chunk captured at load, if any.
    pub fn clm_chunk(&self) -> (r: Option<&Vec<u8>>)
        ensures
            match r {
                Some(v) => self.chunk() == Some(v@),
                None => self.chunk() is None,
            },
    {
        match &self.clm_chunk {
            Some(v) => Some(v),
            None => None,
        }
    }

    /// All samples of the table, cycle after cycle, as they are written out.
    pub fn to_samples(&self) -> (r: Vec<S>)
        ensures
            r@ == flatten(self@),
    {
        let mut r: Vec<S> = Vec::new();
        let mut c: usize = 0;
        while c < self.cycles.len()
            invariant
                c <= self.cycles.len(),
                r@ == flatten(self@.subrange(0, c as int)),
            decreases self.cycles.len() - c,
        {
            let cycle = &self.cycles[c];
            let ghost before = r@;
            let mut k: usize = 0;
            while k < cycle.len()
                invariant
                    k <= cycle.len(),
                    r@ == before + cycle@.subrange(0, k as int),
                decreases cycle.len() - k,
            {
                r.push(cycle[k]);
                proof {
                    assert(cycle@.subrange(0, k + 1) =~= cycle@.subrange(0, k as int).push(cycle@[k as int]));
                }
                k = k + 1;
            }
            proof {
                let next = self@.subrange(0, c + 1);
                assert(next.drop_last() =~= self@.subrange(0, c as int));
                assert(next.last() == cycle@);
                assert(cycle@.subrange(0, cycle@.len() as int) =~= cycle@);
            }
            c = c + 1;
        }
        assert(self@.subrange(0, self.cycles.len() as int) =~= self@);
        r
    }
}

} // verus!
