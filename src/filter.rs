//! The partial mask filter: even/odd masks, a bitmap, a repeating pattern,
//! and protection of the fundamental.
use vstd::prelude::*;

verus! {

/// Why a filter configuration cannot be used.
#[derive(Debug, Clone, Copy, PartialEq, Eq, Structural)]
pub enum FilterError {
    /// A bitmap or pattern string holds a character other than `0` or `1`.
    InvalidBitstring,
    /// The repeating pattern is empty, so it cannot be tiled.
    EmptyPattern,
}

/// What a filtering run over one wavetable file asks for, as given on the
/// command line.
#[derive(Debug)]
pub struct FilterArgs {
    pub input_file: String,
    pub keep_even: bool,
    pub keep_odd: bool,
    pub keep_bitmap: Option<String>,
    pub keep_pattern: Option<String>,
    pub protect_fundamental: bool,
    pub normalize: bool,
}

/// `s` is made of the characters `0` and `1` only.
pub open spec fn is_bitstring(s: Seq<char>) -> bool {
    forall|i: int| 0 <= i < s.len() ==> #[trigger] s[i] == '0' || s[i] == '1'
}

/// The bits that a string of `0` and `1` spells, one per character.
pub open spec fn bits_of(s: Seq<char>) -> Seq<bool> {
    Seq::new(s.len(), |i: int| s[i] == '1')
}

/// An ordered sequence of bits, parsed from a string of `0` and `1`.
pub struct Bitmap {
    bits: Vec<bool>,
}

impl View for Bitmap {
    type V = Seq<bool>;

    closed spec fn view(&self) -> Seq<bool> {
        self.bits@
    }
}

impl Bitmap {
    /// Parses a string of `0` and `1` characters, one bit each.
    pub fn from_string(bitstring: &str) -> (r: Result<Bitmap, FilterError>)
        ensures
            is_bitstring(bitstring@) <==> r is Ok,
            r matches Ok(b) ==> b@ == bits_of(bitstring@),
            r matches Err(e) ==> e == FilterError::InvalidBitstring,
    {
        let n = bitstring.unicode_len();
        let mut bits: Vec<bool> = Vec::new();
        let mut i: usize = 0;
        while i < n
            invariant
                n == bitstring@.len(),
                i <= n,
                bits@ == bits_of(bitstring@.subrange(0, i as int)),
                is_bitstring(bitstring@.subrange(0, i as int)),
            decreases n - i,
        {
            let c = bitstring.get_char(i);
            if c == '0' {
                bits.push(false);
            } else if c == '1' {
                bits.push(true);
            } else {
                assert(!is_bitstring(bitstring@)) by {
                    assert(bitstring@[i as int] == c);
                }
                return Err(FilterError::InvalidBitstring);
            }
            proof {
                let prev = bitstring@.subrange(0, i as int);
                let next = bitstring@.subrange(0, i + 1);
                assert(next == prev.push(c));
                assert(bits_of(next) =~= bits_of(prev).push(c == '1'));
                assert forall|k: int| 0 <= k < next.len() implies #[trigger] next[k] == '0' || next[k]
                    == '1' by {
                    if k < i {
                        assert(next[k] == prev[k]);
                    }
                }
            }
            i = i + 1;
        }
        assert(bitstring@.subrange(0, n as int) =~= bitstring@);
        Ok(Bitmap { bits })
    }

    /// The number of bits.
    pub fn len(&self) -> (r: usize)
        ensures
            r == self@.len(),
    {
        self.bits.len()
    }

    /// The bit at `index`.
    pub fn get(&self, index: usize) -> (r: bool)
        requires
            index < self@.len(),
        ensures
            r == self@[index as int],
    {
        self.bits[index]
    }
}

/// A parsed filter configuration: the masks to apply, in the order even,
/// odd, bitmap, pattern, and whether the fundamental survives them all.
pub struct PartialFilter {
    pub keep_even: bool,
    pub keep_odd: bool,
    pub keep_bitmap: Option<Bitmap>,
    pub keep_pattern: Option<Bitmap>,
    pub protect_fundamental: bool,
}

/// A mask string, when given, is a bitstring.
pub open spec fn mask_ok(m: Option<String>) -> bool {
    match m {
        Some(s) => is_bitstring(s@),
        None => true,
    }
}

/// The parsed form of a mask string.
pub open spec fn mask_of(m: Option<String>) -> Option<Seq<bool>> {
    match m {
        Some(s) => Some(bits_of(s@)),
        None => None,
    }
}

/// The pattern, when given, is not empty.
pub open spec fn pattern_nonempty(m: Option<String>) -> bool {
    match m {
        Some(s) => s@.len() > 0,
        None => true,
    }
}

/// The view of an optional bitmap.
pub open spec fn bitmap_view(b: Option<Bitmap>) -> Option<Seq<bool>> {
    match b {
        Some(m) => Some(m@),
        None => None,
    }
}

/// Whether the mask configuration lets the partial at index `p` through
/// (before the fundamental is restored).
pub open spec fn passes(
    keep_even: bool,
    keep_odd: bool,
    bitmap: Option<Seq<bool>>,
    pattern: Option<Seq<bool>>,
    p: int,
) -> bool {
    &&& (keep_even ==> p % 2 == 0)
    &&& (keep_odd ==> p % 2 != 0)
    &&& (match bitmap {
        Some(b) => p < b.len() && b[p],
        None => true,
    })
    &&& (match pattern {
        Some(b) => b[p % (b.len() as int)],
        None => true,
    })
}

/// The partial set `s` after the masks: each partial that does not pass is
/// replaced by `zero`, and with `protect_fundamental` index 1 keeps its value.
pub open spec fn masked<T>(
    keep_even: bool,
    keep_odd: bool,
    bitmap: Option<Seq<bool>>,
    pattern: Option<Seq<bool>>,
    protect_fundamental: bool,
    s: Seq<T>,
    zero: T,
) -> Seq<T> {
    Seq::new(
        s.len(),
        |p: int|
            if protect_fundamental && p == 1 {
                s[1]
            } else if passes(keep_even, keep_odd, bitmap, pattern, p) {
                s[p]
            } else {
                zero
            },
    )
}

impl PartialFilter {
    /// The pattern, when present, has at least one bit.
    pub open spec fn wf(&self) -> bool {
        match self.keep_pattern {
            Some(b) => b@.len() > 0,
            None => true,
        }
    }

    /// `s` with this filter applied.
    pub open spec fn spec_apply<T>(&self, s: Seq<T>, zero: T) -> Seq<T> {
        masked(
            self.keep_even,
            self.keep_odd,
            bitmap_view(self.keep_bitmap),
            bitmap_view(self.keep_pattern),
            self.protect_fundamental,
            s,
            zero,
        )
    }

    /// Parses the masks of `args`. The bitmap is parsed before the pattern.
    pub fn from_args(args: &FilterArgs) -> (r: Result<PartialFilter, FilterError>)
        ensures
            r is Ok <==> mask_ok(args.keep_bitmap) && mask_ok(args.keep_pattern)
                && pattern_nonempty(args.keep_pattern),
            r matches Ok(f) ==> {
                &&& f.wf()
                &&& f.keep_even == args.keep_even
                &&& f.keep_odd == args.keep_odd
                &&& bitmap_view(f.keep_bitmap) == mask_of(args.keep_bitmap)
                &&& bitmap_view(f.keep_pattern) == mask_of(args.keep_pattern)
                &&& f.protect_fundamental == args.protect_fundamental
            },
            r matches Err(e) ==> (e == FilterError::InvalidBitstring <==> !(mask_ok(
                args.keep_bitmap,
            ) && mask_ok(args.keep_pattern))),
    {
        let keep_bitmap = match &args.keep_bitmap {
            Some(s) => match Bitmap::from_string(s.as_str()) {
                Ok(b) => Some(b),
                Err(e) => {
                    return Err(e);
                },
            },
            None => None,
        };
        let keep_pattern = match &args.keep_pattern {
            Some(s) => match Bitmap::from_string(s.as_str()) {
                Ok(b) => {
                    if b.len() == 0 {
                        return Err(FilterError::EmptyPattern);
                    }
                    Some(b)
                },
                Err(e) => {
                    return Err(e);
                },
            },
            None => None,
        };
        Ok(
            PartialFilter {
                keep_even: args.keep_even,
                keep_odd: args.keep_odd,
                keep_bitmap,
                keep_pattern,
                protect_fundamental: args.protect_fundamental,
            },
        )
    }

    /// Whether the masks let the partial at index `p` through.
    fn passes(&self, p: usize) -> (r: bool)
        requires
            self.wf(),
        ensures
            r == passes(
                self.keep_even,
                self.keep_odd,
                bitmap_view(self.keep_bitmap),
                bitmap_view(self.keep_pattern),
                p as int,
            ),
    {
        if self.keep_even && p % 2 != 0 {
            return false;
        }
        if self.keep_odd && p % 2 == 0 {
            return false;
        }
        match &self.keep_bitmap {
            Some(b) => {
                if p >= b.len() || !b.get(p) {
                    return false;
                }
            },
            None => {},
        }
        match &self.keep_pattern {
            Some(b) => {
                if !b.get(p % b.len()) {
                    return false;
                }
            },
            None => {},
        }
        true
    }

    /// Applies the masks to a partial set: every partial that a mask rejects
    /// becomes `zero`, and with `protect_fundamental` index 1 keeps its
    /// value whatever the masks say.
    pub fn apply<T: Copy>(&self, partials: &Vec<T>, zero: T) -> (r: Vec<T>)
        requires
            self.wf(),
        ensures
            r@ == self.spec_apply(partials@, zero),
            self.protect_fundamental && partials.len() > 1 ==> r[1] == partials[1],
    {
        let mut r: Vec<T> = Vec::new();
        let mut p: usize = 0;
        while p < partials.len()
            invariant
                self.wf(),
                p <= partials.len(),
                r.len() == p,
                forall|k: int| 0 <= k < p ==> r[k] == self.spec_apply(partials@, zero)[k],
            decreases partials.len() - p,
        {
            if self.protect_fundamental && p == 1 {
                r.push(partials[1]);
            } else if self.passes(p) {
                r.push(partials[p]);
            } else {
                r.push(zero);
            }
            p = p + 1;
        }
        assert(r@ =~= self.spec_apply(partials@, zero));
        r
    }
}

/// Filtering is idempotent: applying the same masks to an already filtered
/// partial set changes nothing, since every index they zero is zero already
/// and the protected fundamental keeps the value it was given.
pub proof fn lemma_mask_idempotent<T>(
    keep_even: bool,
    keep_odd: bool,
    bitmap: Option<Seq<bool>>,
    pattern: Option<Seq<bool>>,
    protect_fundamental: bool,
    s: Seq<T>,
    zero: T,
)
    ensures
        masked(
            keep_even,
            keep_odd,
            bitmap,
            pattern,
            protect_fundamental,
            masked(keep_even, keep_odd, bitmap, pattern, protect_fundamental, s, zero),
            zero,
        ) == masked(keep_even, keep_odd, bitmap, pattern, protect_fundamental, s, zero),
{
    let once = masked(keep_even, keep_odd, bitmap, pattern, protect_fundamental, s, zero);
    let twice = masked(keep_even, keep_odd, bitmap, pattern, protect_fundamental, once, zero);
    assert(twice =~= once);
}

/// With `protect_fundamental` set, the fundamental of the output is the
/// fundamental of the input, whatever the other masks are.
pub proof fn lemma_fundamental_protected<T>(
    keep_even: bool,
    keep_odd: bool,
    bitmap: Option<Seq<bool>>,
    pattern: Option<Seq<bool>>,
    s: Seq<T>,
    zero: T,
)
    requires
        s.len() > 1,
    ensures
        masked(keep_even, keep_odd, bitmap, pattern, true, s, zero)[1] == s[1],
{
}

} // verus!
