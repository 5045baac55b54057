//! The prime factoring engine: splitting a partial set into branches keyed by
//! the smallest prime factor of each harmonic index, and shifting a branch
//! down to the fundamental.
use vstd::prelude::*;
use crate::prime::{prime_number, has_prime_factor_below, divisible_by_prime_less_than};

verus! {

/// The largest prime that the factoring sweep visits.
pub const BIGGEST_USEFUL_PRIME: u64 = 43;

/// What a factoring run over one wavetable file asks for.
#[derive(Debug, Clone)]
pub struct FactorArgs {
    pub input_file: String,
    pub normalize: bool,
    pub recursive: bool,
    pub shift: bool,
}

/// Harmonic index `i` lies in the branch of `p`: it is a positive multiple of
/// `p` and no prime below `p` divides it, so for a prime `p` it is `i`'s
/// smallest prime factor.
pub open spec fn in_branch(i: int, p: int) -> bool {
    i >= 1 && i % p == 0 && !has_prime_factor_below(i, p)
}

/// The partials of `s` in the branch of `p`; every other position holds `zero`.
pub open spec fn branch_of<T>(s: Seq<T>, zero: T, p: int) -> Seq<T> {
    Seq::new(s.len(), |i: int| if in_branch(i, p) { s[i] } else { zero })
}

/// `s` compressed by `p`: position `j >= 1` takes the value at `j * p`, or
/// `zero` past the end; position 0 is kept.
pub open spec fn shifted<T>(s: Seq<T>, zero: T, p: int) -> Seq<T> {
    Seq::new(
        s.len(),
        |j: int|
            if j == 0 {
                s[0]
            } else if j * p < s.len() {
                s[j * p]
            } else {
                zero
            },
    )
}

/// The result of factoring `s` by `p`, with or without the shift.
pub open spec fn factored<T>(s: Seq<T>, zero: T, p: int, shift: bool) -> Seq<T> {
    if shift {
        shifted(branch_of(s, zero, p), zero, p)
    } else {
        branch_of(s, zero, p)
    }
}

/// Keeps the partials whose index lies in the branch of `p` and zeroes the
/// rest, the DC component included.
pub fn filter_for_p<T: Copy>(partials: &Vec<T>, zero: T, p: u64) -> (r: Vec<T>)
    requires
        p >= 1,
        partials.len() <= 0x1_0000_0000,
    ensures
        r@ == branch_of(partials@, zero, p as int),
{
    let mut r: Vec<T> = Vec::new();
    let mut i: usize = 0;
    while i < partials.len()
        invariant
            i <= partials.len() <= 0x1_0000_0000,
            p >= 1,
            r.len() == i,
            forall|k: int| 0 <= k < i ==> r[k] == branch_of(partials@, zero, p as int)[k],
        decreases partials.len() - i,
    {
        let keep = if i >= 1 && i as u64 % p == 0 {
            proof {
                // a positive multiple of `p` is at least `p`
                if p > i {
                    vstd::arithmetic::div_mod::lemma_small_mod(i as nat, p as nat);
                }
            }
            !divisible_by_prime_less_than(i as u64, p)
        } else {
            false
        };
        if keep {
            r.push(partials[i]);
        } else {
            r.push(zero);
        }
        i = i + 1;
    }
    assert(r@ =~= branch_of(partials@, zero, p as int));
    r
}

/// Moves the value at index `j * p` to index `j` for every `j >= 1`, filling
/// with `zero` where `j * p` is past the end; index 0 is left as it is.
pub fn shift_down<T: Copy>(partials: &Vec<T>, zero: T, p: u64) -> (r: Vec<T>)
    ensures
        r@ == shifted(partials@, zero, p as int),
{
    let mut r: Vec<T> = Vec::new();
    let mut j: usize = 0;
    while j < partials.len()
        invariant
            j <= partials.len(),
            r.len() == j,
            forall|k: int| 0 <= k < j ==> r[k] == shifted(partials@, zero, p as int)[k],
        decreases partials.len() - j,
    {
        if j == 0 {
            r.push(partials[0]);
        } else {
            match (j as u64).checked_mul(p) {
                Some(index) => {
                    if index < partials.len() as u64 {
                        r.push(partials[index as usize]);
                    } else {
                        r.push(zero);
                    }
                },
                None => {
                    r.push(zero);
                },
            }
        }
        j = j + 1;
    }
    assert(r@ =~= shifted(partials@, zero, p as int));
    r
}

/// Isolates the branch of `p` in a partial set and, when `shift` is set,
/// re-roots it at the fundamental.
pub fn factor_by_prime<T: Copy>(partials: &Vec<T>, zero: T, p: u64, shift: bool) -> (r: Vec<T>)
    requires
        p >= 1,
        partials.len() <= 0x1_0000_0000,
    ensures
        r@ == factored(partials@, zero, p as int, shift),
        r.len() == partials.len(),
        r.len() > 0 ==> r[0] == zero,
{
    let selected = filter_for_p(partials, zero, p);
    assert(selected.len() > 0 ==> selected[0] == zero);
    if shift {
        shift_down(&selected, zero, p)
    } else {
        selected
    }
}

/// Selecting a branch again changes nothing: every index it zeroes is zero
/// already, and every index it keeps holds the value it kept.
pub proof fn lemma_branch_idempotent<T>(s: Seq<T>, zero: T, p: int)
    ensures
        branch_of(branch_of(s, zero, p), zero, p) == branch_of(s, zero, p),
{
    assert(branch_of(branch_of(s, zero, p), zero, p) =~= branch_of(s, zero, p));
}

/// A positive `i` divisible by the prime `q` has a smallest prime factor, no
/// larger than `q`.
proof fn lemma_smallest_prime_factor(i: int, q: int)
    requires
        i >= 1,
        prime_number(q),
        i % q == 0,
    ensures
        exists|p: int| prime_number(p) && p <= q && #[trigger] in_branch(i, p),
    decreases q,
{
    if has_prime_factor_below(i, q) {
        let q2 = choose|q2: int| #![trigger i % q2] prime_number(q2) && q2 < q && i % q2 == 0;
        lemma_smallest_prime_factor(i, q2);
    } else {
        assert(in_branch(i, q));
    }
}

/// Two primes cannot both hold `i` in their branch.
proof fn lemma_branch_unique(i: int, p: int, q: int)
    requires
        prime_number(p),
        prime_number(q),
        in_branch(i, p),
        in_branch(i, q),
    ensures
        p == q,
{
    if p < q {
        assert(prime_number(p) && p < q && i % p == 0);
        assert(has_prime_factor_below(i, q));
    } else if q < p {
        assert(prime_number(q) && q < p && i % q == 0);
        assert(has_prime_factor_below(i, p));
    }
}

/// The prime branches partition the spectrum: an index `i` with a prime
/// factor no larger than `ceiling` is kept by exactly one prime `p` of the
/// sweep up to `ceiling`, and every other prime of that sweep zeroes it, so
/// adding the branches together gives back the coefficient at `i`. DC, the
/// fundamental, and indices whose prime factors all exceed `ceiling` lie in
/// no branch: every prime of the sweep zeroes them.
pub proof fn lemma_branch_partition<T>(s: Seq<T>, zero: T, ceiling: int, i: int)
    requires
        0 <= i < s.len(),
    ensures
        i >= 1 && has_prime_factor_below(i, ceiling + 1) ==> exists|p: int|
            prime_number(p) && p <= ceiling && #[trigger] branch_of(s, zero, p)[i] == s[i]
                && in_branch(i, p)
                && forall|q: int|
                prime_number(q) && q <= ceiling && q != p ==> #[trigger] branch_of(s, zero, q)[i]
                    == zero,
        i == 0 || !has_prime_factor_below(i, ceiling + 1) ==> forall|q: int|
            prime_number(q) && q <= ceiling ==> #[trigger] branch_of(s, zero, q)[i] == zero,
{
    if i >= 1 && has_prime_factor_below(i, ceiling + 1) {
        let q0 = choose|q0: int| #![trigger i % q0] prime_number(q0) && q0 < ceiling + 1 && i % q0 == 0;
        lemma_smallest_prime_factor(i, q0);
        let p = choose|p: int| prime_number(p) && p <= q0 && #[trigger] in_branch(i, p);
        assert forall|q: int| prime_number(q) && q <= ceiling && q != p implies #[trigger] branch_of(
            s,
            zero,
            q,
        )[i] == zero by {
            if in_branch(i, q) {
                lemma_branch_unique(i, p, q);
            }
        }
        assert(branch_of(s, zero, p)[i] == s[i]);
    } else {
        assert forall|q: int| prime_number(q) && q <= ceiling implies #[trigger] branch_of(s, zero, q)[i]
            == zero by {
            if in_branch(i, q) {
                assert(prime_number(q) && q < ceiling + 1 && i % q == 0);
            }
        }
    }
}

/// The sum at index `i` of the branches of `s` for the primes in `ps`, with
/// integer coefficients and 0 as the zero.
pub open spec fn branch_sum(s: Seq<int>, ps: Seq<int>, i: int) -> int
    decreases ps.len(),
{
    if ps.len() == 0 {
        0
    } else {
        branch_sum(s, ps.drop_last(), i) + branch_of(s, 0, ps.last())[i]
    }
}

/// Over distinct primes, the branch sum at `i` is the coefficient at `i`
/// where one of them holds `i` in its branch, and 0 where none does.
proof fn lemma_branch_sum_distinct(s: Seq<int>, ps: Seq<int>, i: int)
    requires
        0 <= i < s.len(),
        forall|k: int| 0 <= k < ps.len() ==> prime_number(#[trigger] ps[k]),
        forall|j: int, k: int| 0 <= j < k < ps.len() ==> ps[j] < ps[k],
    ensures
        branch_sum(s, ps, i) == if exists|k: int| 0 <= k < ps.len() && in_branch(i, #[trigger] ps[k]) {
            s[i]
        } else {
            0
        },
    decreases ps.len(),
{
    if ps.len() > 0 {
        let rest = ps.drop_last();
        lemma_branch_sum_distinct(s, rest, i);
        let last = ps.last();
        if in_branch(i, last) {
            assert forall|k: int| 0 <= k < rest.len() implies !in_branch(i, #[trigger] rest[k]) by {
                if in_branch(i, rest[k]) {
                    assert(prime_number(ps[k]) && prime_number(ps[ps.len() - 1]));
                    lemma_branch_unique(i, rest[k], last);
                }
            }
            assert(in_branch(i, ps[ps.len() - 1]));
        } else {
            if exists|k: int| 0 <= k < ps.len() && in_branch(i, #[trigger] ps[k]) {
                let k = choose|k: int| 0 <= k < ps.len() && in_branch(i, #[trigger] ps[k]);
                assert(k < rest.len() && rest[k] == ps[k]);
            }
            if exists|k: int| 0 <= k < rest.len() && in_branch(i, #[trigger] rest[k]) {
                let k = choose|k: int| 0 <= k < rest.len() && in_branch(i, #[trigger] rest[k]);
                assert(ps[k] == rest[k]);
            }
        }
    }
}

/// Adding up the branches of every prime up to `ceiling` gives back each
/// partial that has a prime factor no larger than `ceiling`, and 0 at DC, at
/// the fundamental and at indices whose prime factors all exceed `ceiling`.
/// So a partial set that is zero at those indices is rebuilt exactly.
pub proof fn lemma_branch_sum(s: Seq<int>, ps: Seq<int>, ceiling: int, i: int)
    requires
        0 <= i < s.len(),
        forall|k: int| 0 <= k < ps.len() ==> prime_number(#[trigger] ps[k]) && ps[k] <= ceiling,
        forall|j: int, k: int| 0 <= j < k < ps.len() ==> ps[j] < ps[k],
        forall|q: int| prime_number(q) && q <= ceiling ==> ps.contains(q),
    ensures
        branch_sum(s, ps, i) == if i >= 1 && has_prime_factor_below(i, ceiling + 1) {
            s[i]
        } else {
            0
        },
        (i >= 1 && has_prime_factor_below(i, ceiling + 1)) || s[i] == 0 ==> branch_sum(s, ps, i)
            == s[i],
{
    lemma_branch_sum_distinct(s, ps, i);
    if i >= 1 && has_prime_factor_below(i, ceiling + 1) {
        let q0 = choose|q0: int| #![trigger i % q0] prime_number(q0) && q0 < ceiling + 1 && i % q0 == 0;
        lemma_smallest_prime_factor(i, q0);
        let p = choose|p: int| prime_number(p) && p <= q0 && #[trigger] in_branch(i, p);
        assert(ps.contains(p));
        let k = choose|k: int| 0 <= k < ps.len() && ps[k] == p;
        assert(in_branch(i, ps[k]));
    } else {
        if exists|k: int| 0 <= k < ps.len() && in_branch(i, #[trigger] ps[k]) {
            let k = choose|k: int| 0 <= k < ps.len() && in_branch(i, #[trigger] ps[k]);
            assert(prime_number(ps[k]) && ps[k] < ceiling + 1 && i % ps[k] == 0);
        }
    }
}

} // verus!
