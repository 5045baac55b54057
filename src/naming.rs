//! The names of the files that each operation writes, derived from the
//! input file's name and the active flags.
use vstd::prelude::*;

verus! {

/// The decimal digit `d` as a character.
pub open spec fn digit_char(d: int) -> char {
    if d == 0 {
        '0'
    } else if d == 1 {
        '1'
    } else if d == 2 {
        '2'
    } else if d == 3 {
        '3'
    } else if d == 4 {
        '4'
    } else if d == 5 {
        '5'
    } else if d == 6 {
        '6'
    } else if d == 7 {
        '7'
    } else if d == 8 {
        '8'
    } else {
        '9'
    }
}

/// The name of a factoring output: the input name, a dot, `s` or `u` for
/// the shift, `n` or `u` for normalization, `p`, the prime in two digits,
/// and `.wav`.
pub open spec fn factor_output_name_spec(input: Seq<char>, shift: bool, normalize: bool, p: int) -> Seq<char> {
    input + seq![
        '.',
        if shift { 's' } else { 'u' },
        if normalize { 'n' } else { 'u' },
        'p',
        digit_char(p / 10),
        digit_char(p % 10),
        '.',
        'w',
        'a',
        'v',
    ]
}

fn digit_str(d: u64) -> (r: &'static str)
    requires
        d < 10,
    ensures
        r@ == seq![digit_char(d as int)],
{
    proof {
        reveal_strlit("0");
        reveal_strlit("1");
        reveal_strlit("2");
        reveal_strlit("3");
        reveal_strlit("4");
        reveal_strlit("5");
        reveal_strlit("6");
        reveal_strlit("7");
        reveal_strlit("8");
        reveal_strlit("9");
    }
    let r = if d == 0 {
        "0"
    } else if d == 1 {
        "1"
    } else if d == 2 {
        "2"
    } else if d == 3 {
        "3"
    } else if d == 4 {
        "4"
    } else if d == 5 {
        "5"
    } else if d == 6 {
        "6"
    } else if d == 7 {
        "7"
    } else if d == 8 {
        "8"
    } else {
        "9"
    };
    assert(r@ =~= seq![digit_char(d as int)]);
    r
}

/// The file that factoring `input` by the prime `p` writes.
pub fn factor_output_name(input: &str, shift: bool, normalize: bool, p: u64) -> (r: String)
    requires
        p < 100,
    ensures
        r@ == factor_output_name_spec(input@, shift, normalize, p as int),
{
    proof {
        reveal_strlit(".");
        reveal_strlit("s");
        reveal_strlit("u");
        reveal_strlit("n");
        reveal_strlit("p");
        reveal_strlit(".wav");
    }
    let mut r = String::from_str(input);
    r.append(".");
    r.append(if shift { "s" } else { "u" });
    r.append(if normalize { "n" } else { "u" });
    r.append("p");
    r.append(digit_str(p / 10));
    r.append(digit_str(p % 10));
    r.append(".wav");
    assert(r@ =~= factor_output_name_spec(input@, shift, normalize, p as int));
    r
}

/// The file that filtering `input` writes: the input name followed by
/// `.filtered.wav`.
pub fn filter_output_name(input: &str) -> (r: String)
    ensures
        r@ == input@ + seq!['.', 'f', 'i', 'l', 't', 'e', 'r', 'e', 'd', '.', 'w', 'a', 'v'],
{
    proof {
        reveal_strlit(".filtered.wav");
    }
    let mut r = String::from_str(input);
    r.append(".filtered.wav");
    assert(r@ =~= input@ + seq!['.', 'f', 'i', 'l', 't', 'e', 'r', 'e', 'd', '.', 'w', 'a', 'v']);
    r
}

/// The image that rendering the spectrogram of `input` writes: the input
/// name followed by `.spectrum.png`.
pub fn spectrogram_output_name(input: &str) -> (r: String)
    ensures
        r@ == input@ + seq!['.', 's', 'p', 'e', 'c', 't', 'r', 'u', 'm', '.', 'p', 'n', 'g'],
{
    proof {
        reveal_strlit(".spectrum.png");
    }
    let mut r = String::from_str(input);
    r.append(".spectrum.png");
    assert(r@ =~= input@ + seq!['.', 's', 'p', 'e', 'c', 't', 'r', 'u', 'm', '.', 'p', 'n', 'g']);
    r
}

} // verus!
