//! Human-readable size labels: a byte count below 1024 as `N B`, below
//! 1024 squared as hundredths of a KiB (`1.50 KiB`), and above as hundredths
//! of a MiB. The fraction keeps two digits, rounding half away from zero; the
//! label is a display approximation, not a precise byte count.

use vstd::prelude::*;

verus! {

/// The decimal digit character for `d` in `0..=9`.
pub open spec fn dec_digit(d: int) -> char {
    if d == 0 {
        '0'
    } else if d == 1 {
        '1'
    } else if d == 2 {
        '2'
    } else if d == 3 {
        '3'
    } else if d == 4 {
        '4'
    } else if d == 5 {
        '5'
    } else if d == 6 {
        '6'
    } else if d == 7 {
        '7'
    } else if d == 8 {
        '8'
    } else {
        '9'
    }
}

/// The decimal digits of `n`, most significant first.
pub open spec fn spec_dec(n: int) -> Seq<char>
    decreases n,
{
    if n < 10 {
        seq![dec_digit(n)]
    } else {
        spec_dec(n / 10).push(dec_digit(n % 10))
    }
}

/// `h` hundredths as `i.ff`: the integer part, a dot, and exactly two
/// fraction digits.
pub open spec fn spec_hundredths(h: int) -> Seq<char> {
    if h % 100 < 10 {
        spec_dec(h / 100) + "."@ + "0"@ + spec_dec(h % 100)
    } else {
        spec_dec(h / 100) + "."@ + spec_dec(h % 100)
    }
}

/// The size label of `bytes`: `N B` below 1024, hundredths of a KiB below
/// 1024 squared, hundredths of a MiB above, each rounded to the nearest
/// hundredth with halves rounded up.
pub open spec fn spec_format_size(bytes: u64) -> Seq<char> {
    if bytes < 1024 {
        spec_dec(bytes as int) + " B"@
    } else if bytes < 1048576 {
        spec_hundredths((bytes * 100 + 512) / 1024) + " KiB"@
    } else {
        spec_hundredths((bytes * 100 + 524288) / 1048576) + " MiB"@
    }
}

/// The single character of a decimal digit.
fn digit_str(d: u64) -> (r: &'static str)
    requires
        d < 10,
    ensures
        r@ == seq![dec_digit(d as int)],
{
    proof {
        reveal_strlit("0");
        reveal_strlit("1");
        reveal_strlit("2");
        reveal_strlit("3");
        reveal_strlit("4");
        reveal_strlit("5");
        reveal_strlit("6");
        reveal_strlit("7");
        reveal_strlit("8");
        reveal_strlit("9");
    }
    if d == 0 {
        "0"
    } else if d == 1 {
        "1"
    } else if d == 2 {
        "2"
    } else if d == 3 {
        "3"
    } else if d == 4 {
        "4"
    } else if d == 5 {
        "5"
    } else if d == 6 {
        "6"
    } else if d == 7 {
        "7"
    } else if d == 8 {
        "8"
    } else {
        "9"
    }
}

/// `n` in decimal.
pub fn u64_to_dec(n: u64) -> (r: String)
    ensures
        r@ == spec_dec(n as int),
    decreases n,
{
    if n < 10 {
        String::from_str(digit_str(n))
    } else {
        let r = u64_to_dec(n / 10);
        r.concat(digit_str(n % 10))
    }
}

/// `h` hundredths as `i.ff`, as [`spec_hundredths`] gives it.
fn hundredths(h: u64) -> (r: String)
    ensures
        r@ == spec_hundredths(h as int),
{
    let ip = u64_to_dec(h / 100);
    let fr = h % 100;
    let mut s = ip.concat(".");
    if fr < 10 {
        s = s.concat("0");
    }
    s.concat(u64_to_dec(fr).as_str())
}

/// The human-readable size label of `bytes`.
pub fn format_size(bytes: u64) -> (r: String)
    ensures
        r@ == spec_format_size(bytes),
{
    if bytes < 1024 {
        u64_to_dec(bytes).concat(" B")
    } else if bytes < 1048576 {
        let h = (bytes * 100 + 512) / 1024;
        hundredths(h).concat(" KiB")
    } else {
        let y: u128 = (bytes as u128) * 100 + 524288;
        let x: u128 = y / 1048576;
        assert(x < 0x10000000000000000) by (nonlinear_arith)
            requires
                x == y / 1048576,
                y < 0x100000000000000000000,
        ;
        let h = x as u64;
        hundredths(h).concat(" MiB")
    }
}

} // verus!
