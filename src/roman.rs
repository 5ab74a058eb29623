use vstd::prelude::*;
use vstd::string::*;

verus! {

/// The largest Roman numeral symbol (subtractive pairs included) that fits in `n`,
/// with its value.
pub open spec fn roman_step(n: nat) -> (Seq<char>, nat) {
    if n >= 1000 { ("M"@, 1000) }
    else if n >= 900 { ("CM"@, 900) }
    else if n >= 500 { ("D"@, 500) }
    else if n >= 400 { ("CD"@, 400) }
    else if n >= 100 { ("C"@, 100) }
    else if n >= 90 { ("XC"@, 90) }
    else if n >= 50 { ("L"@, 50) }
    else if n >= 40 { ("XL"@, 40) }
    else if n >= 10 { ("X"@, 10) }
    else if n >= 9 { ("IX"@, 9) }
    else if n >= 5 { ("V"@, 5) }
    else if n >= 4 { ("IV"@, 4) }
    else { ("I"@, 1) }
}

/// `n` written in Roman numerals, greedily from the largest symbol down; zero is empty.
pub open spec fn roman(n: nat) -> Seq<char>
    decreases n,
{
    if n == 0 {
        Seq::empty()
    } else {
        roman_step(n).0 + roman((n - roman_step(n).1) as nat)
    }
}

pub fn to_roman_num(num: usize) -> (r: String)
    ensures
        r@ == roman(num as nat),
{
    let mut res = String::new();
    let mut n: usize = num;
    while n > 0
        invariant
            res@ + roman(n as nat) == roman(num as nat),
        decreases n,
    {
        let (sym, v): (&str, usize) =
            if n >= 1000 { ("M", 1000) }
            else if n >= 900 { ("CM", 900) }
            else if n >= 500 { ("D", 500) }
            else if n >= 400 { ("CD", 400) }
            else if n >= 100 { ("C", 100) }
            else if n >= 90 { ("XC", 90) }
            else if n >= 50 { ("L", 50) }
            else if n >= 40 { ("XL", 40) }
            else if n >= 10 { ("X", 10) }
            else if n >= 9 { ("IX", 9) }
            else if n >= 5 { ("V", 5) }
            else if n >= 4 { ("IV", 4) }
            else { ("I", 1) };
        assert(sym@ == roman_step(n as nat).0 && v == roman_step(n as nat).1);
        let ghost before = res@;
        res.append(sym);
        n = n - v;
        assert(before + roman((n + v) as nat) == before + (sym@ + roman(n as nat)));
        assert(res@ + roman(n as nat) =~= before + (sym@ + roman(n as nat)));
    }
    assert(res@ =~= res@ + roman(0));
    res
}

} // verus!
