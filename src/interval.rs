use vstd::prelude::*;
use vstd::string::*;

verus! {

/// A pitch, or a distance between pitches, counted in semitones.
pub type Note = i32;

/// The smallest step of the old Greek scales, a quarter tone, rounded up to
/// the smallest step that a whole number of semitones can hold.
pub const QUAD: Note = 1;
pub const SEMI: Note = 1;
pub const WHOLE: Note = 2;

pub const UNISON: Note = 0;
pub const MINOR_SECOND: Note = 1;
pub const MAJOR_SECOND: Note = 2;
pub const MINOR_THIRD: Note = 3;
pub const MAJOR_THIRD: Note = 4;
pub const PERFECT_FOURTH: Note = 5;
pub const TRITONE: Note = 6;
pub const PERFECT_FIFTH: Note = 7;
pub const MINOR_SIXTH: Note = 8;
pub const MAJOR_SIXTH: Note = 9;
pub const MINOR_SEVENTH: Note = 10;
pub const MAJOR_SEVENTH: Note = 11;
pub const OCTAVE: Note = 12;

pub const FLAT_NINETH: Note = 13;
pub const NINETH: Note = 14;
pub const SHARP_NINETH: Note = 15;
pub const FLAT_ELEVENTH: Note = 16;
pub const ELEVENTH: Note = 17;
pub const SHARP_ELEVENTH: Note = 18;
pub const TWELVETH: Note = 19;
pub const FLAT_THIRTEENTH: Note = 20;
pub const THIRTEENTH: Note = 21;
pub const SHARP_THIRTEENTH: Note = 22;

pub const DIMINISHED_SECOND: Note = 0;
pub const AUGMENTED_UNISON: Note = 1;
pub const DIMINISHED_THIRD: Note = 2;
pub const AUGMENTED_SECOND: Note = 3;
pub const DIMINISHED_FOURTH: Note = 4;
pub const AUGMENTED_THIRD: Note = 5;
pub const DIMINISHED_FIFTH: Note = 6;
pub const AUGMENTED_FOURTH: Note = 6;
pub const DIMINISHED_SIXTH: Note = 7;
pub const AUGMENTED_FIFTH: Note = 8;
pub const DIMINISHED_SEVENTH: Note = 9;
pub const AUGMENTED_SIXTH: Note = 10;
pub const DIMINISHED_OCTAVE: Note = 11;
pub const AUGMENTED_SEVENTH: Note = 12;

/// The pitch class of a note: its remainder modulo an octave, in [0, 12).
pub open spec fn pitch_class_of(note: int) -> int {
    note % 12
}

pub fn pitch_class(note: Note) -> (r: Note)
    ensures
        r as int == pitch_class_of(note as int),
        0 <= r < 12,
{
    let m = note % 12;
    if m < 0 { m + 12 } else { m }
}

/// The degree symbol written for an interval above the root of a chord.
pub open spec fn extension_label(interval: int) -> Seq<char> {
    if interval == 0 { "R"@ }
    else if interval == 1 { "♭2"@ }
    else if interval == 2 { "♮2"@ }
    else if interval == 3 { "♭3"@ }
    else if interval == 4 { "♮3"@ }
    else if interval == 5 { "♮4"@ }
    else if interval == 6 { "♭5"@ }
    else if interval == 7 { "♮5"@ }
    else if interval == 8 { "♭6"@ }
    else if interval == 9 { "♮6"@ }
    else if interval == 10 { "♭7"@ }
    else if interval == 11 { "♮7"@ }
    else if interval == 13 { "♭9"@ }
    else if interval == 14 { "♮9"@ }
    else if interval == 15 { "♯9"@ }
    else if interval == 16 { "♭11"@ }
    else if interval == 17 { "♮11"@ }
    else if interval == 18 { "♯11"@ }
    else if interval == 20 { "♭13"@ }
    else if interval == 21 { "♮13"@ }
    else if interval == 22 { "♯13"@ }
    else { ""@ }
}

fn literal(s: &str) -> (r: String)
    ensures
        r@ == s@,
{
    String::from_str(s)
}

pub fn interval_chord_extension(interval: Note) -> (r: String)
    ensures
        r@ == extension_label(interval as int),
{
    let s: &str = match interval {
        0 => "R",
        MINOR_SECOND => "♭2",
        MAJOR_SECOND => "♮2",
        MINOR_THIRD => "♭3",
        MAJOR_THIRD => "♮3",
        PERFECT_FOURTH => "♮4",
        TRITONE => "♭5",
        PERFECT_FIFTH => "♮5",
        MINOR_SIXTH => "♭6",
        MAJOR_SIXTH => "♮6",
        MINOR_SEVENTH => "♭7",
        MAJOR_SEVENTH => "♮7",
        13 => "♭9",
        14 => "♮9",
        15 => "♯9",
        16 => "♭11",
        17 => "♮11",
        18 => "♯11",
        20 => "♭13",
        21 => "♮13",
        22 => "♯13",
        _ => "",
    };
    literal(s)
}

/// An alteration written as accidentals: one flat per semitone down, one
/// sharp per semitone up, a natural for none.
pub open spec fn alteration(interval: int) -> Seq<char> {
    if interval < 0 {
        Seq::new((-interval) as nat, |i: int| '♭')
    } else if interval > 0 {
        Seq::new(interval as nat, |i: int| '♯')
    } else {
        seq!['♮']
    }
}

pub fn to_relative_interval_non_nat(interval: Note) -> (r: String)
    ensures
        r@ == alteration(interval as int),
{
    let mut res = String::new();
    if interval == 0 {
        res.append("♮");
        proof { reveal_strlit("♮"); }
        assert(res@ =~= alteration(interval as int));
        return res;
    }
    let (sign, n): (&str, i64) = if interval < 0 { ("♭", -(interval as i64)) } else { ("♯", interval as i64) };
    let ghost c: char = if interval < 0 { '♭' } else { '♯' };
    proof {
        reveal_strlit("♭");
        reveal_strlit("♯");
    }
    assert(sign@ =~= seq![c]);
    let mut i: i64 = 0;
    while i < n
        invariant
            0 <= i <= n,
            sign@ =~= seq![c],
            res@ =~= Seq::new(i as nat, |k: int| c),
        decreases n - i,
    {
        res.append(sign);
        i = i + 1;
        assert(res@ =~= Seq::new(i as nat, |k: int| c));
    }
    assert(res@ =~= alteration(interval as int));
    res
}

/// The scale degree of an interval above the tonic, in Roman numerals.
pub open spec fn degree_label(interval: int) -> Seq<char> {
    if interval == 0 { "I"@ }
    else if interval == 1 { "bII"@ }
    else if interval == 2 { "II"@ }
    else if interval == 3 { "bIII"@ }
    else if interval == 4 { "III"@ }
    else if interval == 5 { "IV"@ }
    else if interval == 6 { "bV"@ }
    else if interval == 7 { "V"@ }
    else if interval == 8 { "bVI"@ }
    else if interval == 9 { "VI"@ }
    else if interval == 10 { "bVII"@ }
    else if interval == 11 { "VII"@ }
    else { "[outofrange]"@ }
}

pub fn to_degree(interval: Note) -> (r: String)
    ensures
        r@ == degree_label(interval as int),
{
    let s: &str = match interval {
        0 => "I",
        1 => "bII",
        2 => "II",
        3 => "bIII",
        4 => "III",
        5 => "IV",
        6 => "bV",
        7 => "V",
        8 => "bVI",
        9 => "VI",
        10 => "bVII",
        11 => "VII",
        _ => "[outofrange]",
    };
    literal(s)
}

/// The name of a pitch class, with sharps for the black keys.
pub open spec fn pitch_class_name(pc: int) -> Seq<char> {
    if pc == 0 { "C"@ }
    else if pc == 1 { "C#"@ }
    else if pc == 2 { "D"@ }
    else if pc == 3 { "D#"@ }
    else if pc == 4 { "E"@ }
    else if pc == 5 { "F"@ }
    else if pc == 6 { "F#"@ }
    else if pc == 7 { "G"@ }
    else if pc == 8 { "G#"@ }
    else if pc == 9 { "A"@ }
    else if pc == 10 { "A#"@ }
    else { "B"@ }
}

pub fn pitch_class_string(note: Note) -> (r: String)
    ensures
        r@ == pitch_class_name(pitch_class_of(note as int)),
{
    let s: &str = match pitch_class(note) {
        0 => "C",
        1 => "C#",
        2 => "D",
        3 => "D#",
        4 => "E",
        5 => "F",
        6 => "F#",
        7 => "G",
        8 => "G#",
        9 => "A",
        10 => "A#",
        _ => "B",
    };
    literal(s)
}

/// The decimal digit for `d`.
pub open spec fn digit_char(d: nat) -> char {
    if d == 0 { '0' }
    else if d == 1 { '1' }
    else if d == 2 { '2' }
    else if d == 3 { '3' }
    else if d == 4 { '4' }
    else if d == 5 { '5' }
    else if d == 6 { '6' }
    else if d == 7 { '7' }
    else if d == 8 { '8' }
    else { '9' }
}

/// The decimal digits of `n`, without leading zeros.
pub open spec fn digits(n: nat) -> Seq<char>
    decreases n,
{
    if n < 10 {
        seq![digit_char(n)]
    } else {
        digits(n / 10).push(digit_char(n % 10))
    }
}

/// `n` written in decimal, with a leading `-` when negative.
pub open spec fn decimal(n: int) -> Seq<char> {
    if n < 0 { seq!['-'] + digits((-n) as nat) } else { digits(n as nat) }
}

/// The decimal digits of `n`.
fn digits_string(n: u32) -> (r: String)
    ensures
        r@ == digits(n as nat),
    decreases n,
{
    let d = n % 10;
    let sym: &str = match d {
        0 => "0",
        1 => "1",
        2 => "2",
        3 => "3",
        4 => "4",
        5 => "5",
        6 => "6",
        7 => "7",
        8 => "8",
        _ => "9",
    };
    proof {
        reveal_strlit("0");
        reveal_strlit("1");
        reveal_strlit("2");
        reveal_strlit("3");
        reveal_strlit("4");
        reveal_strlit("5");
        reveal_strlit("6");
        reveal_strlit("7");
        reveal_strlit("8");
        reveal_strlit("9");
    }
    assert(sym@ =~= seq![digit_char(d as nat)]);
    if n < 10 {
        literal(sym)
    } else {
        let mut r = digits_string(n / 10);
        r.append(sym);
        assert(r@ =~= digits(n as nat));
        r
    }
}

/// `n` written in decimal, a `-` first when negative.
pub fn decimal_string(n: i32) -> (r: String)
    ensures
        r@ == decimal(n as int),
{
    if n < 0 {
        let m: u32 = (-(n as i64)) as u32;
        let mut r = literal("-");
        let ds = digits_string(m);
        r.append(ds.as_str());
        proof { reveal_strlit("-"); }
        assert(r@ =~= decimal(n as int));
        r
    } else {
        digits_string(n as u32)
    }
}

} // verus!
