use vstd::prelude::*;
use crate::interval::{Note, QUAD, SEMI, WHOLE, MAJOR_THIRD, MINOR_THIRD};

verus! {

/// The old Greek Dorian mode: two four-note segments separated by a whole
/// tone, each of two of the smallest steps and a major third.
pub fn greek_dorian_steps() -> (r: Vec<Note>)
    ensures
        r@ == seq![QUAD, QUAD, MAJOR_THIRD, WHOLE, QUAD, QUAD, MAJOR_THIRD],
{
    vec![QUAD, QUAD, MAJOR_THIRD, WHOLE, QUAD, QUAD, MAJOR_THIRD]
}

pub fn greek_dorian_chromatic_steps() -> (r: Vec<Note>)
    ensures
        r@ == seq![SEMI, SEMI, MINOR_THIRD, WHOLE, SEMI, SEMI, MINOR_THIRD],
{
    vec![SEMI, SEMI, MINOR_THIRD, WHOLE, SEMI, SEMI, MINOR_THIRD]
}

/// A, B, C, D♯, E, F♯, A.
pub fn satie_scale_steps() -> (r: Vec<Note>)
    ensures
        r@ == seq![WHOLE, SEMI, MINOR_THIRD, SEMI, WHOLE, MINOR_THIRD],
{
    vec![WHOLE, SEMI, MINOR_THIRD, SEMI, WHOLE, MINOR_THIRD]
}

pub fn chromatic_scale_steps() -> (r: Vec<Note>)
    ensures
        r@ == Seq::new(12, |i: int| SEMI),
{
    let r = vec![SEMI, SEMI, SEMI, SEMI, SEMI, SEMI, SEMI, SEMI, SEMI, SEMI, SEMI, SEMI];
    assert(r@ =~= Seq::new(12, |i: int| SEMI));
    r
}

} // verus!
