use vstd::prelude::*;
use vstd::string::*;
use crate::interval::{Note, MINOR_THIRD, SEMI, WHOLE};
use crate::scales::{ScaleObj, texts};

verus! {

/// The step pattern of the Harmonic Minor family.
pub open spec fn harmonic_minor_steps() -> Seq<Note> {
    seq![WHOLE, SEMI, WHOLE, WHOLE, SEMI, MINOR_THIRD, SEMI]
}

pub fn steps() -> (r: Vec<Note>)
    ensures
        r@ == harmonic_minor_steps(),
{
    vec![WHOLE, SEMI, WHOLE, WHOLE, SEMI, MINOR_THIRD, SEMI]
}

pub fn obj() -> (r: ScaleObj)
    ensures
        r.steps@ == harmonic_minor_steps(),
        r.fam_name@ == "Harmonic Minor"@,
        texts(r.modes@) == seq!["Harmonic Minor"@, "Locrian ♯6"@, "Ionian ♯5"@, "Dorian ♯4"@, "Phrygian Dominant"@, "Lydian ♯2"@, "Superlocrian"@],
        r.wf(),
{
    let mut modes: Vec<String> = Vec::new();
    modes.push(String::from_str("Harmonic Minor"));
    modes.push(String::from_str("Locrian ♯6"));
    modes.push(String::from_str("Ionian ♯5"));
    modes.push(String::from_str("Dorian ♯4"));
    modes.push(String::from_str("Phrygian Dominant"));
    modes.push(String::from_str("Lydian ♯2"));
    modes.push(String::from_str("Superlocrian"));
    let r = ScaleObj { steps: steps(), fam_name: String::from_str("Harmonic Minor"), modes };
    assert(texts(r.modes@) =~= seq!["Harmonic Minor"@, "Locrian ♯6"@, "Ionian ♯5"@, "Dorian ♯4"@, "Phrygian Dominant"@, "Lydian ♯2"@, "Superlocrian"@]);
    r
}

} // verus!
