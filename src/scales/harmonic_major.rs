use vstd::prelude::*;
use vstd::string::*;
use crate::interval::{Note, MINOR_THIRD, SEMI, WHOLE};
use crate::scales::{ScaleObj, texts};

verus! {

/// The step pattern of the Harmonic Major family.
pub open spec fn harmonic_major_steps() -> Seq<Note> {
    seq![WHOLE, WHOLE, SEMI, WHOLE, SEMI, MINOR_THIRD, SEMI]
}

pub fn steps() -> (r: Vec<Note>)
    ensures
        r@ == harmonic_major_steps(),
{
    vec![WHOLE, WHOLE, SEMI, WHOLE, SEMI, MINOR_THIRD, SEMI]
}

pub fn obj() -> (r: ScaleObj)
    ensures
        r.steps@ == harmonic_major_steps(),
        r.fam_name@ == "Harmonic Major"@,
        texts(r.modes@) == seq!["Harmonic Major"@, "Dorian ♭5"@, "Super Phrygian"@, "Lydian Diminished"@, "Mixolydian ♭9"@, "Lydian Augmented #2"@, "Locrian ♭♭7"@],
        r.wf(),
{
    let mut modes: Vec<String> = Vec::new();
    modes.push(String::from_str("Harmonic Major"));
    modes.push(String::from_str("Dorian ♭5"));
    modes.push(String::from_str("Super Phrygian"));
    modes.push(String::from_str("Lydian Diminished"));
    modes.push(String::from_str("Mixolydian ♭9"));
    modes.push(String::from_str("Lydian Augmented #2"));
    modes.push(String::from_str("Locrian ♭♭7"));
    let r = ScaleObj { steps: steps(), fam_name: String::from_str("Harmonic Major"), modes };
    assert(texts(r.modes@) =~= seq!["Harmonic Major"@, "Dorian ♭5"@, "Super Phrygian"@, "Lydian Diminished"@, "Mixolydian ♭9"@, "Lydian Augmented #2"@, "Locrian ♭♭7"@]);
    r
}

} // verus!
