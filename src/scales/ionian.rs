use vstd::prelude::*;
use vstd::string::*;
use crate::interval::{Note, SEMI, WHOLE};
use crate::scale::Mode;
use crate::scales::{ScaleObj, texts};

verus! {

pub const IONIAN: Mode = 0;
pub const DORIAN: Mode = 1;
pub const PHRYGIAN: Mode = 2;
pub const LYDIAN: Mode = 3;
pub const MIXOLYDIAN: Mode = 4;
pub const AEOLIAN: Mode = 5;
pub const LOCRIAN: Mode = 6;

/// The step pattern of the Ionian family.
pub open spec fn ionian_steps() -> Seq<Note> {
    seq![WHOLE, WHOLE, SEMI, WHOLE, WHOLE, WHOLE, SEMI]
}

pub fn steps() -> (r: Vec<Note>)
    ensures
        r@ == ionian_steps(),
{
    vec![WHOLE, WHOLE, SEMI, WHOLE, WHOLE, WHOLE, SEMI]
}

pub fn obj() -> (r: ScaleObj)
    ensures
        r.steps@ == ionian_steps(),
        r.fam_name@ == "Ionian"@,
        texts(r.modes@) == seq!["Ionian"@, "Dorian"@, "Phrygian"@, "Lydian"@, "Mixolidian"@, "Aeolian"@, "Locrian"@],
        r.wf(),
{
    let mut modes: Vec<String> = Vec::new();
    modes.push(String::from_str("Ionian"));
    modes.push(String::from_str("Dorian"));
    modes.push(String::from_str("Phrygian"));
    modes.push(String::from_str("Lydian"));
    modes.push(String::from_str("Mixolidian"));
    modes.push(String::from_str("Aeolian"));
    modes.push(String::from_str("Locrian"));
    let r = ScaleObj { steps: steps(), fam_name: String::from_str("Ionian"), modes };
    assert(texts(r.modes@) =~= seq!["Ionian"@, "Dorian"@, "Phrygian"@, "Lydian"@, "Mixolidian"@, "Aeolian"@, "Locrian"@]);
    r
}

} // verus!
