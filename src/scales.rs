use vstd::prelude::*;
use vstd::string::*;
use crate::interval::Note;
use crate::scale::Mode;

pub mod ionian;
pub mod harmonic_minor;
pub mod harmonic_major;
pub mod miscellaneous_scales;

verus! {

/// A family of scales: its step pattern, its name, and the name of each of its modes.
pub struct ScaleObj {
    pub steps: Vec<Note>,
    pub fam_name: String,
    pub modes: Vec<String>,
}

/// A single mode of a family.
pub struct ModeObj {
    pub steps: Vec<Note>,
    pub fam_name: String,
    pub mode_name: String,
}

/// The characters of each string of a sequence.
pub open spec fn texts(v: Seq<String>) -> Seq<Seq<char>> {
    v.map_values(|s: String| s@)
}

impl ScaleObj {
    /// A family has a step pattern and one mode name per step.
    pub open spec fn wf(&self) -> bool {
        self.steps@.len() > 0 && self.modes@.len() == self.steps@.len()
    }

    pub fn clone_steps(&self) -> (r: Vec<Note>)
        ensures
            r@ == self.steps@,
    {
        let mut v: Vec<Note> = Vec::new();
        let mut i: usize = 0;
        while i < self.steps.len()
            invariant
                i <= self.steps@.len(),
                v@ == self.steps@.take(i as int),
            decreases self.steps@.len() - i,
        {
            v.push(self.steps[i]);
            i = i + 1;
            assert(v@ =~= self.steps@.take(i as int));
        }
        assert(v@ =~= self.steps@);
        v
    }

    pub fn family_name(&self) -> (r: String)
        ensures
            r@ == self.fam_name@,
    {
        self.fam_name.clone()
    }

    /// The name of mode `mode` (counted round the family), or `unnamed`
    /// where that name is empty.
    pub fn get_mode_name(&self, mode: Mode) -> (r: String)
        requires
            self.steps@.len() > 0,
            self.modes@.len() >= self.steps@.len(),
        ensures
            ({
                let name = self.modes@[(mode as int) % (self.steps@.len() as int)]@;
                r@ == if name.len() == 0 { "unnamed"@ } else { name }
            }),
    {
        let m = mode % self.steps.len();
        let name = self.modes[m].clone();
        if name.as_str().unicode_len() == 0 {
            String::from_str("unnamed")
        } else {
            name
        }
    }
}

impl ModeObj {
    /// `<mode>, mode of <family>`.
    pub fn describe(&self) -> (r: String)
        ensures
            r@ == self.mode_name@ + ", mode of "@ + self.fam_name@,
    {
        let mut r = self.mode_name.clone();
        r.append(", mode of ");
        r.append(self.fam_name.as_str());
        r
    }
}

/// The families of the catalogue: Ionian, harmonic minor, harmonic major.
pub fn get_all_scale_objs() -> (r: Vec<ScaleObj>)
    ensures
        r@.len() == 3,
        r@[0].fam_name@ == "Ionian"@,
        r@[1].fam_name@ == "Harmonic Minor"@,
        r@[2].fam_name@ == "Harmonic Major"@,
        r@[0].steps@ == ionian::ionian_steps(),
        r@[1].steps@ == harmonic_minor::harmonic_minor_steps(),
        r@[2].steps@ == harmonic_major::harmonic_major_steps(),
        forall|i: int| 0 <= i < 3 ==> (#[trigger] r@[i]).wf(),
{
    let mut v: Vec<ScaleObj> = Vec::new();
    v.push(ionian::obj());
    v.push(harmonic_minor::obj());
    v.push(harmonic_major::obj());
    v
}

} // verus!
