use vstd::prelude::*;
use crate::interval::{Note, OCTAVE};
use crate::chord::Chord;

verus! {

/// Position of a scale within its family of modes.
pub type Mode = usize;

/// Whether an integer is representable as a `Note`.
pub open spec fn fits(x: int) -> bool {
    i32::MIN <= x <= i32::MAX
}

/// The notes of a sequence, as integers.
pub open spec fn ints(v: Seq<i32>) -> Seq<int> {
    v.map_values(|x: i32| x as int)
}

/// An ordered sequence of absolute pitches; the first one is the tonic.
pub struct Scale(pub Vec<Note>);

/// The gaps between successive notes of a scale, the last one closing the octave.
pub struct Steps(pub Vec<Note>);

impl View for Scale {
    type V = Seq<int>;

    open spec fn view(&self) -> Seq<int> {
        ints(self.0@)
    }
}

impl View for Steps {
    type V = Seq<int>;

    open spec fn view(&self) -> Seq<int> {
        ints(self.0@)
    }
}

/// The `k`-th note met when walking the step pattern `st` from `root`,
/// round and round through the octaves.
pub open spec fn note_at(root: int, st: Seq<int>, k: nat) -> int
    decreases k,
{
    if k == 0 || st.len() == 0 {
        root
    } else {
        note_at(root, st, (k - 1) as nat) + st[((k - 1) as int) % (st.len() as int)]
    }
}

/// The scale built on `root` from the steps `st`: one note more than there are
/// steps, the last one closing the pattern.
pub open spec fn scale_of(root: int, st: Seq<int>) -> Seq<int> {
    Seq::new(st.len() + 1, |k: int| note_at(root, st, k as nat))
}

/// Successive differences of a scale; the last step reaches the octave above the tonic.
pub open spec fn steps_of(s: Seq<int>) -> Seq<int> {
    Seq::new(s.len(), |i: int| if i + 1 < s.len() { s[i + 1] - s[i] } else { s[0] + 12 - s[i] })
}

/// The intervals of every note after the first, measured from the first.
pub open spec fn chord_of(s: Seq<int>) -> Seq<int> {
    if s.len() == 0 {
        Seq::empty()
    } else {
        Seq::new((s.len() - 1) as nat, |i: int| s[i + 1] - s[0])
    }
}

/// The step pattern rotated left by `n` places.
pub open spec fn rotated(st: Seq<int>, n: nat) -> Seq<int> {
    Seq::new(st.len(), |i: int| st[(i + n) % (st.len() as int)])
}

/// Every step of `to_steps` is a `Note`.
pub open spec fn steps_fit(s: Seq<int>) -> bool {
    forall|i: int| 0 <= i < steps_of(s).len() ==> fits(#[trigger] steps_of(s)[i])
}

/// The first `n` notes of the walk from `root` are `Note`s.
pub open spec fn walk_fits(root: int, st: Seq<int>, n: nat) -> bool {
    forall|k: nat| k <= n ==> fits(#[trigger] note_at(root, st, k))
}

impl Scale {
    pub fn len(&self) -> (r: usize)
        ensures
            r == self@.len(),
    {
        self.0.len()
    }

    pub fn is_empty(&self) -> (r: bool)
        ensures
            r == (self@.len() == 0),
    {
        self.0.len() == 0
    }

    pub fn to_steps(&self) -> (r: Steps)
        requires
            steps_fit(self@),
        ensures
            r@ == steps_of(self@),
    {
        let n = self.0.len();
        let mut res: Vec<Note> = Vec::new();
        let mut i: usize = 0;
        while i < n
            invariant
                n == self@.len(),
                i <= n,
                steps_fit(self@),
                res@.len() == i,
                forall|j: int| 0 <= j < i ==> res@[j] as int == #[trigger] steps_of(self@)[j],
            decreases n - i,
        {
            assert(fits(steps_of(self@)[i as int]));
            let d: Note = if i + 1 < n {
                self.0[i + 1] - self.0[i]
            } else {
                (self.0[0] as i64 + OCTAVE as i64 - self.0[i] as i64) as Note
            };
            res.push(d);
            i = i + 1;
        }
        assert(ints(res@) =~= steps_of(self@));
        Steps(res)
    }

    pub fn into_chord(self) -> (r: Chord)
        requires
            forall|i: int| 0 <= i < chord_of(self@).len() ==> fits(#[trigger] chord_of(self@)[i]),
        ensures
            r@ == chord_of(self@),
    {
        let n = self.0.len();
        let mut res: Vec<Note> = Vec::new();
        if n == 0 {
            assert(ints(res@) =~= chord_of(self@));
            return Chord(res);
        }
        let first = self.0[0];
        let mut i: usize = 1;
        while i < n
            invariant
                n == self@.len(),
                1 <= i <= n,
                first == self@[0],
                forall|i: int| 0 <= i < chord_of(self@).len() ==> fits(#[trigger] chord_of(self@)[i]),
                res@.len() == i - 1,
                forall|j: int| 0 <= j < i - 1 ==> res@[j] as int == #[trigger] chord_of(self@)[j],
            decreases n - i,
        {
            assert(fits(chord_of(self@)[i - 1]));
            res.push(self.0[i] - first);
            i = i + 1;
        }
        assert(ints(res@) =~= chord_of(self@));
        Chord(res)
    }
}

impl Steps {
    pub fn len(&self) -> (r: usize)
        ensures
            r == self@.len(),
    {
        self.0.len()
    }

    pub fn into_scale(&self, root: Note) -> (r: Scale)
        requires
            walk_fits(root as int, self@, self@.len()),
        ensures
            r@ == scale_of(root as int, self@),
    {
        let n = self.0.len();
        let mut res: Vec<Note> = Vec::new();
        res.push(root);
        let mut cur: Note = root;
        let mut i: usize = 0;
        while i < n
            invariant
                n == self@.len(),
                i <= n,
                walk_fits(root as int, self@, self@.len()),
                cur as int == note_at(root as int, self@, i as nat),
                res@.len() == i + 1,
                forall|j: int| 0 <= j <= i ==> res@[j] as int == #[trigger] note_at(root as int, self@, j as nat),
            decreases n - i,
        {
            assert(fits(note_at(root as int, self@, (i + 1) as nat)));
            proof { vstd::arithmetic::div_mod::lemma_small_mod(i as nat, n as nat); }
            cur = cur + self.0[i];
            res.push(cur);
            i = i + 1;
        }
        assert(ints(res@) =~= scale_of(root as int, self@));
        Scale(res)
    }
}

/// The `n`-th mode of a step pattern: the pattern rotated left by `n` places.
pub fn mode_of_scale(steps: Steps, n: Mode) -> (r: Steps)
    requires
        steps@.len() > 0,
    ensures
        r@ == rotated(steps@, n as nat),
{
    let len = steps.0.len();
    let mut res: Vec<Note> = Vec::new();
    let mut i: usize = 0;
    let mut k: usize = n % len;
    while i < len
        invariant
            len == steps@.len(),
            len > 0,
            i <= len,
            k < len,
            k as int == (i + n) % (len as int),
            res@.len() == i,
            forall|j: int| 0 <= j < i ==> res@[j] as int == #[trigger] rotated(steps@, n as nat)[j],
        decreases len - i,
    {
        res.push(steps.0[k]);
        proof {
            vstd::arithmetic::div_mod::lemma_add_mod_noop(i + n, 1, len as int);
            if len > 1 {
                vstd::arithmetic::div_mod::lemma_small_mod(1, len as nat);
            }
            if k + 1 < len {
                vstd::arithmetic::div_mod::lemma_small_mod((k + 1) as nat, len as nat);
            } else {
                vstd::arithmetic::div_mod::lemma_mod_self_0(len as int);
            }
        }
        k = if k + 1 < len { k + 1 } else { 0 };
        i = i + 1;
    }
    assert(ints(res@) =~= rotated(steps@, n as nat));
    Steps(res)
}

/// The mode zero of a step pattern is the pattern itself.
pub proof fn lemma_mode_zero_identity(st: Seq<int>)
    requires
        st.len() > 0,
    ensures
        rotated(st, 0) == st,
{
    assert forall|i: int| 0 <= i < st.len() implies #[trigger] rotated(st, 0)[i] == st[i] by {
        vstd::arithmetic::div_mod::lemma_small_mod(i as nat, st.len());
    }
    assert(rotated(st, 0) =~= st);
}

/// Building a scale from steps and taking its steps again gives back every
/// step it was built from, followed by the step that closes the octave.
pub proof fn lemma_steps_round_trip(st: Seq<int>, root: int)
    requires
        st.len() > 0,
    ensures
        steps_of(scale_of(root, st)).len() == st.len() + 1,
        steps_of(scale_of(root, st)).take(st.len() as int) == st,
{
    let s = scale_of(root, st);
    assert forall|i: int| 0 <= i < st.len() implies #[trigger] steps_of(s)[i] == st[i] by {
        vstd::arithmetic::div_mod::lemma_small_mod(i as nat, st.len());
        assert(note_at(root, st, (i + 1) as nat) == note_at(root, st, i as nat) + st[i]);
    }
    assert(steps_of(s).take(st.len() as int) =~= st);
}

/// For a step pattern that spans exactly one octave, the scale it builds
/// (without the closing note, which repeats the tonic an octave up) has
/// exactly that pattern as its steps.
pub proof fn lemma_octave_steps_round_trip(st: Seq<int>, root: int)
    requires
        st.len() > 0,
        note_at(root, st, st.len()) == root + 12,
    ensures
        steps_of(scale_of(root, st).drop_last()) == st,
{
    let s = scale_of(root, st).drop_last();
    let n = st.len() as int;
    assert forall|i: int| 0 <= i < n implies #[trigger] steps_of(s)[i] == st[i] by {
        vstd::arithmetic::div_mod::lemma_small_mod(i as nat, st.len());
        assert(note_at(root, st, (i + 1) as nat) == note_at(root, st, i as nat) + st[i]);
    }
    assert(steps_of(s) =~= st);
}

} // verus!
