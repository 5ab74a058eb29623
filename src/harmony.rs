use vstd::prelude::*;
use crate::interval::Note;
use crate::scale::{ints, fits, chord_of, note_at, steps_of, steps_fit, scale_of, walk_fits, Scale, Steps};
use crate::chord::{scale_on, select};
use crate::rooted::{notes_fit, normalized_rooted, rooted_sub_of};
use crate::order::{Ranked, keys, strictly_sorted, insert_ranked};
use crate::chord::{Chord, ChordStyling, chord_name, minor_form};
use crate::rooted::RootedChord;
use crate::roman::{roman, to_roman_num};
use crate::interval::{pitch_class_of, pitch_class_name};

verus! {

/// The notes met at walk positions `i`, `i + 2`, `i + 4`, ... (`size` of them)
/// from `root` along the steps `st`: a chord stacked in thirds on degree `i`.
pub open spec fn stacked(root: int, st: Seq<int>, i: int, size: nat) -> Seq<int> {
    Seq::new(size, |k: int| note_at(root, st, (i + 2 * k) as nat))
}

/// Whether every note of the stacked chords on each degree, and each of their
/// intervals, is a `Note`.
pub open spec fn stacks_fit(root: int, st: Seq<int>, size: nat) -> bool {
    &&& forall|k: nat| k < st.len() + 2 * size ==> fits(#[trigger] note_at(root, st, k))
    &&& forall|i: int, k: int| 0 <= i < st.len() && 0 <= k < size ==>
        fits(#[trigger] note_at(root, st, (i + 2 * k) as nat) - note_at(root, st, i as nat))
}

/// The first `count` notes of the walk from `root` along `steps`.
fn walk_notes(root: Note, steps: &Steps, count: usize) -> (r: Vec<Note>)
    requires
        forall|k: nat| k < count ==> fits(#[trigger] note_at(root as int, steps@, k)),
    ensures
        r@.len() == count,
        forall|k: int| 0 <= k < count ==> r@[k] as int == #[trigger] note_at(root as int, steps@, k as nat),
{
    let n = steps.0.len();
    let mut res: Vec<Note> = Vec::new();
    if count == 0 {
        return res;
    }
    let mut cur: Note = root;
    res.push(cur);
    let mut j: usize = 1;
    while j < count
        invariant
            1 <= j <= count,
            n == steps@.len(),
            res@.len() == j,
            cur as int == note_at(root as int, steps@, (j - 1) as nat),
            forall|k: nat| k < count ==> fits(#[trigger] note_at(root as int, steps@, k)),
            forall|k: int| 0 <= k < j ==> res@[k] as int == #[trigger] note_at(root as int, steps@, k as nat),
        decreases count - j,
    {
        assert(fits(note_at(root as int, steps@, j as nat)));
        if n > 0 {
            cur = cur + steps.0[(j - 1) % n];
        }
        res.push(cur);
        j = j + 1;
    }
    res
}

/// The notes of `walk` at positions `i`, `i + 2`, ..., `size` of them.
fn every_other(walk: &Vec<Note>, i: usize, size: usize) -> (r: Vec<Note>)
    requires
        i + 2 * size <= walk@.len() + 1,
        walk@.len() < usize::MAX,
    ensures
        r@.len() == size,
        forall|k: int| 0 <= k < size ==> #[trigger] r@[k] == walk@[i + 2 * k],
{
    let mut res: Vec<Note> = Vec::new();
    let mut k: usize = 0;
    while k < size
        invariant
            i + 2 * size <= walk@.len() + 1,
            walk@.len() < usize::MAX,
            k <= size,
            res@.len() == k,
            forall|j: int| 0 <= j < k ==> #[trigger] res@[j] == walk@[i + 2 * j],
        decreases size - k,
    {
        assert(2 * k + 2 <= 2 * size);
        assert(i + 2 * k < walk@.len());
        res.push(walk[i + 2 * k]);
        k = k + 1;
    }
    res
}

/// The chord stacked in thirds on each degree of the scale, as intervals.
pub fn scale_chords(steps: &Steps, chord_size: usize) -> (r: Vec<Chord>)
    requires
        steps@.len() + 2 * chord_size < usize::MAX,
        stacks_fit(0, steps@, chord_size as nat),
    ensures
        r@.len() == steps@.len(),
        forall|i: int| 0 <= i < r@.len() ==> (#[trigger] r@[i])@ == chord_of(stacked(0, steps@, i, chord_size as nat)),
{
    let rc = rooted_scale_chords(steps, 0, chord_size);
    let mut res: Vec<Chord> = Vec::new();
    let mut i: usize = 0;
    while i < rc.len()
        invariant
            i <= rc@.len(),
            rc@.len() == steps@.len(),
            res@.len() == i,
            forall|k: int| 0 <= k < rc@.len() ==> (#[trigger] rc@[k]).chord@ == chord_of(stacked(0, steps@, k, chord_size as nat)),
            forall|k: int| 0 <= k < i ==> (#[trigger] res@[k])@ == chord_of(stacked(0, steps@, k, chord_size as nat)),
        decreases rc@.len() - i,
    {
        res.push(Chord::new(rc[i].chord.0.as_slice()));
        i = i + 1;
    }
    res
}

/// The chord stacked in thirds on each degree of the scale on `tonic`.
pub fn rooted_scale_chords(steps: &Steps, tonic: Note, chord_size: usize) -> (r: Vec<RootedChord>)
    requires
        steps@.len() + 2 * chord_size < usize::MAX,
        stacks_fit(tonic as int, steps@, chord_size as nat),
    ensures
        r@.len() == steps@.len(),
        forall|i: int| 0 <= i < r@.len() ==> (#[trigger] r@[i]).chord@ == chord_of(stacked(tonic as int, steps@, i, chord_size as nat)),
        forall|i: int| 0 <= i < r@.len() ==> (#[trigger] r@[i]).root as int == (if chord_size == 0 { 0 } else { note_at(tonic as int, steps@, i as nat) }),
{
    let ghost st = steps@;
    let len = steps.0.len();
    let count = len + 2 * chord_size;
    let walk = walk_notes(tonic, steps, count);
    let mut res: Vec<RootedChord> = Vec::new();
    let mut i: usize = 0;
    while i < len
        invariant
            i <= len,
            len == st.len(),
            st == steps@,
            count == len + 2 * chord_size,
            count < usize::MAX,
            walk@.len() == count,
            stacks_fit(tonic as int, st, chord_size as nat),
            forall|k: int| 0 <= k < count ==> walk@[k] as int == #[trigger] note_at(tonic as int, st, k as nat),
            res@.len() == i,
            forall|k: int| 0 <= k < i ==> (#[trigger] res@[k]).chord@ == chord_of(stacked(tonic as int, st, k, chord_size as nat)),
            forall|k: int| 0 <= k < i ==> (#[trigger] res@[k]).root as int == (if chord_size == 0 { 0 } else { note_at(tonic as int, st, k as nat) }),
        decreases len - i,
    {
        let notes = every_other(&walk, i, chord_size);
        let ghost sk = stacked(tonic as int, st, i as int, chord_size as nat);
        assert(ints(notes@) =~= sk);
        assert forall|j: int| 0 <= j < chord_of(sk).len() implies fits(#[trigger] chord_of(sk)[j]) by {
            assert(fits(note_at(tonic as int, st, (i + 2 * (j + 1)) as nat) - note_at(tonic as int, st, i as nat)));
            assert(sk[j + 1] == note_at(tonic as int, st, (i + 2 * (j + 1)) as nat));
            assert(note_at(tonic as int, st, (i + 2 * 0) as nat) == note_at(tonic as int, st, i as nat));
        }
        if chord_size > 0 {
            assert(sk[0] == note_at(tonic as int, st, (i + 2 * 0) as nat));
        }
        res.push(RootedChord::from_scale(Scale(notes)));
        i = i + 1;
    }
    res
}

/// The names of the chords stacked on each degree, each on the Roman numeral
/// of its degree.
pub fn strs_scale_chords_roman(steps: &Steps, size: usize, styling: ChordStyling) -> (r: Vec<String>)
    requires
        steps@.len() + 2 * size < usize::MAX,
        stacks_fit(0, steps@, size as nat),
    ensures
        r@.len() == steps@.len(),
        forall|i: int| 0 <= i < r@.len() ==> (#[trigger] r@[i])@ == chord_name(
            chord_of(stacked(0, steps@, i, size as nat)),
            roman((i + 1) as nat),
            minor_form(roman((i + 1) as nat), true),
            styling,
        ),
{
    let chords = scale_chords(steps, size);
    let mut res: Vec<String> = Vec::new();
    let mut i: usize = 0;
    while i < chords.len()
        invariant
            i <= chords@.len(),
            chords@.len() == steps@.len(),
            res@.len() == i,
            forall|k: int| 0 <= k < chords@.len() ==> (#[trigger] chords@[k])@ == chord_of(stacked(0, steps@, k, size as nat)),
            forall|k: int| 0 <= k < i ==> (#[trigger] res@[k])@ == chord_name(
                chord_of(stacked(0, steps@, k, size as nat)),
                roman((k + 1) as nat),
                minor_form(roman((k + 1) as nat), true),
                styling,
            ),
        decreases chords@.len() - i,
    {
        let name = chords[i].quality(to_roman_num(i + 1), true, styling);
        res.push(name);
        i = i + 1;
    }
    res
}

/// The names of the chords stacked on each degree of the scale on `tonic`.
pub fn strs_scale_chords(steps: &Steps, tonic: Note, size: usize, styling: ChordStyling) -> (r: Vec<String>)
    requires
        steps@.len() + 2 * size < usize::MAX,
        stacks_fit(tonic as int, steps@, size as nat),
    ensures
        r@.len() == steps@.len(),
        forall|i: int| 0 <= i < r@.len() ==> {
            let root = if size == 0 { 0 } else { note_at(tonic as int, steps@, i as nat) };
            (#[trigger] r@[i])@ == chord_name(
                chord_of(stacked(tonic as int, steps@, i, size as nat)),
                pitch_class_name(pitch_class_of(root)),
                minor_form(pitch_class_name(pitch_class_of(root)), true),
                styling,
            )
        },
{
    let chords = rooted_scale_chords(steps, tonic, size);
    let mut res: Vec<String> = Vec::new();
    let mut i: usize = 0;
    while i < chords.len()
        invariant
            i <= chords@.len(),
            chords@.len() == steps@.len(),
            res@.len() == i,
            forall|k: int| 0 <= k < chords@.len() ==> (#[trigger] chords@[k]).chord@ == chord_of(stacked(tonic as int, steps@, k, size as nat)),
            forall|k: int| 0 <= k < chords@.len() ==> (#[trigger] chords@[k]).root as int == (if size == 0 { 0 } else { note_at(tonic as int, steps@, k as nat) }),
            forall|k: int| 0 <= k < i ==> {
                let root = if size == 0 { 0 } else { note_at(tonic as int, steps@, k as nat) };
                (#[trigger] res@[k])@ == chord_name(
                    chord_of(stacked(tonic as int, steps@, k, size as nat)),
                    pitch_class_name(pitch_class_of(root)),
                    minor_form(pitch_class_name(pitch_class_of(root)), true),
                    styling,
                )
            },
        decreases chords@.len() - i,
    {
        let name = chords[i].as_string(true, styling);
        res.push(name);
        i = i + 1;
    }
    res
}

proof fn lemma_select_len(s: Seq<int>, m: u64)
    ensures
        select(s, m).len() <= s.len(),
    decreases s.len(),
{
    if s.len() > 0 {
        lemma_select_len(s.drop_last(), m);
    }
}

/// The notes of the scale `s` walked from its degree `i`, as many as it has.
pub open spec fn window(s: Seq<int>, i: int) -> Seq<int> {
    Seq::new(s.len(), |k: int| note_at(s[0], steps_of(s), (i + k) as nat))
}

/// A rooted chord, written as its root and intervals, normalized.
pub open spec fn norm_key(k: Seq<int>) -> Seq<int> {
    normalized_rooted(k[0], k.drop_first())
}

/// `y` is the normalized rooted chord that mask `m` picks out of the scale
/// `s` walked from its degree `i`.
pub open spec fn window_sub_of(s: Seq<int>, i: int, m: u64, y: Seq<int>) -> bool {
    let sel = select(window(s, i), m);
    sel.len() >= 2 && y == norm_key(seq![sel[0]] + chord_of(sel))
}

/// Whether the scale's steps and every note of each of its walks are `Note`s.
pub open spec fn walks_fit(s: Seq<int>) -> bool {
    &&& s.len() < 63
    &&& steps_fit(s)
    &&& forall|i: int| 0 <= i < s.len() ==> notes_fit(#[trigger] window(s, i))
}

/// `y` is the normalized form of one of the first `j` keys.
pub open spec fn found_in(ks: Seq<Seq<int>>, j: int, y: Seq<int>) -> bool {
    exists|t: int| 0 <= t < j && y == #[trigger] norm_key(ks[t])
}

proof fn lemma_found_in_step(ks: Seq<Seq<int>>, j: int, y: Seq<int>)
    requires
        0 <= j,
    ensures
        found_in(ks, j + 1, y) == (found_in(ks, j, y) || y == norm_key(ks[j])),
{
    if found_in(ks, j + 1, y) {
        let t = choose|t: int| 0 <= t < j + 1 && y == #[trigger] norm_key(ks[t]);
        if t < j {
            assert(found_in(ks, j, y));
        }
    }
    if found_in(ks, j, y) {
        let t = choose|t: int| 0 <= t < j && y == #[trigger] norm_key(ks[t]);
        assert(0 <= t < j + 1 && y == norm_key(ks[t]));
    }
    if y == norm_key(ks[j]) {
        assert(0 <= j < j + 1 && y == norm_key(ks[j]));
    }
}

proof fn lemma_scale_on_chord_of(w: Seq<int>)
    requires
        w.len() > 0,
    ensures
        scale_on(w[0], chord_of(w)) == w,
{
    assert(scale_on(w[0], chord_of(w)) =~= w);
}

/// Every normalized rooted chord of two notes or more found in the scale
/// walked from any of its degrees, each once, by number of intervals, then
/// root, then intervals; nothing for a scale of fewer than three notes.
pub fn scale_subseq_chords(scale: Scale) -> (r: Vec<RootedChord>)
    requires
        scale@.len() >= 3 ==> walks_fit(scale@),
    ensures
        scale@.len() < 3 ==> r@.len() == 0,
        strictly_sorted(keys(r@)),
        scale@.len() >= 3 ==> forall|y: Seq<int>| keys(r@).contains(y) <==> exists|i: int, m: u64|
            0 <= i < scale@.len() && m < (1u64 << (scale@.len() as u64)) && #[trigger] window_sub_of(scale@, i, m, y),
{
    let ghost s = scale@;
    let mut res: Vec<RootedChord> = Vec::new();
    if scale.0.len() < 3 {
        assert(strictly_sorted(keys(res@)));
        return res;
    }
    let steps = scale.to_steps();
    let root = scale.0[0];
    let slen = scale.0.len();
    let count = 2 * slen - 1;
    assert forall|k: nat| k < count implies fits(#[trigger] note_at(root as int, steps@, k)) by {
        let i: int = if k < slen { 0 } else { slen - 1 };
        assert(notes_fit(window(s, i)));
        assert(window(s, i)[k - i] == note_at(root as int, steps@, k));
    }
    let walk = walk_notes(root, &steps, count);
    let mut i: usize = 0;
    while i < slen
        invariant
            s == scale@,
            slen == s.len() >= 3,
            walks_fit(s),
            root as int == s[0],
            steps@ == steps_of(s),
            count == 2 * slen - 1,
            walk@.len() == count,
            forall|k: int| 0 <= k < count ==> walk@[k] as int == #[trigger] note_at(root as int, steps@, k as nat),
            i <= slen,
            strictly_sorted(keys(res@)),
            forall|y: Seq<int>| keys(res@).contains(y) <==> exists|i2: int, m: u64|
                0 <= i2 < i && m < (1u64 << (slen as u64)) && #[trigger] window_sub_of(s, i2, m, y),
        decreases slen - i,
    {
        let mut lscale: Vec<Note> = Vec::new();
        let mut k: usize = 0;
        while k < slen
            invariant
                i < slen,
                count == 2 * slen - 1,
                walk@.len() == count,
                k <= slen,
                lscale@.len() == k,
                forall|t: int| 0 <= t < k ==> lscale@[t] == walk@[i + t],
            decreases slen - k,
        {
            lscale.push(walk[i + k]);
            k = k + 1;
        }
        let ghost w = window(s, i as int);
        assert(ints(lscale@) =~= w) by {
            assert forall|t: int| 0 <= t < slen implies ints(lscale@)[t] == w[t] by {
                assert(walk@[i + t] as int == note_at(root as int, steps@, (i + t) as nat));
            }
        }
        assert(notes_fit(w));
        assert forall|t: int| 0 <= t < chord_of(w).len() implies fits(#[trigger] chord_of(w)[t]) by {
            assert(fits(w[t + 1] - w[0]));
        }
        let rc = RootedChord::from_scale(Scale(lscale));
        proof { lemma_scale_on_chord_of(w); }
        let subs = rc.into_subseq_chords();
        proof {
            assert(rc.root as int == w[0]);
            assert(scale_on(rc.root as int, rc.chord@) == w);
            assert(rc.chord@.len() + 1 == slen);
        }
        assert forall|y: Seq<int>| keys(subs@).contains(y) <==> exists|m: u64|
            m < (1u64 << (slen as u64)) && #[trigger] rooted_sub_of(w, m, y) by {
            if keys(subs@).contains(y) {
                let m = choose|m: u64| m < (1u64 << ((rc.chord@.len() + 1) as u64))
                    && #[trigger] rooted_sub_of(scale_on(rc.root as int, rc.chord@), m, y);
                assert(m < (1u64 << (slen as u64)) && rooted_sub_of(w, m, y));
            }
            if exists|m: u64| m < (1u64 << (slen as u64)) && #[trigger] rooted_sub_of(w, m, y) {
                let m = choose|m: u64| m < (1u64 << (slen as u64)) && #[trigger] rooted_sub_of(w, m, y);
                assert(m < (1u64 << ((rc.chord@.len() + 1) as u64))
                    && rooted_sub_of(scale_on(rc.root as int, rc.chord@), m, y));
            }
        }
        let ghost before = keys(res@);
        let mut j: usize = 0;
        while j < subs.len()
            invariant
                strictly_sorted(keys(res@)),
                j <= subs@.len(),
                forall|y: Seq<int>| #[trigger] keys(res@).contains(y) <==> (before.contains(y) || found_in(keys(subs@), j as int, y)),
            decreases subs@.len() - j,
        {
            let n = subs[j].copy().normalized();
            proof {
                let k0 = keys(subs@)[j as int];
                assert(k0[0] == subs@[j as int].root as int);
                assert(k0.drop_first() =~= subs@[j as int].chord@);
            }
            assert(n.key() == norm_key(keys(subs@)[j as int]));
            let ghost before_j = keys(res@);
            assert(forall|y: Seq<int>| before_j.contains(y) <==> (before.contains(y) || found_in(keys(subs@), j as int, y)));
            insert_ranked(&mut res, n);
            assert forall|y: Seq<int>| keys(res@).contains(y) <==> (before.contains(y) || found_in(keys(subs@), j + 1, y)) by {
                lemma_found_in_step(keys(subs@), j as int, y);
                assert(keys(res@).contains(y) == (y == n.key() || before_j.contains(y)));
            }
            j = j + 1;
        }
        assert forall|y: Seq<int>| keys(res@).contains(y) <==> exists|i2: int, m: u64|
            0 <= i2 < i + 1 && m < (1u64 << (slen as u64)) && #[trigger] window_sub_of(s, i2, m, y) by {
            if keys(res@).contains(y) {
                if before.contains(y) {
                    let (i2, m) = choose|i2: int, m: u64| 0 <= i2 < i && m < (1u64 << (slen as u64)) && #[trigger] window_sub_of(s, i2, m, y);
                    assert(0 <= i2 < i + 1 && window_sub_of(s, i2, m, y));
                } else {
                    assert(found_in(keys(subs@), subs@.len() as int, y));
                    let t = choose|t: int| 0 <= t < subs@.len() && y == #[trigger] norm_key(keys(subs@)[t]);
                    let k0 = keys(subs@)[t];
                    assert(keys(subs@).contains(k0));
                    let m = choose|m: u64| m < (1u64 << ((chord_of(w).len() + 1) as u64)) && #[trigger] rooted_sub_of(w, m, k0);
                    assert(window_sub_of(s, i as int, m, y));
                }
            }
            if exists|i2: int, m: u64| 0 <= i2 < i + 1 && m < (1u64 << (slen as u64)) && #[trigger] window_sub_of(s, i2, m, y) {
                let (i2, m) = choose|i2: int, m: u64| 0 <= i2 < i + 1 && m < (1u64 << (slen as u64)) && #[trigger] window_sub_of(s, i2, m, y);
                if i2 < i {
                    assert(before.contains(y));
                } else {
                    let sel = select(w, m);
                    let k0 = seq![sel[0]] + chord_of(sel);
                    assert(rooted_sub_of(w, m, k0));
                    assert(keys(subs@).contains(k0));
                    let t = choose|t: int| 0 <= t < keys(subs@).len() && keys(subs@)[t] == k0;
                    assert(y == norm_key(keys(subs@)[t]));
                    assert(found_in(keys(subs@), subs@.len() as int, y));
                }
            }
        }
        i = i + 1;
    }
    res
}

/// The last position among the first `k` notes whose value, counted from 0
/// upwards, is `x`; 0 where there is none.
pub open spec fn slot(notes: Seq<int>, k: int, x: int) -> int
    decreases k,
{
    if k <= 0 {
        0
    } else if (if notes[k - 1] < 0 { 0 } else { notes[k - 1] }) == x {
        k - 1
    } else {
        slot(notes, k - 1, x)
    }
}

/// The intervals of the rooted chords among `ks` (root first) whose root
/// falls on degree `d` of `notes`, in order.
pub open spec fn grouped(ks: Seq<Seq<int>>, notes: Seq<int>, d: int) -> Seq<Seq<int>>
    decreases ks.len(),
{
    if ks.len() == 0 {
        Seq::empty()
    } else {
        let k = ks.last();
        grouped(ks.drop_last(), notes, d) + (if slot(notes, notes.len() as int, if k[0] < 0 { 0 } else { k[0] }) == d {
            seq![k.drop_first()]
        } else {
            Seq::empty()
        })
    }
}

/// The intervals of each chord of a sequence.
pub open spec fn chord_seqs(v: Seq<Chord>) -> Seq<Seq<int>> {
    v.map_values(|c: Chord| c@)
}

/// Whether the scale that the steps build from 0 (without its closing note)
/// stays below an octave and can be walked within `Note`s.
pub open spec fn degree_table_fits(st: Seq<int>) -> bool {
    let notes = scale_of(0, st).drop_last();
    &&& walk_fits(0, st, st.len())
    &&& forall|i: int| 0 <= i < notes.len() ==> #[trigger] notes[i] < 12
    &&& notes.len() >= 3 ==> walks_fit(notes)
}

/// The sub-chords found in the scale that the steps build from 0, each put
/// under the degree of the scale on which its (normalized) root falls.
pub fn steps_subseq_chords(steps: Steps) -> (r: Vec<Vec<Chord>>)
    requires
        degree_table_fits(steps@),
    ensures
        r@.len() == steps@.len(),
        exists|subs: Seq<RootedChord>| {
            let notes = scale_of(0, steps@).drop_last();
            &&& strictly_sorted(#[trigger] keys(subs))
            &&& (notes.len() < 3 ==> subs.len() == 0)
            &&& (notes.len() >= 3 ==> forall|y: Seq<int>| keys(subs).contains(y) <==> exists|i: int, m: u64|
                0 <= i < notes.len() && m < (1u64 << (notes.len() as u64)) && #[trigger] window_sub_of(notes, i, m, y))
            &&& forall|d: int| 0 <= d < r@.len() ==> chord_seqs(#[trigger] r@[d]@) == grouped(keys(subs), notes, d)
        },
{
    let ghost st = steps@;
    let mut scale = steps.into_scale(0);
    scale.0.pop();
    let ghost notes = scale_of(0, st).drop_last();
    assert(scale@ =~= notes);
    let n = scale.0.len();
    let mut table: Vec<usize> = Vec::new();
    let mut x: usize = 0;
    while x < 12
        invariant
            x <= 12,
            table@.len() == x,
            forall|t: int| 0 <= t < x ==> table@[t] == 0,
        decreases 12 - x,
    {
        table.push(0);
        x = x + 1;
    }
    let mut i: usize = 0;
    while i < n
        invariant
            n == notes.len(),
            scale@ == notes,
            forall|t: int| 0 <= t < notes.len() ==> #[trigger] notes[t] < 12,
            i <= n,
            table@.len() == 12,
            forall|t: int| 0 <= t < 12 ==> table@[t] as int == #[trigger] slot(notes, i as int, t),
        decreases n - i,
    {
        let note = scale.0[i];
        assert(notes[i as int] < 12);
        assert(scale@[i as int] == note as int);
        let idx: usize = if note < 0 { 0 } else { note as usize };
        table.set(idx, i);
        assert forall|t: int| 0 <= t < 12 implies table@[t] as int == #[trigger] slot(notes, i + 1, t) by {
            assert(slot(notes, i + 1, t) == (if (if notes[i as int] < 0 { 0 } else { notes[i as int] }) == t {
                i as int
            } else {
                slot(notes, i as int, t)
            }));
        }
        i = i + 1;
    }
    let copy = Scale(Chord::new(scale.0.as_slice()).0);
    assert(copy@ == notes);
    let subs = scale_subseq_chords(copy);
    let ghost ks = keys(subs@);
    assert forall|t: int| 0 <= t < ks.len() implies #[trigger] ks[t][0] < 12 by {
        assert(ks.contains(ks[t]));
        if notes.len() >= 3 {
            let (i2, m) = choose|i2: int, m: u64| 0 <= i2 < notes.len() && m < (1u64 << (notes.len() as u64))
                && #[trigger] window_sub_of(notes, i2, m, ks[t]);
            let sel = select(window(notes, i2), m);
            let y0 = seq![sel[0]] + chord_of(sel);
            assert(ks[t] == norm_key(y0));
        }
    }
    let mut cells: Vec<Vec<Chord>> = Vec::new();
    let mut d: usize = 0;
    while d < n
        invariant
            n == notes.len(),
            d <= n,
            table@.len() == 12,
            forall|t: int| 0 <= t < 12 ==> table@[t] as int == #[trigger] slot(notes, n as int, t),
            ks == keys(subs@),
            forall|t: int| 0 <= t < ks.len() ==> #[trigger] ks[t][0] < 12,
            cells@.len() == d,
            forall|e: int| 0 <= e < d ==> chord_seqs(#[trigger] cells@[e]@) == grouped(ks, notes, e),
        decreases n - d,
    {
        let mut cell: Vec<Chord> = Vec::new();
        let mut j: usize = 0;
        while j < subs.len()
            invariant
                n == notes.len(),
                j <= subs@.len(),
                table@.len() == 12,
                forall|t: int| 0 <= t < 12 ==> table@[t] as int == #[trigger] slot(notes, n as int, t),
                ks == keys(subs@),
                forall|t: int| 0 <= t < ks.len() ==> #[trigger] ks[t][0] < 12,
                chord_seqs(cell@) == grouped(ks.take(j as int), notes, d as int),
            decreases subs@.len() - j,
        {
            let root = subs[j].root;
            let ghost k = ks[j as int];
            assert(ks.take(j + 1).drop_last() =~= ks.take(j as int));
            assert(k[0] == root as int);
            assert(k.drop_first() =~= subs@[j as int].chord@);
            assert(k[0] < 12);
            let idx: usize = if root < 0 { 0 } else { root as usize };
            assert(ks.take(j + 1).last() == k);
            assert(idx as int == (if k[0] < 0 { 0 } else { k[0] }));
            assert(grouped(ks.take(j + 1), notes, d as int) == grouped(ks.take(j as int), notes, d as int)
                + (if slot(notes, notes.len() as int, idx as int) == d { seq![k.drop_first()] } else { Seq::empty() }));
            assert(ks[j as int][0] < 12);
            assert(table@[idx as int] as int == slot(notes, n as int, idx as int));
            if table[idx] == d {
                cell.push(Chord::new(subs[j].chord.0.as_slice()));
                assert(chord_seqs(cell@) =~= grouped(ks.take(j as int), notes, d as int) + seq![k.drop_first()]);
            } else {
                assert(grouped(ks.take(j + 1), notes, d as int) =~= grouped(ks.take(j as int), notes, d as int));
            }
            j = j + 1;
        }
        assert(ks.take(subs@.len() as int) =~= ks);
        cells.push(cell);
        d = d + 1;
    }
    assert(strictly_sorted(keys(subs@)));
    cells
}

} // verus!
