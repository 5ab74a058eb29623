use vstd::prelude::*;
use vstd::string::*;
use crate::interval::{decimal, decimal_string, Note, OCTAVE, MAJOR_SECOND, pitch_class_of, pitch_class_name, pitch_class_string, to_degree, degree_label};
use crate::scale::{ints, fits, chord_of, Scale};
use crate::chord::{
    Chord, ChordStyling, chord_name, minor_form, scale_on, select, pairwise_fits, subset,
    lemma_select_within, normalized_of,
};
use crate::order::{Ranked, chord_lt, lex_lt, keys, strictly_sorted, insert_ranked, lemma_strictly_sorted_distinct};

verus! {

/// A chord sounding on an absolute root.
#[derive(Clone, Debug, Default, PartialEq, Eq, Hash)]
pub struct RootedChord {
    pub root: Note,
    pub chord: Chord,
}

/// The rooted chord of at least two notes that mask `m` picks out of `s`,
/// written as its root followed by its intervals.
pub open spec fn rooted_sub_of(s: Seq<int>, m: u64, y: Seq<int>) -> bool {
    select(s, m).len() >= 2 && y == seq![select(s, m)[0]] + chord_of(select(s, m))
}

/// Every note of `s`, and every difference of two of them, is a `Note`.
pub open spec fn notes_fit(s: Seq<int>) -> bool {
    pairwise_fits(s) && forall|i: int| 0 <= i < s.len() ==> fits(#[trigger] s[i])
}

/// The root raised by octaves until it is above `top`.
pub open spec fn lifted(root: int, top: int) -> int
    decreases (if root > top { 0 } else { top - root + 1 }),
{
    if root > top { root } else { lifted(root + 12, top) }
}

/// The scale of the next inversion: the lowest note moves above the highest.
pub open spec fn inverted_scale(s: Seq<int>) -> Seq<int> {
    s.drop_first().push(lifted(s[0], s.last()))
}

/// The next inversion of the chord `c` on `root`, as (root, intervals).
pub open spec fn inversion(root: int, c: Seq<int>) -> (int, Seq<int>) {
    if c.len() == 0 {
        (root, Seq::empty())
    } else {
        let t = inverted_scale(scale_on(root, c));
        (t[0], chord_of(t))
    }
}

/// Whether every value met while inverting the chord `c` on `root` is a `Note`.
pub open spec fn invertible(root: int, c: Seq<int>) -> bool {
    notes_fit(scale_on(root, c)) && (c.len() > 0 ==> notes_fit(inverted_scale(scale_on(root, c))))
}

/// Whether `n` inversions in a row, from the chord `c` on `root`, stay within `Note`s.
pub open spec fn inversions_fit(root: int, c: Seq<int>, n: nat) -> bool
    decreases n,
{
    n == 0 || (invertible(root, c) && inversions_fit(inversion(root, c).0, inversion(root, c).1, (n - 1) as nat))
}

/// The chord after `n` inversions in a row.
pub open spec fn inverted_n(root: int, c: Seq<int>, n: nat) -> (int, Seq<int>)
    decreases n,
{
    if n == 0 {
        (root, c)
    } else {
        let p = inverted_n(root, c, (n - 1) as nat);
        inversion(p.0, p.1)
    }
}

/// The scale that alternates the first four notes of the chord with the
/// notes between them: the chord's fifth to eighth notes an octave down, or
/// else a whole tone above.
pub open spec fn chordtone_wholetone(s: Seq<int>) -> Seq<int> {
    if s.len() < 4 {
        Seq::empty()
    } else {
        Seq::new(8, |k: int| if k % 2 == 0 { s[k / 2] } else if s.len() > k / 2 + 4 { s[k / 2 + 4] - 12 } else { s[k / 2] + 2 })
    }
}

/// The root reduced modulo an octave (keeping its sign) and the chord normalized.
pub open spec fn normalized_rooted(root: int, c: Seq<int>) -> Seq<int> {
    seq![if root >= 0 { root % 12 } else { -((-root) % 12) }] + normalized_of(c)
}

proof fn lemma_lifted_bounds(root: int, top: int)
    ensures
        lifted(root, top) >= root,
        lifted(root, top) > top,
    decreases (if root > top { 0 } else { top - root + 1 }),
{
    if root <= top {
        lemma_lifted_bounds(root + 12, top);
    }
}

/// The scale `s` after `k` inversions, when it spans less than an octave:
/// its notes from position `k` on, then the first `k` an octave up.
pub open spec fn rotated_up(s: Seq<int>, k: int) -> Seq<int> {
    Seq::new(s.len(), |i: int| if i + k < s.len() { s[i + k] } else { s[i + k - s.len()] + 12 })
}

/// Strictly rising intervals, the lowest above the root, the highest below the octave.
pub open spec fn within_octave(c: Seq<int>) -> bool {
    &&& forall|i: int, j: int| 0 <= i < j < c.len() ==> #[trigger] c[i] < #[trigger] c[j]
    &&& c.len() > 0 ==> 0 < c[0] && c.last() < 12
}

proof fn lemma_rotated_step(s: Seq<int>, k: int)
    requires
        s.len() >= 2,
        forall|i: int, j: int| 0 <= i < j < s.len() ==> #[trigger] s[i] < #[trigger] s[j],
        s.last() < s[0] + 12,
        0 <= k < s.len(),
    ensures
        inverted_scale(rotated_up(s, k)) == rotated_up(s, k + 1),
{
    let t = rotated_up(s, k);
    let n = s.len();
    assert(t[0] == s[k]);
    if k == 0 {
        assert(t.last() == s[n - 1]);
        assert(s[0] < s[n - 1]);
    } else {
        assert(t.last() == s[k - 1] + 12);
        assert(s[k - 1] < s[k]);
    }
    assert(t[0] < t.last() && t.last() < t[0] + 12);
    assert(lifted(t[0] + 12, t.last()) == t[0] + 12);
    assert(lifted(t[0], t.last()) == t[0] + 12);
    assert(inverted_scale(t) =~= rotated_up(s, k + 1));
}

proof fn lemma_inversions_rotate(root: int, c: Seq<int>, k: nat)
    requires
        c.len() > 0,
        within_octave(c),
        k <= c.len() + 1,
    ensures
        scale_on(inverted_n(root, c, k).0, inverted_n(root, c, k).1) == rotated_up(scale_on(root, c), k as int),
        inverted_n(root, c, k).1.len() == c.len(),
    decreases k,
{
    let s = scale_on(root, c);
    if k == 0 {
        assert(rotated_up(s, 0) =~= s);
    } else {
        lemma_inversions_rotate(root, c, (k - 1) as nat);
        let p = inverted_n(root, c, (k - 1) as nat);
        assert forall|i: int, j: int| 0 <= i < j < s.len() implies #[trigger] s[i] < #[trigger] s[j] by {
            if i > 0 {
                assert(c[i - 1] < c[j - 1]);
            } else {
                assert(c[0] <= c[j - 1]);
            }
        }
        assert(s.last() == root + c.last());
        lemma_rotated_step(s, k - 1);
        let u = inverted_scale(scale_on(p.0, p.1));
        assert(u == rotated_up(s, k as int));
        assert(scale_on(u[0], chord_of(u)) =~= u);
    }
}

/// Inverting a chord that lies within an octave as many times as it has
/// notes gives the same chord back, an octave higher.
pub proof fn lemma_inversion_cycle(root: int, c: Seq<int>)
    requires
        within_octave(c),
    ensures
        inverted_n(root, c, (c.len() + 1) as nat).1 == c,
        inverted_n(root, c, (c.len() + 1) as nat).0 == if c.len() == 0 { root } else { root + 12 },
{
    if c.len() == 0 {
        assert(inverted_n(root, c, 0) == (root, c));
        assert(inversion(root, c).1 =~= c);
    } else {
        let n = (c.len() + 1) as nat;
        lemma_inversions_rotate(root, c, n);
        let p = inverted_n(root, c, n);
        let s = scale_on(root, c);
        assert(rotated_up(s, n as int) =~= scale_on(root + 12, c));
        assert(scale_on(p.0, p.1)[0] == p.0);
        assert(p.0 == root + 12);
        assert forall|i: int| 0 <= i < c.len() implies p.1[i] == c[i] by {
            assert(scale_on(p.0, p.1)[i + 1] == scale_on(root + 12, c)[i + 1]);
        }
        assert(p.1 =~= c);
    }
}

proof fn lemma_key_order(ra: int, ca: Seq<int>, rb: int, cb: Seq<int>)
    ensures
        chord_lt(seq![ra] + ca, seq![rb] + cb) == (ca.len() < cb.len() || (ca.len() == cb.len()
            && (ra < rb || (ra == rb && lex_lt(ca, cb))))),
{
    let a = seq![ra] + ca;
    let b = seq![rb] + cb;
    assert(a.drop_first() =~= ca);
    assert(b.drop_first() =~= cb);
    assert(a[0] == ra && b[0] == rb);
}

impl Ranked for RootedChord {
    open spec fn key(&self) -> Seq<int> {
        seq![self.root as int] + self.chord@
    }

    fn less(&self, other: &RootedChord) -> (r: bool) {
        proof {
            lemma_key_order(self.root as int, self.chord@, other.root as int, other.chord@);
        }
        if self.chord.0.len() != other.chord.0.len() {
            return self.chord.0.len() < other.chord.0.len();
        }
        if self.root != other.root {
            return self.root < other.root;
        }
        self.chord.less(&other.chord)
    }
}

impl RootedChord {
    pub fn from_chord(root: Note, chord: Chord) -> (r: RootedChord)
        ensures
            r.root == root,
            r.chord@ == chord@,
    {
        RootedChord { root, chord }
    }

    pub fn from_intervals(root: Note, intervals: &[Note]) -> (r: RootedChord)
        ensures
            r.root == root,
            r.chord@ == ints(intervals@),
    {
        RootedChord { root, chord: Chord::new(intervals) }
    }

    /// The chord on the first note of the scale; an empty scale gives the
    /// empty chord on 0.
    pub fn from_scale(scale: Scale) -> (r: RootedChord)
        requires
            forall|i: int| 0 <= i < chord_of(scale@).len() ==> fits(#[trigger] chord_of(scale@)[i]),
        ensures
            r.root as int == (if scale@.len() == 0 { 0 } else { scale@[0] }),
            r.chord@ == chord_of(scale@),
    {
        if scale.0.len() == 0 {
            let r = RootedChord { root: 0, chord: Chord(Vec::new()) };
            assert(r.chord@ =~= chord_of(scale@));
            r
        } else {
            let root = scale.0[0];
            RootedChord { root, chord: scale.into_chord() }
        }
    }

    /// The root followed by the root plus each interval.
    pub fn to_scale(&self) -> (r: Scale)
        requires
            forall|i: int| 0 <= i < self.chord@.len() ==> fits(self.root + #[trigger] self.chord@[i]),
        ensures
            r@ == scale_on(self.root as int, self.chord@),
    {
        self.chord.to_scale(self.root)
    }

    /// The root reduced modulo an octave, keeping its sign, and the chord normalized.
    pub fn normalized(self) -> (r: RootedChord)
        ensures
            r.key() == normalized_rooted(self.root as int, self.chord@),
    {
        let root: Note = if self.root >= 0 { self.root % OCTAVE } else { -((-(self.root as i64)) % 12) as Note };
        let chord = self.chord.normalized();
        let r = RootedChord { root, chord };
        assert(r.key() =~= normalized_rooted(self.root as int, self.chord@));
        r
    }

    /// Every rooted chord of two notes or more that can be picked out of this
    /// chord's notes, each once, by number of intervals, then root, then
    /// intervals in lexicographic order.
    pub fn to_subseq_chords(&self) -> (r: Vec<RootedChord>)
        requires
            self.chord@.len() < 63,
            notes_fit(scale_on(self.root as int, self.chord@)),
        ensures
            strictly_sorted(keys(r@)),
            forall|y: Seq<int>| keys(r@).contains(y) <==> exists|m: u64|
                m < (1u64 << ((self.chord@.len() + 1) as u64))
                && #[trigger] rooted_sub_of(scale_on(self.root as int, self.chord@), m, y),
    {
        let ghost s = scale_on(self.root as int, self.chord@);
        assert forall|i: int| 0 <= i < self.chord@.len() implies fits(self.root + #[trigger] self.chord@[i]) by {
            assert(fits(s[i + 1]));
        }
        let scale = self.to_scale();
        assert(scale@.len() == scale.0@.len());
        let slen = scale.0.len();
        assert(slen < 64);
        let total: u64 = 1u64 << (slen as u64);
        let mut res: Vec<RootedChord> = Vec::new();
        let mut m: u64 = 0;
        while m < total
            invariant
                s == scale@,
                slen == s.len() <= 64,
                total == 1u64 << (slen as u64),
                m <= total,
                notes_fit(s),
                strictly_sorted(keys(res@)),
                forall|y: Seq<int>| keys(res@).contains(y) <==> exists|m2: u64|
                    m2 < m && #[trigger] rooted_sub_of(s, m2, y),
            decreases total - m,
        {
            let sub = subset(&scale.0, m);
            let ghost sel = select(s, m);
            let ghost before = keys(res@);
            if sub.len() >= 2 {
                let ghost y0 = seq![sel[0]] + chord_of(sel);
                proof {
                    lemma_select_within(s, m);
                    assert forall|i: int| 0 <= i < chord_of(sel).len() implies fits(#[trigger] chord_of(sel)[i]) by {
                        assert(s.contains(sel[i + 1]));
                        assert(s.contains(sel[0]));
                        let a = choose|a: int| 0 <= a < s.len() && s[a] == sel[i + 1];
                        let b = choose|b: int| 0 <= b < s.len() && s[b] == sel[0];
                        assert(fits(s[a] - s[b]));
                    }
                }
                let subroot = sub[0];
                let ch = Scale(sub).into_chord();
                let rc = RootedChord { root: subroot, chord: ch };
                assert(rc.key() =~= y0);
                insert_ranked(&mut res, rc);
                assert forall|y: Seq<int>| keys(res@).contains(y) <==> exists|m2: u64|
                    m2 < m + 1 && #[trigger] rooted_sub_of(s, m2, y) by {
                    if keys(res@).contains(y) && y != y0 {
                        let m2 = choose|m2: u64| m2 < m && #[trigger] rooted_sub_of(s, m2, y);
                        assert(m2 < m + 1 && rooted_sub_of(s, m2, y));
                    }
                    if y == y0 {
                        assert(rooted_sub_of(s, m, y));
                    }
                    if exists|m2: u64| m2 < m + 1 && #[trigger] rooted_sub_of(s, m2, y) {
                        let m2 = choose|m2: u64| m2 < m + 1 && #[trigger] rooted_sub_of(s, m2, y);
                        if m2 < m {
                            assert(before.contains(y));
                        }
                    }
                }
            } else {
                assert forall|y: Seq<int>| keys(res@).contains(y) <==> exists|m2: u64|
                    m2 < m + 1 && #[trigger] rooted_sub_of(s, m2, y) by {
                    if keys(res@).contains(y) {
                        let m2 = choose|m2: u64| m2 < m && #[trigger] rooted_sub_of(s, m2, y);
                        assert(m2 < m + 1 && rooted_sub_of(s, m2, y));
                    }
                    if exists|m2: u64| m2 < m + 1 && #[trigger] rooted_sub_of(s, m2, y) {
                        let m2 = choose|m2: u64| m2 < m + 1 && #[trigger] rooted_sub_of(s, m2, y);
                        assert(m2 != m);
                    }
                }
            }
            m = m + 1;
        }
        assert(m == total);
        res
    }

    pub fn into_subseq_chords(self) -> (r: Vec<RootedChord>)
        requires
            self.chord@.len() < 63,
            notes_fit(scale_on(self.root as int, self.chord@)),
        ensures
            strictly_sorted(keys(r@)),
            forall|y: Seq<int>| keys(r@).contains(y) <==> exists|m: u64|
                m < (1u64 << ((self.chord@.len() + 1) as u64))
                && #[trigger] rooted_sub_of(scale_on(self.root as int, self.chord@), m, y),
    {
        self.to_subseq_chords()
    }

    /// The same chord on the same root, built anew.
    pub fn copy(&self) -> (r: RootedChord)
        ensures
            r.root == self.root,
            r.chord@ == self.chord@,
    {
        RootedChord { root: self.root, chord: Chord::new(self.chord.0.as_slice()) }
    }

    /// The next inversion: the lowest note is raised by octaves above the
    /// highest one and the chord is rebuilt on the note that is now lowest.
    pub fn to_inversion(&self) -> (r: RootedChord)
        requires
            invertible(self.root as int, self.chord@),
        ensures
            (r.root as int, r.chord@) == inversion(self.root as int, self.chord@),
    {
        let ghost s = scale_on(self.root as int, self.chord@);
        if self.chord.0.len() == 0 {
            let r = RootedChord { root: self.root, chord: Chord(Vec::new()) };
            assert(r.chord@ =~= Seq::<int>::empty());
            return r;
        }
        assert forall|i: int| 0 <= i < self.chord@.len() implies fits(self.root + #[trigger] self.chord@[i]) by {
            assert(fits(s[i + 1]));
        }
        let scale = self.to_scale();
        let n = scale.0.len();
        assert(n == s.len());
        let top = scale.0[n - 1];
        let mut root = scale.0[0];
        let ghost target = lifted(s[0], s.last());
        proof {
            lemma_lifted_bounds(s[0], s.last());
            assert(fits(inverted_scale(s)[n - 1]));
        }
        while root <= top
            invariant
                lifted(root as int, top as int) == target,
                fits(target),
                top as int == s.last(),
            decreases (if root > top { 0 } else { top - root + 1 }),
        {
            proof { lemma_lifted_bounds(root + 12, top as int); }
            root = root + OCTAVE;
        }
        let mut v = scale.0;
        v.remove(0);
        v.push(root);
        let t = Scale(v);
        assert(t@ =~= inverted_scale(s));
        RootedChord::from_scale(t)
    }

    /// Each of the chord's successive inversions, as many as it has notes.
    pub fn all_inversions(&self) -> (r: Vec<RootedChord>)
        requires
            self.chord@.len() < usize::MAX,
            inversions_fit(self.root as int, self.chord@, (self.chord@.len() + 1) as nat),
        ensures
            r@.len() == self.chord@.len() + 1,
            forall|k: int| 0 <= k < r@.len() ==> (#[trigger] r@[k].root as int, r@[k].chord@)
                == inverted_n(self.root as int, self.chord@, (k + 1) as nat),
    {
        let len = self.chord.0.len() + 1;
        let mut inv = self.copy();
        let mut res: Vec<RootedChord> = Vec::new();
        let mut k: usize = 0;
        while k < len
            invariant
                len == self.chord@.len() + 1,
                k <= len,
                res@.len() == k,
                (inv.root as int, inv.chord@) == inverted_n(self.root as int, self.chord@, k as nat),
                inversions_fit(inv.root as int, inv.chord@, (len - k) as nat),
                forall|j: int| 0 <= j < k ==> (#[trigger] res@[j].root as int, res@[j].chord@)
                    == inverted_n(self.root as int, self.chord@, (j + 1) as nat),
            decreases len - k,
        {
            inv = inv.to_inversion();
            res.push(inv.copy());
            k = k + 1;
        }
        res
    }

    /// The chord's first four notes, each followed by a note between it and
    /// the next: the note four places up, an octave down, or else a whole tone
    /// above. Empty for a chord of fewer than four notes.
    pub fn to_chordtone_wholetone_scale(&self) -> (r: Scale)
        requires
            notes_fit(scale_on(self.root as int, self.chord@)),
            forall|i: int| 0 <= i < chordtone_wholetone(scale_on(self.root as int, self.chord@)).len()
                ==> fits(#[trigger] chordtone_wholetone(scale_on(self.root as int, self.chord@))[i]),
        ensures
            r@ == chordtone_wholetone(scale_on(self.root as int, self.chord@)),
    {
        let ghost s = scale_on(self.root as int, self.chord@);
        let ghost w = chordtone_wholetone(s);
        assert forall|i: int| 0 <= i < self.chord@.len() implies fits(self.root + #[trigger] self.chord@[i]) by {
            assert(fits(s[i + 1]));
        }
        let scale = self.to_scale();
        let n = scale.0.len();
        let mut res: Vec<Note> = Vec::new();
        if n < 4 {
            assert(ints(res@) =~= w);
            return Scale(res);
        }
        let mut i: usize = 0;
        while i < 4
            invariant
                n == s.len() >= 4,
                scale@ == s,
                i <= 4,
                res@.len() == 2 * i,
                forall|k: int| 0 <= k < chordtone_wholetone(s).len() ==> fits(#[trigger] chordtone_wholetone(s)[k]),
                forall|k: int| 0 <= k < 2 * i ==> res@[k] as int == #[trigger] w[k],
                w == chordtone_wholetone(s),
            decreases 4 - i,
        {
            res.push(scale.0[i]);
            assert(fits(w[2 * i + 1]));
            let between = if n > i + 4 { scale.0[i + 4] - OCTAVE } else { scale.0[i] + MAJOR_SECOND };
            res.push(between);
            i = i + 1;
        }
        assert(ints(res@) =~= w);
        Scale(res)
    }

    /// The name of the chord on the name of its root's pitch class.
    pub fn as_string(&self, lower: bool, styling: ChordStyling) -> (r: String)
        ensures
            r@ == chord_name(
                self.chord@,
                pitch_class_name(pitch_class_of(self.root as int)),
                minor_form(pitch_class_name(pitch_class_of(self.root as int)), lower),
                styling,
            ),
    {
        let root = pitch_class_string(self.root);
        self.chord.quality(root, lower, styling)
    }
}

/// A chord on a root given as an offset in semitones within a scale; the
/// offset may be negative.
#[derive(Clone, Debug, PartialEq, Eq, Hash)]
pub struct RelativeChord {
    pub root: Note,
    pub chord: Chord,
}

/// The placeholder root of a relative chord: `<X+n>`, or `<X-n>` below.
pub open spec fn offset_label(root: int) -> Seq<char> {
    "<X"@ + (if root >= 0 { "+"@ } else { ""@ }) + decimal(root) + ">"@
}

impl RelativeChord {
    /// The chord's name, with its rarer qualities, on a placeholder root that
    /// shows its offset.
    pub fn display_name(&self) -> (r: String)
        ensures
            r@ == chord_name(self.chord@, offset_label(self.root as int),
                minor_form(offset_label(self.root as int), true), ChordStyling::Extended),
    {
        let mut root = String::from_str("<X");
        if self.root >= 0 {
            root.append("+");
        }
        let num = decimal_string(self.root);
        root.append(num.as_str());
        root.append(">");
        proof { reveal_strlit(""); }
        assert(root@ =~= offset_label(self.root as int));
        self.chord.quality(root, true, ChordStyling::Extended)
    }

    pub fn from_chord(root: Note, chord: Chord) -> (r: RelativeChord)
        ensures
            r.root == root,
            r.chord@ == chord@,
    {
        RelativeChord { root, chord }
    }

    pub fn from_intervals(root: Note, intervals: &[Note]) -> (r: RelativeChord)
        ensures
            r.root == root,
            r.chord@ == ints(intervals@),
    {
        RelativeChord { root, chord: Chord::new(intervals) }
    }

    pub fn from_template(semis: Note, intervals: &[Note]) -> (r: RelativeChord)
        ensures
            r.root == semis,
            r.chord@ == ints(intervals@),
    {
        RelativeChord { root: semis, chord: Chord::new(intervals) }
    }

    /// The name of the chord on the Roman numeral of its degree.
    pub fn as_string(&self, lower: bool, styling: ChordStyling) -> (r: String)
        ensures
            r@ == chord_name(
                self.chord@,
                degree_label(self.root as int),
                minor_form(degree_label(self.root as int), lower),
                styling,
            ),
    {
        let root = to_degree(self.root);
        self.chord.quality(root, lower, styling)
    }
}

} // verus!
