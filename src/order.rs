use vstd::prelude::*;
use crate::chord::Chord;

verus! {

/// Lexicographic order on interval sequences; a proper prefix comes first.
pub open spec fn lex_lt(a: Seq<int>, b: Seq<int>) -> bool
    decreases a.len(),
{
    if a.len() == 0 {
        b.len() > 0
    } else if b.len() == 0 {
        false
    } else if a[0] != b[0] {
        a[0] < b[0]
    } else {
        lex_lt(a.drop_first(), b.drop_first())
    }
}

/// Chords ordered by their number of intervals, then lexicographically.
pub open spec fn chord_lt(a: Seq<int>, b: Seq<int>) -> bool {
    a.len() < b.len() || (a.len() == b.len() && lex_lt(a, b))
}

/// A value placed by an integer sequence under `chord_lt`.
pub trait Ranked: Sized {
    spec fn key(&self) -> Seq<int>;

    fn less(&self, other: &Self) -> (r: bool)
        ensures
            r == chord_lt(self.key(), other.key());
}

/// The key of each value of a sequence.
pub open spec fn keys<T: Ranked>(v: Seq<T>) -> Seq<Seq<int>> {
    v.map_values(|c: T| c.key())
}

/// Whether a sequence of chords is in strictly increasing order.
pub open spec fn strictly_sorted(v: Seq<Seq<int>>) -> bool {
    forall|a: int, b: int| 0 <= a < b < v.len() ==> chord_lt(#[trigger] v[a], #[trigger] v[b])
}

pub proof fn lemma_lex_irreflexive(a: Seq<int>)
    ensures
        !lex_lt(a, a),
    decreases a.len(),
{
    if a.len() > 0 {
        lemma_lex_irreflexive(a.drop_first());
    }
}

pub proof fn lemma_lex_transitive(a: Seq<int>, b: Seq<int>, c: Seq<int>)
    requires
        lex_lt(a, b),
        lex_lt(b, c),
    ensures
        lex_lt(a, c),
    decreases a.len(),
{
    if a.len() > 0 && b.len() > 0 && c.len() > 0 && a[0] == b[0] && b[0] == c[0] {
        lemma_lex_transitive(a.drop_first(), b.drop_first(), c.drop_first());
    }
}

pub proof fn lemma_lex_total(a: Seq<int>, b: Seq<int>)
    requires
        a != b,
    ensures
        lex_lt(a, b) || lex_lt(b, a),
    decreases a.len(),
{
    if a.len() > 0 && b.len() > 0 && a[0] == b[0] {
        if a.drop_first() == b.drop_first() {
            assert(a =~= seq![a[0]] + a.drop_first());
            assert(b =~= seq![b[0]] + b.drop_first());
        }
        lemma_lex_total(a.drop_first(), b.drop_first());
    } else if a.len() == 0 && b.len() == 0 {
        assert(a =~= b);
    }
}

pub proof fn lemma_chord_lt_irreflexive(a: Seq<int>)
    ensures
        !chord_lt(a, a),
{
    lemma_lex_irreflexive(a);
}

pub proof fn lemma_chord_lt_transitive(a: Seq<int>, b: Seq<int>, c: Seq<int>)
    requires
        chord_lt(a, b),
        chord_lt(b, c),
    ensures
        chord_lt(a, c),
{
    if a.len() == b.len() && b.len() == c.len() {
        lemma_lex_transitive(a, b, c);
    }
}

pub proof fn lemma_chord_lt_total(a: Seq<int>, b: Seq<int>)
    requires
        a != b,
    ensures
        chord_lt(a, b) || chord_lt(b, a),
{
    lemma_lex_total(a, b);
}

/// A strictly increasing sequence of chords holds no chord twice.
pub proof fn lemma_strictly_sorted_distinct(v: Seq<Seq<int>>)
    requires
        strictly_sorted(v),
    ensures
        forall|a: int, b: int| 0 <= a < v.len() && 0 <= b < v.len() && a != b ==> #[trigger] v[a] != #[trigger] v[b],
{
    assert forall|a: int, b: int| 0 <= a < v.len() && 0 <= b < v.len() && a != b implies #[trigger] v[a] != #[trigger] v[b] by {
        lemma_chord_lt_irreflexive(v[a]);
        if a < b {
            assert(chord_lt(v[a], v[b]));
        } else {
            assert(chord_lt(v[b], v[a]));
        }
    }
}

/// Whether chord `a` comes strictly before chord `b`.
fn chord_less(a: &Chord, b: &Chord) -> (r: bool)
    ensures
        r == chord_lt(a@, b@),
{
    if a.0.len() != b.0.len() {
        return a.0.len() < b.0.len();
    }
    let n = a.0.len();
    let mut i: usize = 0;
    assert(a@.skip(0) =~= a@ && b@.skip(0) =~= b@);
    while i < n
        invariant
            n == a@.len() == b@.len(),
            i <= n,
            lex_lt(a@, b@) == lex_lt(a@.skip(i as int), b@.skip(i as int)),
        decreases n - i,
    {
        assert(a@.skip(i as int)[0] == a@[i as int]);
        assert(b@.skip(i as int)[0] == b@[i as int]);
        if a.0[i] != b.0[i] {
            return a.0[i] < b.0[i];
        }
        assert(a@.skip(i as int).drop_first() =~= a@.skip(i + 1));
        assert(b@.skip(i as int).drop_first() =~= b@.skip(i + 1));
        i = i + 1;
    }
    assert(a@.skip(i as int).len() == 0);
    false
}

impl Ranked for Chord {
    open spec fn key(&self) -> Seq<int> {
        self@
    }

    fn less(&self, other: &Chord) -> (r: bool) {
        chord_less(self, other)
    }
}

/// Puts `x` into a strictly increasing vector of chords, unless it is there already.
pub fn insert_ranked<T: Ranked>(v: &mut Vec<T>, x: T)
    requires
        strictly_sorted(keys(old(v)@)),
    ensures
        strictly_sorted(keys(final(v)@)),
        forall|y: Seq<int>| keys(final(v)@).contains(y) <==> (y == x.key() || keys(old(v)@).contains(y)),
{
    let ghost old_views = keys(v@);
    let mut p: usize = 0;
    while p < v.len() && v[p].less(&x)
        invariant
            p <= v@.len(),
            keys(v@) == old_views,
            strictly_sorted(old_views),
            forall|a: int| 0 <= a < p ==> chord_lt(#[trigger] old_views[a], x.key()),
        decreases v@.len() - p,
    {
        p = p + 1;
    }
    if p < v.len() && !x.less(&v[p]) {
        proof {
            if old_views[p as int] != x.key() {
                lemma_chord_lt_total(old_views[p as int], x.key());
            }
            assert(old_views[p as int] == x.key());
        }
        return;
    }
    let ghost xv = x.key();
    v.insert(p, x);
    let ghost nv = keys(v@);
    assert(nv =~= old_views.insert(p as int, xv));
    assert forall|a: int, b: int| 0 <= a < b < nv.len() implies chord_lt(#[trigger] nv[a], #[trigger] nv[b]) by {
        if b == p {
        } else if a == p {
            assert(chord_lt(xv, old_views[p as int]));
            if b - 1 > p {
                assert(chord_lt(old_views[p as int], old_views[b - 1]));
                lemma_chord_lt_transitive(xv, old_views[p as int], old_views[b - 1]);
            }
        } else if a < p && b > p {
            assert(chord_lt(old_views[a], xv));
            assert(chord_lt(xv, old_views[p as int]));
            lemma_chord_lt_transitive(old_views[a], xv, old_views[p as int]);
            if b - 1 > p {
                assert(chord_lt(old_views[p as int], old_views[b - 1]));
                lemma_chord_lt_transitive(old_views[a], old_views[p as int], old_views[b - 1]);
            }
        } else if a > p {
            assert(chord_lt(old_views[a - 1], old_views[b - 1]));
        } else {
            assert(chord_lt(old_views[a], old_views[b]));
        }
    }
    assert forall|y: Seq<int>| nv.contains(y) <==> (y == xv || old_views.contains(y)) by {
        if nv.contains(y) {
            let k = choose|k: int| 0 <= k < nv.len() && nv[k] == y;
            if k < p {
                assert(old_views[k] == y);
            } else if k > p {
                assert(old_views[k - 1] == y);
            }
        }
        if old_views.contains(y) {
            let k = choose|k: int| 0 <= k < old_views.len() && old_views[k] == y;
            if k < p {
                assert(nv[k] == y);
            } else {
                assert(nv[k + 1] == y);
            }
        }
        if y == xv {
            assert(nv[p as int] == y);
        }
    }
}

} // verus!
