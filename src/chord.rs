use vstd::prelude::*;
use vstd::string::*;
use crate::interval::{
    Note, extension_label, interval_chord_extension, MAJOR_THIRD, MINOR_THIRD, PERFECT_FIFTH,
    AUGMENTED_FIFTH, DIMINISHED_FIFTH, MAJOR_SECOND, PERFECT_FOURTH, MINOR_SECOND, AUGMENTED_FOURTH,
    MAJOR_SIXTH, MAJOR_SEVENTH, MINOR_SEVENTH, DIMINISHED_SEVENTH, NINETH,
};
use crate::scale::{ints, fits, chord_of, Scale};
use crate::order::{keys, strictly_sorted, insert_ranked, lemma_strictly_sorted_distinct};

verus! {

/// A set of intervals above an implicit root, in order.
#[derive(Clone, Debug, Default, PartialEq, Eq, PartialOrd, Ord, Hash)]
pub struct Chord(pub Vec<Note>);

impl View for Chord {
    type V = Seq<int>;

    open spec fn view(&self) -> Seq<int> {
        ints(self.0@)
    }
}

/// How a chord is named: with the common names only, with the rarer ones too,
/// or always as a list of its intervals.
#[derive(Clone, Copy, Debug, PartialEq, Eq, Structural)]
pub enum ChordStyling {
    Std,
    Extended,
    SpelledOut,
}

/// Number of entries in the table of chord qualities.
pub const BOOK_LEN: usize = 23;

/// The table of chord qualities, in the order in which it is searched:
/// (interval pattern, name suffix, named on the major base, rare entry).
pub open spec fn book(i: int) -> (Seq<i32>, Seq<char>, bool, bool) {
    if i == 0 { (seq![MAJOR_THIRD, PERFECT_FIFTH], ""@, true, false) }
    else if i == 1 { (seq![MINOR_THIRD, PERFECT_FIFTH], ""@, false, false) }
    else if i == 2 { (seq![MINOR_THIRD, AUGMENTED_FIFTH], "+"@, false, true) }
    else if i == 3 { (seq![MAJOR_THIRD, AUGMENTED_FIFTH], "+"@, true, false) }
    else if i == 4 { (seq![MINOR_THIRD, DIMINISHED_FIFTH], "°"@, false, false) }
    else if i == 5 { (seq![MAJOR_THIRD, DIMINISHED_FIFTH], "°"@, true, true) }
    else if i == 6 { (seq![MAJOR_SECOND, PERFECT_FOURTH], "ssus"@, true, true) }
    else if i == 7 { (seq![MINOR_SECOND, PERFECT_FIFTH], "phry"@, true, false) }
    else if i == 8 { (seq![AUGMENTED_FOURTH, PERFECT_FIFTH], "lyd"@, true, false) }
    else if i == 9 { (seq![MINOR_SECOND, DIMINISHED_FIFTH], "loc2"@, true, false) }
    else if i == 10 { (seq![PERFECT_FOURTH, DIMINISHED_FIFTH], "loc4"@, true, false) }
    else if i == 11 { (seq![MINOR_SECOND, PERFECT_FOURTH, DIMINISHED_FIFTH], "o"@, true, true) }
    else if i == 12 { (seq![MAJOR_THIRD, PERFECT_FIFTH, MAJOR_SIXTH], "⁶"@, true, false) }
    else if i == 13 { (seq![MINOR_THIRD, PERFECT_FIFTH, MAJOR_SIXTH], "⁶"@, false, false) }
    else if i == 14 { (seq![MAJOR_THIRD, PERFECT_FIFTH, MAJOR_SEVENTH], "∆"@, true, false) }
    else if i == 15 { (seq![MINOR_THIRD, PERFECT_FIFTH, MINOR_SEVENTH], "-"@, false, false) }
    else if i == 16 { (seq![MAJOR_THIRD, PERFECT_FIFTH, MINOR_SEVENTH], "⁷"@, true, false) }
    else if i == 17 { (seq![MINOR_THIRD, PERFECT_FIFTH, MAJOR_SEVENTH], "-∆"@, true, false) }
    else if i == 18 { (seq![MINOR_THIRD, DIMINISHED_FIFTH, MINOR_SEVENTH], "ø"@, false, false) }
    else if i == 19 { (seq![MINOR_THIRD, DIMINISHED_FIFTH, DIMINISHED_SEVENTH], "°⁷"@, false, false) }
    else if i == 20 { (seq![MAJOR_THIRD, AUGMENTED_FIFTH, MINOR_SEVENTH], "+⁷"@, true, false) }
    else if i == 21 { (seq![MAJOR_SECOND, MAJOR_THIRD, PERFECT_FIFTH], "μ"@, true, true) }
    else { (seq![MAJOR_THIRD, PERFECT_FIFTH, MAJOR_SIXTH, NINETH], "6/9"@, true, false) }
}

pub open spec fn pattern(i: int) -> Seq<int> {
    ints(book(i).0)
}

/// Whether entry `i` of the table may be used under `style`.
pub open spec fn allowed(i: int, style: ChordStyling) -> bool {
    !(book(i).3 && style == ChordStyling::Std)
}

/// Entry `i` of the table, with its pattern as a vector.
pub fn book_entry(i: usize) -> (r: (Vec<Note>, &'static str, bool, bool))
    requires
        i < BOOK_LEN,
    ensures
        r.0@ == book(i as int).0,
        r.1@ == book(i as int).1,
        r.2 == book(i as int).2,
        r.3 == book(i as int).3,
        r.0@.len() >= 2,
{
    match i {
        0 => (vec![MAJOR_THIRD, PERFECT_FIFTH], "", true, false),
        1 => (vec![MINOR_THIRD, PERFECT_FIFTH], "", false, false),
        2 => (vec![MINOR_THIRD, AUGMENTED_FIFTH], "+", false, true),
        3 => (vec![MAJOR_THIRD, AUGMENTED_FIFTH], "+", true, false),
        4 => (vec![MINOR_THIRD, DIMINISHED_FIFTH], "°", false, false),
        5 => (vec![MAJOR_THIRD, DIMINISHED_FIFTH], "°", true, true),
        6 => (vec![MAJOR_SECOND, PERFECT_FOURTH], "ssus", true, true),
        7 => (vec![MINOR_SECOND, PERFECT_FIFTH], "phry", true, false),
        8 => (vec![AUGMENTED_FOURTH, PERFECT_FIFTH], "lyd", true, false),
        9 => (vec![MINOR_SECOND, DIMINISHED_FIFTH], "loc2", true, false),
        10 => (vec![PERFECT_FOURTH, DIMINISHED_FIFTH], "loc4", true, false),
        11 => (vec![MINOR_SECOND, PERFECT_FOURTH, DIMINISHED_FIFTH], "o", true, true),
        12 => (vec![MAJOR_THIRD, PERFECT_FIFTH, MAJOR_SIXTH], "⁶", true, false),
        13 => (vec![MINOR_THIRD, PERFECT_FIFTH, MAJOR_SIXTH], "⁶", false, false),
        14 => (vec![MAJOR_THIRD, PERFECT_FIFTH, MAJOR_SEVENTH], "∆", true, false),
        15 => (vec![MINOR_THIRD, PERFECT_FIFTH, MINOR_SEVENTH], "-", false, false),
        16 => (vec![MAJOR_THIRD, PERFECT_FIFTH, MINOR_SEVENTH], "⁷", true, false),
        17 => (vec![MINOR_THIRD, PERFECT_FIFTH, MAJOR_SEVENTH], "-∆", true, false),
        18 => (vec![MINOR_THIRD, DIMINISHED_FIFTH, MINOR_SEVENTH], "ø", false, false),
        19 => (vec![MINOR_THIRD, DIMINISHED_FIFTH, DIMINISHED_SEVENTH], "°⁷", false, false),
        20 => (vec![MAJOR_THIRD, AUGMENTED_FIFTH, MINOR_SEVENTH], "+⁷", true, false),
        21 => (vec![MAJOR_SECOND, MAJOR_THIRD, PERFECT_FIFTH], "μ", true, true),
        _ => (vec![MAJOR_THIRD, PERFECT_FIFTH, MAJOR_SIXTH, NINETH], "6/9", true, false),
    }
}

/// The degree symbols of a run of intervals, one after the other.
pub open spec fn labels(s: Seq<int>) -> Seq<char>
    decreases s.len(),
{
    if s.len() == 0 {
        Seq::empty()
    } else {
        labels(s.drop_last()) + extension_label(s.last())
    }
}

/// The intervals left over after a named base, in parentheses; nothing when
/// none of them has a symbol.
pub open spec fn extension_list(rest: Seq<int>) -> Seq<char> {
    if labels(rest).len() == 0 {
        Seq::empty()
    } else {
        "("@ + labels(rest) + ")"@
    }
}

/// A chord spelled out as the list of its intervals.
pub open spec fn spelled_name(c: Seq<int>, base: Seq<char>) -> Seq<char> {
    base + "["@ + labels(c) + "]"@
}

/// How well one interval of a chord stands for the interval `b` of a pattern:
/// exactly, as a second or a fourth in place of a third, or not at all.
pub open spec fn position_score(b: int, s: int) -> int {
    if s == b {
        10
    } else if s == 2 && (b == 3 || b == 4) {
        2
    } else if s == 5 && (b == 3 || b == 4) {
        4
    } else {
        0
    }
}

/// The worst position score of a pattern against the start of a chord.
pub open spec fn sus_score(p: Seq<int>, c: Seq<int>) -> int
    decreases p.len(),
{
    if p.len() == 0 {
        10
    } else {
        let prev = sus_score(p.drop_last(), c);
        let here = position_score(p.last(), c[p.len() - 1]);
        if here < prev { here } else { prev }
    }
}

/// Entry `i` is the chord itself.
pub open spec fn exact_hit(c: Seq<int>, i: int, style: ChordStyling) -> bool {
    0 <= i < BOOK_LEN && allowed(i, style) && pattern(i) == c
}

/// Entry `i` is a proper prefix of the chord.
pub open spec fn prefix_hit(c: Seq<int>, i: int, style: ChordStyling) -> bool {
    0 <= i < BOOK_LEN && allowed(i, style) && pattern(i).len() < c.len()
        && c.take(pattern(i).len() as int) == pattern(i)
}

/// Entry `i` matches the start of the chord with a suspended third.
pub open spec fn sus_hit(c: Seq<int>, i: int, style: ChordStyling) -> bool {
    0 <= i < BOOK_LEN && allowed(i, style) && pattern(i).len() <= c.len()
        && sus_score(pattern(i), c) != 0 && sus_score(pattern(i), c) != 10
}

/// The first exact match among the first `k` entries.
pub open spec fn first_exact(c: Seq<int>, i: int, style: ChordStyling) -> bool {
    exact_hit(c, i, style) && forall|j: int| 0 <= j < i ==> !#[trigger] exact_hit(c, j, style)
}

/// Among the prefix matches of index below `k`, entry `i` is the longest,
/// the first one among equals.
pub open spec fn best_prefix_below(c: Seq<int>, i: int, style: ChordStyling, k: int) -> bool {
    i < k && prefix_hit(c, i, style) && forall|j: int| 0 <= j < k && #[trigger] prefix_hit(c, j, style)
        ==> pattern(j).len() < pattern(i).len() || (pattern(j).len() == pattern(i).len() && i <= j)
}

/// Among the suspension matches of index below `k`, entry `i` is the longest,
/// the first one among equals.
pub open spec fn best_sus_below(c: Seq<int>, i: int, style: ChordStyling, k: int) -> bool {
    i < k && sus_hit(c, i, style) && forall|j: int| 0 <= j < k && #[trigger] sus_hit(c, j, style)
        ==> pattern(j).len() < pattern(i).len() || (pattern(j).len() == pattern(i).len() && i <= j)
}

/// The base name used for an entry: the root's name, or its minor form.
pub open spec fn base_for(major: bool, base: Seq<char>, minor: Seq<char>) -> Seq<char> {
    if major { base } else { minor }
}

/// The name of the chord with intervals `c`, on the root name `base`, whose
/// minor form is `minor`.
pub open spec fn chord_name(c: Seq<int>, base: Seq<char>, minor: Seq<char>, style: ChordStyling) -> Seq<char> {
    if style == ChordStyling::SpelledOut {
        spelled_name(c, base)
    } else if exists|i: int| first_exact(c, i, style) {
        let i = choose|i: int| first_exact(c, i, style);
        base_for(book(i).2, base, minor) + book(i).1
    } else if exists|i: int| best_prefix_below(c, i, style, BOOK_LEN as int) {
        let i = choose|i: int| best_prefix_below(c, i, style, BOOK_LEN as int);
        base_for(book(i).2, base, minor) + book(i).1 + extension_list(c.skip(pattern(i).len() as int))
    } else if exists|i: int| best_sus_below(c, i, style, BOOK_LEN as int) {
        let i = choose|i: int| best_sus_below(c, i, style, BOOK_LEN as int);
        base + book(i).1 + "sus"@ + (if sus_score(pattern(i), c) == 2 { "2"@ } else { "4"@ })
            + extension_list(c.skip(pattern(i).len() as int))
    } else {
        spelled_name(c, base)
    }
}

/// The symbols of the intervals `c[from..]`, one after the other.
fn labels_from(c: &Vec<Note>, from: usize) -> (r: String)
    requires
        from <= c@.len(),
    ensures
        r@ == labels(ints(c@).skip(from as int)),
{
    let mut res = String::new();
    let mut k: usize = from;
    while k < c.len()
        invariant
            from <= k <= c@.len(),
            res@ == labels(ints(c@).subrange(from as int, k as int)),
        decreases c@.len() - k,
    {
        let lab = interval_chord_extension(c[k]);
        res.append(lab.as_str());
        assert(ints(c@).subrange(from as int, k + 1).drop_last() =~= ints(c@).subrange(from as int, k as int));
        k = k + 1;
    }
    assert(ints(c@).subrange(from as int, k as int) =~= ints(c@).skip(from as int));
    res
}

/// `name` followed by the extension list of `c[from..]`.
fn with_extensions(name: String, c: &Vec<Note>, from: usize) -> (r: String)
    requires
        from <= c@.len(),
    ensures
        r@ == name@ + extension_list(ints(c@).skip(from as int)),
{
    let lab = labels_from(c, from);
    if lab.as_str().unicode_len() == 0 {
        assert(name@ + extension_list(ints(c@).skip(from as int)) =~= name@);
        name
    } else {
        let mut r = name;
        r.append("(");
        r.append(lab.as_str());
        r.append(")");
        assert(r@ =~= name@ + extension_list(ints(c@).skip(from as int)));
        r
    }
}

fn spelled_out(c: &Vec<Note>, base: String) -> (r: String)
    ensures
        r@ == spelled_name(ints(c@), base@),
{
    let mut r = base;
    r.append("[");
    let lab = labels_from(c, 0);
    r.append(lab.as_str());
    r.append("]");
    assert(ints(c@).skip(0) =~= ints(c@));
    r
}

/// Whether two interval sequences are the same.
fn same_notes(a: &Vec<Note>, b: &Vec<Note>) -> (r: bool)
    ensures
        r == (ints(a@) == ints(b@)),
{
    if a.len() != b.len() {
        assert(ints(a@).len() != ints(b@).len());
        return false;
    }
    let mut i: usize = 0;
    while i < a.len()
        invariant
            a@.len() == b@.len(),
            i <= a@.len(),
            forall|j: int| 0 <= j < i ==> a@[j] == b@[j],
        decreases a@.len() - i,
    {
        if a[i] != b[i] {
            assert(ints(a@)[i as int] != ints(b@)[i as int]);
            return false;
        }
        i = i + 1;
    }
    assert(ints(a@) =~= ints(b@));
    true
}

/// Whether `p` is a prefix of `c`.
fn starts_with(c: &Vec<Note>, p: &Vec<Note>) -> (r: bool)
    ensures
        r == (p@.len() <= c@.len() && ints(c@).take(p@.len() as int) == ints(p@)),
{
    if p.len() > c.len() {
        return false;
    }
    let mut i: usize = 0;
    while i < p.len()
        invariant
            p@.len() <= c@.len(),
            i <= p@.len(),
            forall|j: int| 0 <= j < i ==> c@[j] == p@[j],
        decreases p@.len() - i,
    {
        if c[i] != p[i] {
            assert(ints(c@).take(p@.len() as int)[i as int] != ints(p@)[i as int]);
            return false;
        }
        i = i + 1;
    }
    assert(ints(c@).take(p@.len() as int) =~= ints(p@));
    true
}

/// The suspension score of the pattern `p` against the start of `c`.
fn score_against(p: &Vec<Note>, c: &Vec<Note>) -> (r: i32)
    requires
        p@.len() <= c@.len(),
    ensures
        r as int == sus_score(ints(p@), ints(c@)),
{
    let mut res: i32 = 10;
    let mut k: usize = 0;
    while k < p.len()
        invariant
            p@.len() <= c@.len(),
            k <= p@.len(),
            res as int == sus_score(ints(p@).take(k as int), ints(c@)),
        decreases p@.len() - k,
    {
        let b = p[k];
        let s = c[k];
        let here: i32 = if s == b {
            10
        } else if s == MAJOR_SECOND && (b == MINOR_THIRD || b == MAJOR_THIRD) {
            2
        } else if s == PERFECT_FOURTH && (b == MINOR_THIRD || b == MAJOR_THIRD) {
            4
        } else {
            0
        };
        assert(ints(p@).take(k + 1).drop_last() =~= ints(p@).take(k as int));
        if here < res {
            res = here;
        }
        k = k + 1;
    }
    assert(ints(p@).take(k as int) =~= ints(p@));
    res
}

/// No two entries of the table have the same pattern.
pub proof fn lemma_book_patterns_distinct(i: int, j: int)
    requires
        0 <= j < i < BOOK_LEN,
    ensures
        pattern(i) != pattern(j),
{
    let a = book(i).0;
    let b = book(j).0;
    assert(a.len() != b.len() || a[0] != b[0] || a[1] != b[1] || (a.len() > 2 && a[2] != b[2]));
    if pattern(i) == pattern(j) {
        assert(pattern(i).len() == a.len() && pattern(j).len() == b.len());
        assert(a.len() == b.len());
        assert(pattern(i)[0] == pattern(j)[0]);
        assert(pattern(i)[1] == pattern(j)[1]);
        if a.len() > 2 {
            assert(pattern(i)[2] == pattern(j)[2]);
        }
    }
}

/// Every entry of the table, under a styling that admits it, is named by its
/// own suffix on the major or the minor base it asks for.
pub proof fn lemma_book_entry_names(i: int, base: Seq<char>, minor: Seq<char>, style: ChordStyling)
    requires
        0 <= i < BOOK_LEN,
        allowed(i, style),
        style != ChordStyling::SpelledOut,
    ensures
        chord_name(pattern(i), base, minor, style) == base_for(book(i).2, base, minor) + book(i).1,
{
    let c = pattern(i);
    assert forall|j: int| 0 <= j < i implies !#[trigger] exact_hit(c, j, style) by {
        lemma_book_patterns_distinct(i, j);
    }
    assert(first_exact(c, i, style));
    let k = choose|k: int| first_exact(c, k, style);
    if k < i {
        assert(!exact_hit(c, k, style));
    } else if k > i {
        assert(!exact_hit(c, i, style));
    }
}

/// Under the common styling, each rare entry of the table is spelled out.
pub proof fn lemma_rare_entries_spelled(i: int, base: Seq<char>, minor: Seq<char>)
    requires
        0 <= i < BOOK_LEN,
        book(i).3,
    ensures
        chord_name(pattern(i), base, minor, ChordStyling::Std) == spelled_name(pattern(i), base),
{
    let c = pattern(i);
    let style = ChordStyling::Std;
    assert forall|j: int| !#[trigger] exact_hit(c, j, style) by {
        if 0 <= j < BOOK_LEN && j != i {
            if j < i { lemma_book_patterns_distinct(i, j); } else { lemma_book_patterns_distinct(j, i); }
        }
    }
    assert forall|j: int| !#[trigger] prefix_hit(c, j, style) by {
        if 0 <= j < BOOK_LEN && pattern(j).len() < c.len() {
            assert(c.take(pattern(j).len() as int)[0] == c[0]);
            assert(c.take(pattern(j).len() as int)[1] == c[1]);
            assert(c.take(pattern(j).len() as int) != pattern(j));
        }
    }
    assert forall|j: int| !#[trigger] sus_hit(c, j, style) by {
        if 0 <= j < BOOK_LEN && allowed(j, style) && pattern(j).len() <= c.len() {
            let p = pattern(j);
            reveal_with_fuel(sus_score, 4);
            assert(p.drop_last().drop_last().drop_last().len() == 0 || p.len() <= 2);
            assert(sus_score(p, c) == 0 || sus_score(p, c) == 10);
        }
    }
    assert(!exists|k: int| first_exact(c, k, style));
    assert(!exists|k: int| best_prefix_below(c, k, style, BOOK_LEN as int));
    assert(!exists|k: int| best_sus_below(c, k, style, BOOK_LEN as int));
}

/// What `char::to_lowercase` makes of one character.
pub uninterp spec fn lower_char_of(c: char) -> Seq<char>;

/// Relies on `char::to_lowercase`: the lowercase form of one character,
/// which depends on that character alone.
#[verifier::external_body]
fn lower_char(c: char) -> (r: String)
    ensures
        r@ == lower_char_of(c),
{
    c.to_lowercase().collect()
}

/// Each character of `s` in lowercase, one after the other.
pub open spec fn lower_of(s: Seq<char>) -> Seq<char>
    decreases s.len(),
{
    if s.len() == 0 {
        Seq::empty()
    } else {
        lower_of(s.drop_last()) + lower_char_of(s.last())
    }
}

/// The string lowercased character by character.
fn lowercase(s: &str) -> (r: String)
    ensures
        r@ == lower_of(s@),
{
    let n = s.unicode_len();
    let mut res = String::new();
    let mut i: usize = 0;
    while i < n
        invariant
            n == s@.len(),
            i <= n,
            res@ == lower_of(s@.take(i as int)),
        decreases n - i,
    {
        let c = s.get_char(i);
        let l = lower_char(c);
        res.append(l.as_str());
        assert(s@.take(i + 1).drop_last() =~= s@.take(i as int));
        i = i + 1;
    }
    assert(s@.take(n as int) =~= s@);
    res
}

/// The minor form of a root name: lowercase, or followed by `m`.
pub open spec fn minor_form(base: Seq<char>, lower: bool) -> Seq<char> {
    if lower { lower_of(base) } else { base + "m"@ }
}

/// An interval of two octaves or more folded down by octaves until it is
/// below two octaves; a smaller one is left as it is.
pub open spec fn fold_down(x: int) -> int {
    if x >= 24 { 12 + x % 12 } else { x }
}

/// Whether an interval survives normalization: neither an octave nor a twelfth.
pub open spec fn kept(x: int) -> bool {
    x != 12 && x != 19
}

/// Each interval folded below two octaves, the octaves and twelfths left out.
pub open spec fn folded(s: Seq<int>) -> Seq<int>
    decreases s.len(),
{
    if s.len() == 0 {
        Seq::empty()
    } else {
        let x = fold_down(s.last());
        folded(s.drop_last()) + (if kept(x) { seq![x] } else { Seq::empty() })
    }
}

/// A chord with a twelfth and no fifth gains a fifth (at the end) before folding.
pub open spec fn normalized_of(c: Seq<int>) -> Seq<int> {
    if c.contains(19) && !c.contains(7) {
        folded(c.push(7))
    } else {
        folded(c)
    }
}

/// Whether every interval lies below two octaves and none is an octave or a twelfth.
pub open spec fn is_folded(s: Seq<int>) -> bool {
    forall|i: int| 0 <= i < s.len() ==> #[trigger] s[i] < 24 && kept(s[i])
}

/// Whether every interval is at least `lo`.
pub open spec fn all_at_least(s: Seq<int>, lo: int) -> bool {
    forall|i: int| 0 <= i < s.len() ==> #[trigger] s[i] >= lo
}

proof fn lemma_folded_is_folded(s: Seq<int>)
    ensures
        is_folded(folded(s)),
        all_at_least(s, 1) ==> all_at_least(folded(s), 1),
    decreases s.len(),
{
    if s.len() > 0 {
        if all_at_least(s, 1) {
            assert(all_at_least(s.drop_last(), 1));
            assert(s.last() >= 1);
        }
        lemma_folded_is_folded(s.drop_last());
        let x = fold_down(s.last());
        assert(x < 24);
    }
}

proof fn lemma_folded_fixed(s: Seq<int>)
    requires
        is_folded(s),
    ensures
        folded(s) == s,
    decreases s.len(),
{
    if s.len() > 0 {
        assert(is_folded(s.drop_last()));
        lemma_folded_fixed(s.drop_last());
        let y = s.last();
        assert(y < 24 && fold_down(y) == y);
        assert(s.drop_last().push(y) =~= s);
    }
}

/// Normalizing twice is the same as normalizing once.
pub proof fn lemma_normalized_idempotent(c: Seq<int>)
    ensures
        normalized_of(normalized_of(c)) == normalized_of(c),
{
    let n = normalized_of(c);
    if c.contains(19) && !c.contains(7) {
        lemma_folded_is_folded(c.push(7));
    } else {
        lemma_folded_is_folded(c);
    }
    assert(!n.contains(19));
    lemma_folded_fixed(n);
}

/// Whether bit `j` of the mask `m` is set.
pub open spec fn bit_set(m: u64, j: int) -> bool {
    ((m >> (j as u64)) & 1u64) == 1u64
}

/// The notes of `s` whose positions are set in the mask `m`, in order.
pub open spec fn select(s: Seq<int>, m: u64) -> Seq<int>
    decreases s.len(),
{
    if s.len() == 0 {
        Seq::empty()
    } else {
        select(s.drop_last(), m) + (if bit_set(m, s.len() - 1) { seq![s.last()] } else { Seq::empty() })
    }
}

/// `y` is the chord of at least two notes that mask `m` picks out of `s`.
pub open spec fn sub_chord_of(s: Seq<int>, m: u64, y: Seq<int>) -> bool {
    select(s, m).len() >= 2 && y == chord_of(select(s, m))
}

/// Every difference of two notes of `s` is a `Note`.
pub open spec fn pairwise_fits(s: Seq<int>) -> bool {
    forall|i: int, j: int| 0 <= i < s.len() && 0 <= j < s.len() ==> fits(#[trigger] s[i] - #[trigger] s[j])
}

/// The root and each interval of `c` above it.
pub open spec fn scale_on(root: int, c: Seq<int>) -> Seq<int> {
    seq![root] + Seq::new(c.len(), |i: int| root + c[i])
}

pub(crate) proof fn lemma_select_within(s: Seq<int>, m: u64)
    ensures
        forall|i: int| 0 <= i < select(s, m).len() ==> s.contains(#[trigger] select(s, m)[i]),
    decreases s.len(),
{
    if s.len() > 0 {
        lemma_select_within(s.drop_last(), m);
        assert forall|i: int| 0 <= i < select(s, m).len() implies s.contains(#[trigger] select(s, m)[i]) by {
            if i < select(s.drop_last(), m).len() {
                let x = select(s.drop_last(), m)[i];
                let k = choose|k: int| 0 <= k < s.drop_last().len() && s.drop_last()[k] == x;
                assert(s[k] == x);
            } else {
                assert(s[s.len() - 1] == s.last());
            }
        }
    }
}

/// The notes of `s` picked out by the mask `m`.
pub(crate) fn subset(s: &Vec<Note>, m: u64) -> (r: Vec<Note>)
    requires
        s@.len() <= 64,
    ensures
        ints(r@) == select(ints(s@), m),
{
    let mut r: Vec<Note> = Vec::new();
    let mut j: usize = 0;
    while j < s.len()
        invariant
            s@.len() <= 64,
            j <= s@.len(),
            ints(r@) == select(ints(s@).take(j as int), m),
        decreases s@.len() - j,
    {
        assert(ints(s@).take(j + 1).drop_last() =~= ints(s@).take(j as int));
        if (m >> (j as u64)) & 1u64 == 1u64 {
            r.push(s[j]);
            assert(ints(r@) =~= select(ints(s@).take(j as int), m) + seq![s@[j as int] as int]);
        } else {
            assert(select(ints(s@).take(j + 1), m) =~= select(ints(s@).take(j as int), m));
        }
        j = j + 1;
    }
    assert(ints(s@).take(j as int) =~= ints(s@));
    r
}

/// Whether the vector holds `x`.
fn holds(v: &Vec<Note>, x: Note) -> (r: bool)
    ensures
        r == ints(v@).contains(x as int),
{
    let mut i: usize = 0;
    while i < v.len()
        invariant
            i <= v@.len(),
            forall|j: int| 0 <= j < i ==> v@[j] != x,
        decreases v@.len() - i,
    {
        if v[i] == x {
            assert(ints(v@)[i as int] == x as int);
            return true;
        }
        i = i + 1;
    }
    assert(!ints(v@).contains(x as int)) by {
        if ints(v@).contains(x as int) {
            let k = choose|k: int| 0 <= k < ints(v@).len() && ints(v@)[k] == x as int;
            assert(v@[k] == x);
        }
    }
    false
}

impl Chord {
    pub fn same_intervals(&self, blueprint: &[Note]) -> (r: bool)
        ensures
            r == (self@ == ints(blueprint@)),
    {
        let b = Chord::new(blueprint);
        same_notes(&self.0, &b.0)
    }

    pub fn has_intervals(&self, blueprint: &[Note]) -> (r: bool)
        ensures
            r == forall|i: int| 0 <= i < blueprint@.len() ==> self@.contains(#[trigger] blueprint@[i] as int),
    {
        let mut i: usize = 0;
        while i < blueprint.len()
            invariant
                i <= blueprint@.len(),
                forall|j: int| 0 <= j < i ==> self@.contains(#[trigger] blueprint@[j] as int),
            decreases blueprint@.len() - i,
        {
            if !holds(&self.0, blueprint[i]) {
                return false;
            }
            i = i + 1;
        }
        true
    }

    /// Folds every interval of two octaves or more down by octaves below two
    /// octaves, adds a fifth where there is a twelfth and no fifth, and leaves
    /// out the octaves and twelfths.
    pub fn normalized(self) -> (r: Chord)
        ensures
            r@ == normalized_of(self@),
            forall|j: int| 0 <= j < r@.len() ==> #[trigger] r@[j] < 24 && r@[j] != 12 && r@[j] != 19,
            all_at_least(self@, 1) ==> forall|j: int| 0 <= j < r@.len() ==> 1 <= #[trigger] r@[j] < 24,
    {
        let ghost c0 = self@;
        proof {
            lemma_folded_is_folded(c0);
            lemma_folded_is_folded(c0.push(7));
            if all_at_least(c0, 1) {
                assert(all_at_least(c0.push(7), 1)) by {
                    assert forall|i: int| 0 <= i < c0.push(7).len() implies #[trigger] c0.push(7)[i] >= 1 by {
                        if i < c0.len() { assert(c0.push(7)[i] == c0[i]); }
                    }
                }
            }
        }
        let mut v = self.0;
        let ghost c = ints(v@);
        if holds(&v, 19) && !holds(&v, 7) {
            v.push(7);
            assert(ints(v@) =~= c.push(7));
        }
        let ghost src = ints(v@);
        assert(src == (if c.contains(19) && !c.contains(7) { c.push(7) } else { c }));
        let mut res: Vec<Note> = Vec::new();
        let mut k: usize = 0;
        while k < v.len()
            invariant
                k <= v@.len(),
                src == ints(v@),
                ints(res@) == folded(src.take(k as int)),
            decreases v@.len() - k,
        {
            let x = v[k];
            let y: Note = if x >= 24 { 12 + x % 12 } else { x };
            assert(src.take(k + 1).drop_last() =~= src.take(k as int));
            if y != 12 && y != 19 {
                res.push(y);
                assert(ints(res@) =~= folded(src.take(k as int)) + seq![y as int]);
            } else {
                assert(folded(src.take(k + 1)) =~= folded(src.take(k as int)));
            }
            k = k + 1;
        }
        assert(src.take(k as int) =~= src);
        Chord(res)
    }

    /// Every chord of two notes or more that can be picked out of this
    /// chord's notes (the root included), each once, by number of intervals
    /// and then in lexicographic order.
    pub fn to_subseq_chords(&self) -> (r: Vec<Chord>)
        requires
            self@.len() < 63,
            pairwise_fits(scale_on(0, self@)),
        ensures
            strictly_sorted(keys(r@)),
            forall|y: Seq<int>| keys(r@).contains(y) <==> exists|m: u64|
                m < (1u64 << ((self@.len() + 1) as u64)) && #[trigger] sub_chord_of(scale_on(0, self@), m, y),
            forall|a: int, b: int| 0 <= a < r@.len() && 0 <= b < r@.len() && a != b ==> #[trigger] r@[a]@ != #[trigger] r@[b]@,
            forall|k: int| 0 <= k < r@.len() ==> (#[trigger] r@[k]@).len() >= 1,
    {
        let ghost s = scale_on(0, self@);
        let scale = self.to_scale(0);
        assert(scale@ =~= s);
        let slen = scale.0.len();
        assert(scale@.len() == scale.0@.len());
        assert(s.len() == self@.len() + 1);
        assert(slen < 64);
        let total: u64 = 1u64 << (slen as u64);
        let mut res: Vec<Chord> = Vec::new();
        let mut m: u64 = 0;
        while m < total
            invariant
                s == scale@,
                slen == s.len() <= 64,
                total == 1u64 << (slen as u64),
                m <= total,
                pairwise_fits(s),
                strictly_sorted(keys(res@)),
                forall|y: Seq<int>| keys(res@).contains(y) <==> exists|m2: u64|
                    m2 < m && #[trigger] sub_chord_of(s, m2, y),
            decreases total - m,
        {
            let sub = subset(&scale.0, m);
            let ghost sel = select(s, m);
            let ghost before = keys(res@);
            if sub.len() >= 2 {
                proof {
                    lemma_select_within(s, m);
                    assert forall|i: int| 0 <= i < chord_of(sel).len() implies fits(#[trigger] chord_of(sel)[i]) by {
                        assert(s.contains(sel[i + 1]));
                        assert(s.contains(sel[0]));
                        let a = choose|a: int| 0 <= a < s.len() && s[a] == sel[i + 1];
                        let b = choose|b: int| 0 <= b < s.len() && s[b] == sel[0];
                        assert(fits(s[a] - s[b]));
                    }
                }
                let ch = Scale(sub).into_chord();
                insert_ranked(&mut res, ch);
                assert forall|y: Seq<int>| keys(res@).contains(y) <==> exists|m2: u64|
                    m2 < m + 1 && #[trigger] sub_chord_of(s, m2, y) by {
                    if keys(res@).contains(y) && y != chord_of(sel) {
                        let m2 = choose|m2: u64| m2 < m && #[trigger] sub_chord_of(s, m2, y);
                        assert(m2 < m + 1 && sub_chord_of(s, m2, y));
                    }
                    if y == chord_of(sel) {
                        assert(sub_chord_of(s, m, y));
                    }
                    if exists|m2: u64| m2 < m + 1 && #[trigger] sub_chord_of(s, m2, y) {
                        let m2 = choose|m2: u64| m2 < m + 1 && #[trigger] sub_chord_of(s, m2, y);
                        if m2 < m {
                            assert(before.contains(y));
                        }
                    }
                }
            } else {
                assert forall|y: Seq<int>| keys(res@).contains(y) <==> exists|m2: u64|
                    m2 < m + 1 && #[trigger] sub_chord_of(s, m2, y) by {
                    if keys(res@).contains(y) {
                        let m2 = choose|m2: u64| m2 < m && #[trigger] sub_chord_of(s, m2, y);
                        assert(m2 < m + 1 && sub_chord_of(s, m2, y));
                    }
                    if exists|m2: u64| m2 < m + 1 && #[trigger] sub_chord_of(s, m2, y) {
                        let m2 = choose|m2: u64| m2 < m + 1 && #[trigger] sub_chord_of(s, m2, y);
                        assert(m2 != m);
                    }
                }
            }
            m = m + 1;
        }
        assert(m == total);
        proof {
            lemma_strictly_sorted_distinct(keys(res@));
            assert forall|a: int, b: int| 0 <= a < res@.len() && 0 <= b < res@.len() && a != b
                implies #[trigger] res@[a]@ != #[trigger] res@[b]@ by {
                assert(keys(res@)[a] != keys(res@)[b]);
            }
            assert forall|k: int| 0 <= k < res@.len() implies (#[trigger] res@[k]@).len() >= 1 by {
                assert(keys(res@).contains(keys(res@)[k]));
                let m2 = choose|m2: u64| m2 < m && #[trigger] sub_chord_of(s, m2, keys(res@)[k]);
            }
        }
        res
    }

    pub fn into_subseq_chords(self) -> (r: Vec<Chord>)
        requires
            self@.len() < 63,
            pairwise_fits(scale_on(0, self@)),
        ensures
            strictly_sorted(keys(r@)),
            forall|y: Seq<int>| keys(r@).contains(y) <==> exists|m: u64|
                m < (1u64 << ((self@.len() + 1) as u64)) && #[trigger] sub_chord_of(scale_on(0, self@), m, y),
    {
        self.to_subseq_chords()
    }

    /// The scale on `root` made of the root and each interval above it.
    pub fn to_scale(&self, root: Note) -> (r: Scale)
        requires
            forall|i: int| 0 <= i < self@.len() ==> fits(root + #[trigger] self@[i]),
        ensures
            r@ == scale_on(root as int, self@),
    {
        let mut v: Vec<Note> = Vec::new();
        v.push(root);
        let mut k: usize = 0;
        while k < self.0.len()
            invariant
                k <= self@.len(),
                forall|i: int| 0 <= i < self@.len() ==> fits(root + #[trigger] self@[i]),
                v@.len() == k + 1,
                v@[0] == root,
                forall|j: int| 0 <= j < k ==> v@[j + 1] as int == root + #[trigger] self@[j],
            decreases self@.len() - k,
        {
            assert(fits(root + self@[k as int]));
            v.push(root + self.0[k]);
            k = k + 1;
        }
        assert(ints(v@) =~= seq![root as int] + Seq::new(self@.len(), |i: int| root + self@[i]));
        Scale(v)
    }

    pub fn new(intervals: &[Note]) -> (r: Chord)
        ensures
            r@ == ints(intervals@),
    {
        let mut v: Vec<Note> = Vec::new();
        let mut i: usize = 0;
        while i < intervals.len()
            invariant
                i <= intervals@.len(),
                v@ == intervals@.take(i as int),
            decreases intervals@.len() - i,
        {
            v.push(intervals[i]);
            i = i + 1;
            assert(v@ =~= intervals@.take(i as int));
        }
        assert(v@ =~= intervals@);
        Chord(v)
    }

    /// The name of this chord on the root name `basestr`, where `minorstr` is
    /// the form of the root name used for minor qualities.
    pub fn quality_with_minor(&self, basestr: String, minorstr: String, style: ChordStyling) -> (r: String)
        ensures
            r@ == chord_name(self@, basestr@, minorstr@, style),
    {
        let ghost c = self@;
        let std_only = match style {
            ChordStyling::SpelledOut => {
                return spelled_out(&self.0, basestr);
            },
            ChordStyling::Std => true,
            ChordStyling::Extended => false,
        };
        // An entry that is the chord itself.
        let mut i: usize = 0;
        while i < BOOK_LEN
            invariant
                i <= BOOK_LEN,
                c == self@,
                std_only == (style == ChordStyling::Std),
                style != ChordStyling::SpelledOut,
                forall|j: int| 0 <= j < i ==> !#[trigger] exact_hit(c, j, style),
            decreases BOOK_LEN - i,
        {
            let (p, suffix, major, ext) = book_entry(i);
            let same = same_notes(&p, &self.0);
            if !(ext && std_only) && same {
                assert(first_exact(c, i as int, style));
                proof {
                    let k = choose|k: int| first_exact(c, k, style);
                    assert(first_exact(c, k, style));
                    if k < i {
                        assert(!exact_hit(c, k, style));
                    } else if k > i {
                        assert(!exact_hit(c, i as int, style));
                    }
                    assert(k == i);
                    assert(chord_name(c, basestr@, minorstr@, style)
                        == base_for(book(i as int).2, basestr@, minorstr@) + book(i as int).1);
                }
                let mut name = if major { basestr } else { minorstr };
                name.append(suffix);
                return name;
            }
            assert(!exact_hit(c, i as int, style));
            i = i + 1;
        }
        assert(!exists|i: int| first_exact(c, i, style));
        // The longest entry that is a proper prefix of the chord.
        let mut best: usize = BOOK_LEN;
        let mut bestlen: usize = 0;
        let mut i: usize = 0;
        while i < BOOK_LEN
            invariant
                i <= BOOK_LEN,
                c == self@,
                std_only == (style == ChordStyling::Std),
                style != ChordStyling::SpelledOut,
                best <= BOOK_LEN,
                best == BOOK_LEN ==> bestlen == 0 && forall|j: int| 0 <= j < i ==> !#[trigger] prefix_hit(c, j, style),
                best < BOOK_LEN ==> bestlen == pattern(best as int).len() && best_prefix_below(c, best as int, style, i as int),
            decreases BOOK_LEN - i,
        {
            let (p, _suffix, _major, ext) = book_entry(i);
            let starts = starts_with(&self.0, &p);
            let hit = !(ext && std_only) && p.len() < self.0.len() && starts;
            assert(hit == prefix_hit(c, i as int, style));
            let ghost old_best = best;
            let ghost old_len = bestlen;
            if hit && p.len() > bestlen {
                best = i;
                bestlen = p.len();
            }
            assert forall|j: int| 0 <= j < i + 1 && #[trigger] prefix_hit(c, j, style) implies
                best < BOOK_LEN && (pattern(j).len() < pattern(best as int).len()
                || (pattern(j).len() == pattern(best as int).len() && best <= j)) by {
                if j < i && old_best < BOOK_LEN {
                    assert(best_prefix_below(c, old_best as int, style, i as int));
                    assert(pattern(j).len() < pattern(old_best as int).len()
                        || (pattern(j).len() == pattern(old_best as int).len() && old_best <= j));
                    assert(old_len == pattern(old_best as int).len());
                    if best != old_best {
                        assert(best == i);
                        assert(pattern(i as int).len() > old_len);
                    }
                } else if j < i {
                    assert(!prefix_hit(c, j, style));
                } else {
                    assert(j == i);
                }
            }
            i = i + 1;
        }
        if best < BOOK_LEN {
            let (_p, suffix, major, _ext) = book_entry(best);
            let mut name = if major { basestr } else { minorstr };
            name.append(suffix);
            return with_extensions(name, &self.0, bestlen);
        }
        assert(!exists|i: int| best_prefix_below(c, i, style, BOOK_LEN as int));
        // The longest entry that the chord meets with a suspended third.
        let mut best: usize = BOOK_LEN;
        let mut bestlen: usize = 0;
        let mut bestscore: i32 = 0;
        let mut i: usize = 0;
        while i < BOOK_LEN
            invariant
                i <= BOOK_LEN,
                c == self@,
                std_only == (style == ChordStyling::Std),
                style != ChordStyling::SpelledOut,
                best <= BOOK_LEN,
                best == BOOK_LEN ==> bestlen == 0 && forall|j: int| 0 <= j < i ==> !#[trigger] sus_hit(c, j, style),
                best < BOOK_LEN ==> bestlen == pattern(best as int).len() && best_sus_below(c, best as int, style, i as int)
                    && bestscore == sus_score(pattern(best as int), c),
            decreases BOOK_LEN - i,
        {
            let (p, _suffix, _major, ext) = book_entry(i);
            let ghost old_best = best;
            let ghost old_len = bestlen;
            if !(ext && std_only) && p.len() <= self.0.len() {
                let score = score_against(&p, &self.0);
                assert((score != 0 && score != 10) == sus_hit(c, i as int, style));
                if score != 0 && score != 10 && p.len() > bestlen {
                    best = i;
                    bestlen = p.len();
                    bestscore = score;
                }
            } else {
                assert(!sus_hit(c, i as int, style));
            }
            assert forall|j: int| 0 <= j < i + 1 && #[trigger] sus_hit(c, j, style) implies
                best < BOOK_LEN && (pattern(j).len() < pattern(best as int).len()
                || (pattern(j).len() == pattern(best as int).len() && best <= j)) by {
                if j < i && old_best < BOOK_LEN {
                    assert(best_sus_below(c, old_best as int, style, i as int));
                    assert(pattern(j).len() < pattern(old_best as int).len()
                        || (pattern(j).len() == pattern(old_best as int).len() && old_best <= j));
                    assert(old_len == pattern(old_best as int).len());
                    if best != old_best {
                        assert(best == i);
                        assert(pattern(i as int).len() > old_len);
                    }
                } else if j < i {
                    assert(!sus_hit(c, j, style));
                } else {
                    assert(j == i);
                }
            }
            i = i + 1;
        }
        if best < BOOK_LEN {
            let (_p, suffix, _major, _ext) = book_entry(best);
            let mut name = basestr;
            name.append(suffix);
            name.append("sus");
            name.append(if bestscore == 2 { "2" } else { "4" });
            return with_extensions(name, &self.0, bestlen);
        }
        spelled_out(&self.0, basestr)
    }

    /// The name of this chord on the root name `basestr`; minor qualities use
    /// its lowercase form when `lower` holds, else the name followed by `m`.
    pub fn quality(&self, basestr: String, lower: bool, style: ChordStyling) -> (r: String)
        ensures
            r@ == chord_name(self@, basestr@, minor_form(basestr@, lower), style),
    {
        let minorstr = if lower {
            lowercase(basestr.as_str())
        } else {
            let mut m = basestr.clone();
            m.append("m");
            m
        };
        self.quality_with_minor(basestr, minorstr, style)
    }

    /// The name of this chord on the root `X`.
    pub fn as_string(&self, styling: ChordStyling) -> (r: String)
        ensures
            r@ == chord_name(self@, "X"@, lower_of("X"@), styling),
    {
        self.quality(String::from_str("X"), true, styling)
    }
}

/// The names of the chords on the root `X`, separated by `sep`.
pub open spec fn joined_names(cs: Seq<Seq<int>>, sep: Seq<char>, style: ChordStyling) -> Seq<char>
    decreases cs.len(),
{
    if cs.len() == 0 {
        Seq::empty()
    } else if cs.len() == 1 {
        chord_name(cs[0], "X"@, lower_of("X"@), style)
    } else {
        joined_names(cs.drop_last(), sep, style) + sep + chord_name(cs.last(), "X"@, lower_of("X"@), style)
    }
}

/// The names of the chords, on the root `X`, on one line separated by `sep`.
pub fn chord_names_line(chords: &[Chord], sep: &str, styling: ChordStyling) -> (r: String)
    ensures
        r@ == joined_names(chords@.map_values(|c: Chord| c@), sep@, styling),
{
    let ghost cs = chords@.map_values(|c: Chord| c@);
    let mut res = String::new();
    let mut i: usize = 0;
    while i < chords.len()
        invariant
            i <= chords@.len(),
            cs == chords@.map_values(|c: Chord| c@),
            res@ == joined_names(cs.take(i as int), sep@, styling),
        decreases chords@.len() - i,
    {
        let name = chords[i].as_string(styling);
        assert(cs.take(i + 1).drop_last() =~= cs.take(i as int));
        assert(cs.take(i + 1).last() == chords@[i as int]@);
        if i > 0 {
            res.append(sep);
        }
        res.append(name.as_str());
        i = i + 1;
    }
    assert(cs.take(i as int) =~= cs);
    res
}

} // verus!
