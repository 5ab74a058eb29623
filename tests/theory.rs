use music_gen::chord::{Chord, ChordStyling};
use music_gen::rooted::{RootedChord, RelativeChord};
use music_gen::scale::{Scale, Steps, mode_of_scale};
use music_gen::harmony::{scale_chords, rooted_scale_chords, strs_scale_chords_roman, strs_scale_chords};
use music_gen::interval::{
    interval_chord_extension, to_degree, to_relative_interval_non_nat, pitch_class, TWELVETH,
    PERFECT_FIFTH, MAJOR_THIRD, MINOR_THIRD, OCTAVE,
};
use music_gen::roman::to_roman_num;
use music_gen::scales::{get_all_scale_objs, ionian, harmonic_minor, miscellaneous_scales};

fn chords(v: &[Chord]) -> Vec<Vec<i32>> {
    v.iter().map(|c| c.0.clone()).collect()
}

#[test]
fn extended_only_entries_need_extended_styling() {
    let mu = Chord::new(&[2, 4, 7]);
    assert_eq!(mu.as_string(ChordStyling::Std), "X[♮2♮3♮5]");
    assert_eq!(mu.as_string(ChordStyling::Extended), "Xμ");
    assert_eq!(Chord::new(&[2, 5]).as_string(ChordStyling::Extended), "Xssus");
    assert_eq!(Chord::new(&[4, 6]).as_string(ChordStyling::Std), "X[♮3♭5]");
}

#[test]
fn spelled_out_ignores_the_table() {
    assert_eq!(Chord::new(&[4, 7]).as_string(ChordStyling::SpelledOut), "X[♮3♮5]");
    assert_eq!(Chord::new(&[]).as_string(ChordStyling::SpelledOut), "X[]");
}

#[test]
fn prefix_match_with_extensions() {
    assert_eq!(Chord::new(&[4, 7, 10, 14]).as_string(ChordStyling::Std), "X⁷(♮9)");
    assert_eq!(Chord::new(&[3, 7, 10, 17]).as_string(ChordStyling::Std), "x-(♮11)");
    // an extension without a symbol leaves no parentheses
    assert_eq!(Chord::new(&[4, 7, 12]).as_string(ChordStyling::Std), "X");
}

#[test]
fn minor_form_without_lowercase() {
    let c = Chord::new(&[3, 7]);
    assert_eq!(c.quality(String::from("D"), false, ChordStyling::Std), "Dm");
    assert_eq!(c.quality(String::from("D"), true, ChordStyling::Std), "d");
    // each character is lowercased on its own: a closing capital sigma stays a plain sigma
    assert_eq!(c.quality(String::from("XΣ"), true, ChordStyling::Std), "xσ");
    assert_eq!(c.quality(String::from("IV"), true, ChordStyling::Std), "iv");
    assert_eq!(c.quality_with_minor(String::from("D"), String::from("dd"), ChordStyling::Std), "dd");
}

#[test]
fn normalized_folds_and_drops_octaves() {
    let c = Chord::new(&[4, TWELVETH, 26, OCTAVE]).normalized();
    assert_eq!(c.0, vec![4, 14, PERFECT_FIFTH]);
    let again = Chord::new(&c.0).normalized();
    assert_eq!(again.0, c.0);
    // two octaves fold to one, which is then left out; larger ones fold by octaves
    assert_eq!(Chord::new(&[24]).normalized().0, Vec::<i32>::new());
    assert_eq!(Chord::new(&[40, 35, 36, 31]).normalized().0, vec![16, 23]);
    let d = Chord::new(&[-30, 40, 24]).normalized();
    assert_eq!(d.0, vec![-30, 16]);
    assert_eq!(Chord::new(&d.0).normalized().0, d.0);
}

#[test]
fn same_and_has_intervals() {
    let c = Chord::new(&[MAJOR_THIRD, PERFECT_FIFTH]);
    assert!(c.same_intervals(&[4, 7]));
    assert!(!c.same_intervals(&[4]));
    assert!(c.has_intervals(&[7]));
    assert!(!c.has_intervals(&[7, MINOR_THIRD]));
}

#[test]
fn steps_scale_round_trip() {
    let steps = Steps(ionian::steps());
    let scale = steps.into_scale(3);
    assert_eq!(scale.0, vec![3, 5, 7, 8, 10, 12, 14, 15]);
    let back = scale.to_steps();
    assert_eq!(back.0[..7].to_vec(), ionian::steps());
    let mut open = steps.into_scale(0);
    open.0.pop();
    assert_eq!(open.to_steps().0, ionian::steps());
}

#[test]
fn modes_rotate_steps() {
    assert_eq!(mode_of_scale(Steps(ionian::steps()), 0).0, ionian::steps());
    assert_eq!(mode_of_scale(Steps(ionian::steps()), 1).0, vec![2, 1, 2, 2, 2, 1, 2]);
    assert_eq!(mode_of_scale(Steps(ionian::steps()), 8).0, vec![2, 1, 2, 2, 2, 1, 2]);
}

#[test]
fn scale_into_chord() {
    assert_eq!(Scale(vec![5, 9, 12]).into_chord().0, vec![4, 7]);
    assert_eq!(Scale(vec![5]).into_chord().0, Vec::<i32>::new());
    assert_eq!(Chord::new(&[4, 7]).to_scale(2).0, vec![2, 6, 9]);
}

#[test]
fn sub_chords_of_a_triad() {
    let subs = Chord::new(&[4, 7]).to_subseq_chords();
    assert_eq!(chords(&subs), vec![vec![3], vec![4], vec![7], vec![4, 7]]);
    // repeated notes give each sub-chord once
    let subs = Chord::new(&[0, 0]).into_subseq_chords();
    assert_eq!(chords(&subs), vec![vec![0], vec![0, 0]]);
}

#[test]
fn rooted_sub_chords() {
    let subs = RootedChord::from_intervals(2, &[4, 7]).to_subseq_chords();
    let got: Vec<(i32, Vec<i32>)> = subs.iter().map(|r| (r.root, r.chord.0.clone())).collect();
    assert_eq!(got, vec![(2, vec![4]), (2, vec![7]), (6, vec![3]), (2, vec![4, 7])]);
}

#[test]
fn inversions_cycle() {
    let invs = RootedChord::from_intervals(0, &[4, 7]).all_inversions();
    let got: Vec<(i32, Vec<i32>)> = invs.iter().map(|r| (r.root, r.chord.0.clone())).collect();
    assert_eq!(got, vec![(4, vec![3, 8]), (7, vec![5, 9]), (12, vec![4, 7])]);
    // a note an octave up is passed, not met
    let octave = RootedChord::from_intervals(0, &[12]).to_inversion();
    assert_eq!((octave.root, octave.chord.0), (12, vec![12]));
    let single = RootedChord::from_intervals(5, &[]).to_inversion();
    assert_eq!((single.root, single.chord.0), (5, vec![]));
}

#[test]
fn rooted_from_scale() {
    let r = RootedChord::from_scale(Scale(vec![]));
    assert_eq!((r.root, r.chord.0), (0, vec![]));
    let r = RootedChord::from_scale(Scale(vec![7]));
    assert_eq!((r.root, r.chord.0), (7, vec![]));
    let r = RootedChord::from_scale(Scale(vec![7, 11, 14]));
    assert_eq!((r.root, r.chord.0.clone()), (7, vec![4, 7]));
    assert_eq!(r.to_scale().0, vec![7, 11, 14]);
}

#[test]
fn chordtone_wholetone() {
    let r = RootedChord::from_intervals(0, &[4, 7, 11]);
    assert_eq!(r.to_chordtone_wholetone_scale().0, vec![0, 2, 4, 6, 7, 9, 11, 13]);
    let r = RootedChord::from_intervals(0, &[4, 7, 11, 14]);
    assert_eq!(r.to_chordtone_wholetone_scale().0, vec![0, 2, 4, 6, 7, 9, 11, 13]);
    assert!(RootedChord::from_intervals(0, &[4, 7]).to_chordtone_wholetone_scale().0.is_empty());
}

#[test]
fn rooted_and_relative_names() {
    let a = RootedChord::from_intervals(9, &[3, 7]);
    assert_eq!(a.as_string(true, ChordStyling::Std), "a");
    assert_eq!(a.as_string(false, ChordStyling::Std), "Am");
    assert_eq!(RootedChord::from_intervals(-11, &[4, 7, 10]).as_string(true, ChordStyling::Std), "C#⁷");
    assert_eq!(RelativeChord::from_template(7, &[4, 7, 10]).as_string(true, ChordStyling::Std), "V⁷");
    assert_eq!(RelativeChord::from_intervals(2, &[3, 7]).as_string(true, ChordStyling::Std), "ii");
    assert_eq!(RelativeChord::from_chord(14, Chord::new(&[4, 7])).as_string(true, ChordStyling::Std), "[outofrange]");
}

#[test]
fn diatonic_triads_in_roman_numerals() {
    let names = strs_scale_chords_roman(&Steps(ionian::steps()), 3, ChordStyling::Std);
    assert_eq!(names, vec!["I", "ii", "iii", "IV", "V", "vi", "vii°"]);
    let sevenths = strs_scale_chords_roman(&Steps(ionian::steps()), 4, ChordStyling::Std);
    assert_eq!(sevenths, vec!["I∆", "ii-", "iii-", "IV∆", "V⁷", "vi-", "viiø"]);
}

#[test]
fn diatonic_triads_on_a_tonic() {
    let names = strs_scale_chords(&Steps(harmonic_minor::steps()), 9, 3, ChordStyling::Std);
    assert_eq!(names, vec!["a", "b°", "C+", "d", "E", "F", "g#°"]);
    let rc = rooted_scale_chords(&Steps(ionian::steps()), 0, 3);
    assert_eq!((rc[6].root, rc[6].chord.0.clone()), (11, vec![3, 6]));
    let cs = scale_chords(&Steps(ionian::steps()), 3);
    assert_eq!(cs[1].0, vec![3, 7]);
    assert_eq!(cs.len(), 7);
}

#[test]
fn interval_labels() {
    assert_eq!(interval_chord_extension(0), "R");
    assert_eq!(interval_chord_extension(4), "♮3");
    assert_eq!(interval_chord_extension(12), "");
    assert_eq!(interval_chord_extension(22), "♯13");
    assert_eq!(interval_chord_extension(30), "");
    assert_eq!(to_degree(10), "bVII");
    assert_eq!(to_degree(12), "[outofrange]");
    assert_eq!(to_degree(-1), "[outofrange]");
    assert_eq!(to_relative_interval_non_nat(-2), "♭♭");
    assert_eq!(to_relative_interval_non_nat(0), "♮");
    assert_eq!(to_relative_interval_non_nat(3), "♯♯♯");
    assert_eq!(RelativeChord::from_template(i32::MIN, &[4, 7]).display_name(), "<X-2147483648>");
    assert_eq!(RelativeChord::from_template(105, &[4, 7]).display_name(), "<X+105>");
    assert_eq!(pitch_class(-1), 11);
    assert_eq!(pitch_class(25), 1);
}

#[test]
fn roman_numerals() {
    assert_eq!(to_roman_num(1), "I");
    assert_eq!(to_roman_num(4), "IV");
    assert_eq!(to_roman_num(9), "IX");
    assert_eq!(to_roman_num(14), "XIV");
    assert_eq!(to_roman_num(1994), "MCMXCIV");
    assert_eq!(to_roman_num(0), "");
}

#[test]
fn scale_catalogue() {
    let all = get_all_scale_objs();
    assert_eq!(all.len(), 3);
    assert_eq!(all[0].family_name(), "Ionian");
    assert_eq!(all[0].get_mode_name(1), "Dorian");
    assert_eq!(all[0].get_mode_name(8), "Dorian");
    let extra = music_gen::scales::ScaleObj {
        steps: vec![6, 6],
        fam_name: String::from("Tritones"),
        modes: vec![String::from("First"), String::new(), String::from("Spare")],
    };
    assert_eq!(extra.get_mode_name(1), "unnamed");
    assert_eq!(extra.get_mode_name(2), "First");
    assert_eq!(all[1].get_mode_name(4), "Phrygian Dominant");
    assert_eq!(all[2].clone_steps(), vec![2, 2, 1, 2, 1, 3, 1]);
    assert_eq!(miscellaneous_scales::chromatic_scale_steps().len(), 12);
    assert_eq!(miscellaneous_scales::satie_scale_steps().iter().sum::<i32>(), 12);
    assert_eq!(miscellaneous_scales::greek_dorian_chromatic_steps().iter().sum::<i32>(), 12);
    assert_eq!(miscellaneous_scales::greek_dorian_steps().len(), 7);
}

#[test]
fn names_on_one_line() {
    let cs = vec![Chord::new(&[4, 7]), Chord::new(&[3, 7]), Chord::new(&[3, 6])];
    assert_eq!(music_gen::chord::chord_names_line(&cs, ", ", ChordStyling::Std), "X, x, x°");
    assert_eq!(music_gen::chord::chord_names_line(&[], ", ", ChordStyling::Std), "");
}

#[test]
fn sub_chords_of_a_scale() {
    // fewer than three notes give nothing
    assert!(music_gen::harmony::scale_subseq_chords(Scale(vec![0, 4])).is_empty());
    let subs = music_gen::harmony::scale_subseq_chords(Scale(vec![0, 4, 7]));
    let got: Vec<(i32, Vec<i32>)> = subs.iter().map(|r| (r.root, r.chord.0.clone())).collect();
    assert_eq!(got[0], (0, vec![4]));
    assert!(got.contains(&(7, vec![5, 9])));
    assert!(got.contains(&(4, vec![3, 8])));
    for w in got.windows(2) {
        assert!((w[0].1.len(), w[0].0, &w[0].1) < (w[1].1.len(), w[1].0, &w[1].1));
    }
}

#[test]
fn sub_chords_by_degree() {
    let cells = music_gen::harmony::steps_subseq_chords(Steps(vec![4, 3, 5]));
    assert_eq!(cells.len(), 3);
    assert!(cells[0].iter().any(|c| c.0 == vec![4, 7]));
    assert!(cells[1].iter().any(|c| c.0 == vec![3, 8]));
    assert!(cells[2].iter().any(|c| c.0 == vec![5, 9]));
}

#[test]
fn mode_description() {
    let m = music_gen::scales::ModeObj {
        steps: ionian::steps(),
        fam_name: String::from("Ionian"),
        mode_name: String::from("Dorian"),
    };
    assert_eq!(m.describe(), "Dorian, mode of Ionian");
}

#[test]
fn relative_chord_display_name() {
    assert_eq!(RelativeChord::from_template(3, &[4, 6]).display_name(), "<X+3>°");
    assert_eq!(RelativeChord::from_template(-12, &[3, 7]).display_name(), "<x-12>");
    assert_eq!(RelativeChord::from_template(0, &[4, 7, 11, 14]).display_name(), "<X+0>∆(♮9)");
}
