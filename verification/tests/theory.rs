use avril::theory::{Key, Note, PitchClass, Scale};
use avril::theory::PitchClass::{ASharp, B, C, CSharp, D, DSharp, E, FSharp, GSharp};

#[test]
fn test_note() {
    assert_eq!(Note::new(C, 4).semitones, 0);
    assert_eq!(Note::new(C, 5).semitones, 12);
    assert_eq!(Note::new(C, 3).semitones, -12);
    assert_eq!(Note::new(D, 4).semitones, 2);
    assert_eq!(Note::new(D, 3).semitones, -10);
    assert_eq!(Note::new(B, 4).semitones, 11);
    assert_eq!(Note::new(B, 3).semitones, -1);

    assert_eq!(Note::new(D, 4).offset(0), Note::new(D, 4));
    assert_eq!(Note::new(D, 4).offset(1), Note::new(DSharp, 4));
    assert_eq!(Note::new(D, 4).offset(10), Note::new(C, 5));
    assert_eq!(Note::new(D, 4).offset(12), Note::new(D, 5));
    assert_eq!(Note::new(D, 4).offset(-1), Note::new(CSharp, 4));
    assert_eq!(Note::new(D, 4).offset(-3), Note::new(B, 3));
    assert_eq!(Note::new(D, 4).offset(-12), Note::new(D, 3));
}

#[test]
fn test_scale() {
    assert_eq!(
        Scale::major().intervals_ascending(10),
        vec![2, 2, 1, 2, 2, 2, 1, 2, 2, 1]
    );
    assert_eq!(
        Scale::major().intervals_descending(10),
        vec![-1, -2, -2, -2, -1, -2, -2, -1, -2, -2]
    );
}

#[test]
fn test_key() {
    let key = Key::minor(Note::new(GSharp, 3));
    assert_eq!(
        key.notes_ascending(10)
            .iter()
            .map(|nk| nk.note)
            .collect::<Vec<_>>(),
        vec![
            Note::new(GSharp, 3),
            Note::new(ASharp, 3),
            Note::new(B, 3),
            Note::new(CSharp, 4),
            Note::new(DSharp, 4),
            Note::new(E, 4),
            Note::new(FSharp, 4),
            Note::new(GSharp, 4),
            Note::new(ASharp, 4),
            Note::new(B, 4),
        ]
    );
    assert_eq!(
        key.notes_descending(10)
            .iter()
            .map(|nk| nk.note)
            .collect::<Vec<_>>(),
        vec![
            Note::new(GSharp, 3),
            Note::new(FSharp, 3),
            Note::new(E, 3),
            Note::new(DSharp, 3),
            Note::new(CSharp, 3),
            Note::new(B, 2),
            Note::new(ASharp, 2),
            Note::new(GSharp, 2),
            Note::new(FSharp, 2),
            Note::new(E, 2),
        ]
    );
}

#[test]
fn pitch_class_round_trip() {
    for ordinal in -30i64..30 {
        let class = PitchClass::from_ordinal(ordinal);
        assert_eq!(class.ordinal(), ordinal.rem_euclid(12));
    }
    assert_eq!(PitchClass::from_ordinal(13).name(), "C#");
}

#[test]
fn octave_and_pitch_class_split_the_semitones() {
    assert_eq!(Note { semitones: -1 }.octave(), 3);
    assert_eq!(Note { semitones: -1 }.pitch_class(), B);
    assert_eq!(Note { semitones: -12 }.octave(), 3);
    assert_eq!(Note { semitones: -13 }.octave(), 2);
    assert_eq!(Note { semitones: 0 }.octave(), 4);
    assert_eq!(Note { semitones: 11 }.octave(), 4);
    assert_eq!(Note { semitones: 12 }.octave(), 5);
    assert_eq!(Note { semitones: 14 }.pitch_class(), D);
}

#[test]
fn midi_number_of_middle_c_is_sixty() {
    assert_eq!(Note::new(C, 4).midi(), 60);
    assert_eq!(Note::new(C, -1).midi(), 0);
    assert_eq!(Note { semitones: 67 }.midi(), 127);
}

#[test]
fn note_text_is_name_and_octave() {
    assert_eq!(Note::new(CSharp, 4).to_text(), "C#4");
    assert_eq!(Note::new(B, -1).to_text(), "B-1");
}

#[test]
fn at_walks_the_scale_both_ways() {
    let key = Key::pentatonic(Note::new(D, 4));
    assert_eq!(key.at(0).note(), Note::new(D, 4));
    assert_eq!(key.at(1).note(), Note::new(FSharp, 4));
    assert_eq!(key.at(5).note(), Note::new(D, 5));
    assert_eq!(key.at(7).note(), Note::new(PitchClass::G, 5));
    assert_eq!(key.at(-1).note(), Note::new(CSharp, 4));
    assert_eq!(key.at(-5).note(), Note::new(D, 3));
    assert_eq!(key.at(-10).note(), Note::new(D, 2));
    assert_eq!(key.at(-10).scale_steps_from_tonic(), -10);
    assert_eq!(key.at(-10).to_text(), "D2");
}

#[test]
fn note_in_key_offset_counts_from_the_note() {
    let key = Key::major(Note::new(C, 4));
    let third = key.at(2);
    assert_eq!(third.note(), Note::new(E, 4));
    assert_eq!(third.offset(2).note(), Note::new(PitchClass::G, 4));
    assert_eq!(third.offset(-3).note(), Note::new(B, 3));
    assert_eq!(third.offset(-3).scale_steps_from_tonic(), -1);
}

#[test]
fn offset_tonic_moves_the_key() {
    let key = Key::major(Note::new(C, 4)).offset_tonic(4);
    assert_eq!(key.tonic, Note::new(PitchClass::G, 4));
    assert_eq!(key.scale(), &Scale::major());
    assert_eq!(key.scale().num_intervals(), 7);
}

#[test]
fn scales_add_up_to_an_octave() {
    for scale in [Scale::major(), Scale::minor(), Scale::pentatonic()] {
        assert_eq!(scale.intervals.iter().sum::<i64>(), 12);
    }
    assert_eq!(Scale::from_intervals(vec![12]).intervals_ascending(3), vec![12, 12, 12]);
}
