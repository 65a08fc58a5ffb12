use avril::midi::{encode_raw, Channel, Message, MessageExt, RawMessage};
use avril::stream::Stream;
use midi::ToRawMessages;
use avril::theory::{Note, PitchClass};
use avril::var::Var;
use avril::voice::{active_sensing, play, swap_pitch};

#[test]
fn encode_sets_the_status_bit() {
    assert_eq!(Message::ActiveSensing.encode(), vec![0xfe]);
    assert_eq!(Message::AllSoundOff(Channel::Ch2).encode(), vec![0xb1, 120, 0]);
    assert_eq!(Message::NoteOn(Channel::Ch1, 60, 0x40).encode(), vec![0x90, 60, 0x40]);
    assert_eq!(Message::NoteOff(Channel::Ch16, 61, 0x40).encode(), vec![0x8f, 61, 0x40]);
    assert_eq!(Message::ProgramChange(Channel::Ch10, 5).encode(), vec![0xc9, 5]);
}

#[test]
fn encode_masks_data_to_seven_bits() {
    assert_eq!(Message::NoteOn(Channel::Ch1, 0xff, 0x80).encode(), vec![0x90, 0x7f, 0]);
    assert_eq!(Message::ProgramChange(Channel::Ch1, 0x81).encode(), vec![0xc0, 1]);
}

#[test]
fn encode_agrees_with_the_midi_crate() {
    let channels = [
        (Channel::Ch1, midi::Ch1),
        (Channel::Ch2, midi::Ch2),
        (Channel::Ch3, midi::Ch3),
        (Channel::Ch4, midi::Ch4),
        (Channel::Ch5, midi::Ch5),
        (Channel::Ch6, midi::Ch6),
        (Channel::Ch7, midi::Ch7),
        (Channel::Ch8, midi::Ch8),
        (Channel::Ch9, midi::Ch9),
        (Channel::Ch10, midi::Ch10),
        (Channel::Ch11, midi::Ch11),
        (Channel::Ch12, midi::Ch12),
        (Channel::Ch13, midi::Ch13),
        (Channel::Ch14, midi::Ch14),
        (Channel::Ch15, midi::Ch15),
        (Channel::Ch16, midi::Ch16),
    ];
    for (index, (ours, theirs)) in channels.iter().enumerate() {
        assert_eq!(ours.index() as usize, index);
        let raw = midi::Message::NoteOn(*theirs, 64, 100).to_raw_messages();
        assert_eq!(raw, vec![midi::RawMessage::StatusDataData(0x90 + index as u8, 64, 100)]);
        assert_eq!(
            Message::NoteOn(*ours, 64, 100).encode(),
            vec![0x90 + index as u8, 64, 100]
        );
    }
}

#[test]
fn encode_raw_frames_each_kind() {
    let raws = vec![
        RawMessage::Status(0x7e),
        RawMessage::StatusData(0x40, 1),
        RawMessage::StatusDataData(0x10, 2, 3),
        RawMessage::Raw(0x55),
    ];
    assert_eq!(
        encode_raw(&raws),
        vec![0xfe, 0xc0, 1, 0x90, 2, 3, 0x55]
    );
    assert_eq!(encode_raw(&Vec::new()), Vec::<u8>::new());
}

#[test]
fn swap_pitch_ends_the_old_note_and_starts_the_new() {
    let c = Note::new(PitchClass::C, 4);
    let d = Note::new(PitchClass::D, 4);
    assert_eq!(swap_pitch(None, None, Channel::Ch1), vec![]);
    assert_eq!(
        swap_pitch(None, Some(c), Channel::Ch1),
        vec![Message::NoteOn(Channel::Ch1, 60, 0x40)]
    );
    assert_eq!(
        swap_pitch(Some(c), None, Channel::Ch2),
        vec![Message::NoteOff(Channel::Ch2, 60, 0x40)]
    );
    assert_eq!(
        swap_pitch(Some(c), Some(d), Channel::Ch1),
        vec![
            Message::NoteOff(Channel::Ch1, 60, 0x40),
            Message::NoteOn(Channel::Ch1, 62, 0x40)
        ]
    );
}

#[test]
fn play_turns_pitches_into_messages() {
    let c = Note::new(PitchClass::C, 4);
    let e = Note::new(PitchClass::E, 4);
    let g = Note::new(PitchClass::G, 4);
    let pitch = Var::from_updates(
        Some(c),
        Stream::from_iter(vec![(4, Some(e)), (0, Some(g)), (2, None), (3, Some(c))]),
    );
    let ch = Channel::Ch1;
    assert_eq!(
        play(ch, pitch).into_vec(),
        vec![
            (0, Message::AllSoundOff(ch)),
            (0, Message::NoteOn(ch, 60, 0x40)),
            (4, Message::NoteOff(ch, 60, 0x40)),
            (0, Message::NoteOn(ch, 67, 0x40)),
            (2, Message::NoteOff(ch, 67, 0x40)),
        ]
    );
}

#[test]
fn play_ends_the_last_note_with_the_stream() {
    let c = Note::new(PitchClass::C, 4);
    let e = Note::new(PitchClass::E, 4);
    let pitch = Var::from_updates(None, Stream::from_iter(vec![(1, Some(c)), (2, Some(e))]));
    let ch = Channel::Ch3;
    assert_eq!(
        play(ch, pitch).into_vec(),
        vec![
            (0, Message::AllSoundOff(ch)),
            (1, Message::NoteOn(ch, 60, 0x40)),
            (2, Message::NoteOff(ch, 60, 0x40)),
        ]
    );
}

#[test]
fn active_sensing_beats_every_quarter_second() {
    let mut s = active_sensing();
    assert_eq!(s.next(), Some((0, Message::ActiveSensing)));
    for _ in 0..1000 {
        assert_eq!(s.next(), Some((250_000_000, Message::ActiveSensing)));
    }
}
