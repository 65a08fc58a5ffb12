//! MIDI messages and their bytes on the wire.

use vstd::prelude::*;
use midi::utils::from_status_byte;
use midi::{
    ActiveSensing, AllSoundOff, NoteOff, NoteOn, ProgramChange, Raw, Status, StatusData,
    StatusDataData, ToRawMessages,
};

verus! {

/// One of the sixteen MIDI channels.
#[derive(Clone, Copy, Debug, PartialEq, Eq, Structural)]
pub enum Channel {
    Ch1,
    Ch2,
    Ch3,
    Ch4,
    Ch5,
    Ch6,
    Ch7,
    Ch8,
    Ch9,
    Ch10,
    Ch11,
    Ch12,
    Ch13,
    Ch14,
    Ch15,
    Ch16,
}

impl Channel {
    /// The channel's number on the wire, from 0 for `Ch1` to 15 for `Ch16`.
    pub open spec fn index_of(self) -> int {
        match self {
            Channel::Ch1 => 0,
            Channel::Ch2 => 1,
            Channel::Ch3 => 2,
            Channel::Ch4 => 3,
            Channel::Ch5 => 4,
            Channel::Ch6 => 5,
            Channel::Ch7 => 6,
            Channel::Ch8 => 7,
            Channel::Ch9 => 8,
            Channel::Ch10 => 9,
            Channel::Ch11 => 10,
            Channel::Ch12 => 11,
            Channel::Ch13 => 12,
            Channel::Ch14 => 13,
            Channel::Ch15 => 14,
            Channel::Ch16 => 15,
        }
    }

    /// The channel's number on the wire.
    pub fn index(self) -> (r: u8)
        ensures
            r == self.index_of(),
            r < 16,
    {
        match self {
            Channel::Ch1 => 0,
            Channel::Ch2 => 1,
            Channel::Ch3 => 2,
            Channel::Ch4 => 3,
            Channel::Ch5 => 4,
            Channel::Ch6 => 5,
            Channel::Ch7 => 6,
            Channel::Ch8 => 7,
            Channel::Ch9 => 8,
            Channel::Ch10 => 9,
            Channel::Ch11 => 10,
            Channel::Ch12 => 11,
            Channel::Ch13 => 12,
            Channel::Ch14 => 13,
            Channel::Ch15 => 14,
            Channel::Ch16 => 15,
        }
    }
}

/// The messages that a voice sends.
#[derive(Clone, Copy, Debug, PartialEq, Eq, Structural)]
pub enum Message {
    /// Tells the receiver that the connection is alive.
    ActiveSensing,
    /// Silences a channel at once.
    AllSoundOff(Channel),
    /// Ends a note: channel, key number, velocity.
    NoteOff(Channel, u8, u8),
    /// Starts a note: channel, key number, velocity.
    NoteOn(Channel, u8, u8),
    /// Selects an instrument: channel, program number.
    ProgramChange(Channel, u8),
}

/// A message as status and data, before the framing of the wire.
#[derive(Clone, Copy, Debug, PartialEq, Eq, Structural)]
pub enum RawMessage {
    Status(u8),
    StatusData(u8, u8),
    StatusDataData(u8, u8, u8),
    Raw(u8),
}

/// The status of a channel message: its kind in the high four bits, its
/// channel in the low four.
pub open spec fn status_byte(kind: u8, channel: Channel) -> u8 {
    ((kind & 0x0f) * 16 + channel.index_of()) as u8
}

/// A message as status and data. A data value keeps its low seven bits.
pub open spec fn raw_form(message: Message) -> Seq<RawMessage> {
    match message {
        Message::ActiveSensing => seq![RawMessage::Status(254)],
        Message::AllSoundOff(c) => seq![RawMessage::StatusDataData(status_byte(11, c), 120, 0)],
        Message::NoteOff(c, n, v) => seq![
            RawMessage::StatusDataData(status_byte(8, c), n & 0x7f, v & 0x7f),
        ],
        Message::NoteOn(c, n, v) => seq![
            RawMessage::StatusDataData(status_byte(9, c), n & 0x7f, v & 0x7f),
        ],
        Message::ProgramChange(c, p) => seq![RawMessage::StatusData(status_byte(12, c), p & 0x7f)],
    }
}

/// `midi::ToRawMessages::to_raw_messages` on the message of the `midi` crate
/// that `message` stands for; the crate's channel is found by its number,
/// with `midi::utils::from_status_byte`. The crate gives one raw message for
/// each of these five: a bare status for active sensing, control change 120
/// with value 0 for all-sound-off, and for the others the status of their
/// kind (8, 9, 12) with their data masked to seven bits.
#[verifier::external_body]
fn to_raw_messages(message: &Message) -> (raw: Vec<RawMessage>)
    ensures
        raw@ == raw_form(*message),
{
    (match *message {
        Message::ActiveSensing => ActiveSensing,
        Message::AllSoundOff(c) => AllSoundOff(from_status_byte(c as u8).1),
        Message::NoteOff(c, n, v) => NoteOff(from_status_byte(c as u8).1, n, v),
        Message::NoteOn(c, n, v) => NoteOn(from_status_byte(c as u8).1, n, v),
        Message::ProgramChange(c, p) => ProgramChange(from_status_byte(c as u8).1, p),
    }).to_raw_messages().into_iter().map(|r| match r {
        Status(a) => RawMessage::Status(a),
        StatusData(a, b) => RawMessage::StatusData(a, b),
        StatusDataData(a, b, c) => RawMessage::StatusDataData(a, b, c),
        Raw(a) => RawMessage::Raw(a),
    }).collect()
}

/// The bytes of one raw message: a status has its high bit set, data and
/// raw bytes go out as they are.
pub open spec fn framed(raw: RawMessage) -> Seq<u8> {
    match raw {
        RawMessage::Status(a) => seq![a | 0x80],
        RawMessage::StatusData(a, b) => seq![a | 0x80, b],
        RawMessage::StatusDataData(a, b, c) => seq![a | 0x80, b, c],
        RawMessage::Raw(a) => seq![a],
    }
}

/// The bytes of a list of raw messages, one after the other.
pub open spec fn wire(raws: Seq<RawMessage>) -> Seq<u8>
    decreases raws.len(),
{
    if raws.len() == 0 {
        Seq::empty()
    } else {
        wire(raws.drop_last()) + framed(raws.last())
    }
}

/// The bytes of `raws` on the wire.
pub fn encode_raw(raws: &Vec<RawMessage>) -> (bytes: Vec<u8>)
    ensures
        bytes@ == wire(raws@),
{
    let mut dest: Vec<u8> = Vec::new();
    let mut i: usize = 0;
    while i < raws.len()
        invariant
            i <= raws@.len(),
            dest@ == wire(raws@.subrange(0, i as int)),
        decreases raws@.len() - i,
    {
        let ghost before = dest@;
        match raws[i] {
            RawMessage::Status(a) => {
                dest.push(a | 0x80);
            },
            RawMessage::StatusData(a, b) => {
                dest.push(a | 0x80);
                dest.push(b);
            },
            RawMessage::StatusDataData(a, b, c) => {
                dest.push(a | 0x80);
                dest.push(b);
                dest.push(c);
            },
            RawMessage::Raw(a) => {
                dest.push(a);
            },
        }
        proof {
            let grown = raws@.subrange(0, i + 1);
            assert(grown.drop_last() == raws@.subrange(0, i as int));
            assert(grown.last() == raws@[i as int]);
            assert(dest@ == before + framed(raws@[i as int]));
        }
        i = i + 1;
    }
    assert(raws@.subrange(0, raws@.len() as int) == raws@);
    dest
}

/// What can be put on the wire.
pub trait MessageExt {
    /// The bytes that stand for the message.
    spec fn encoded(&self) -> Seq<u8>;

    /// The message as bytes.
    fn encode(&self) -> (bytes: Vec<u8>)
        ensures
            bytes@ == self.encoded(),
    ;
}

impl MessageExt for Message {
    open spec fn encoded(&self) -> Seq<u8> {
        wire(raw_form(*self))
    }

    fn encode(&self) -> (bytes: Vec<u8>) {
        let raws = to_raw_messages(self);
        encode_raw(&raws)
    }
}

} // verus!
