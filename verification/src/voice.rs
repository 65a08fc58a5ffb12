//! A voice: the notes of one channel as MIDI messages over time.

use vstd::prelude::*;
use crate::apply::{Mapper, Newest};
use crate::basic::{Once, Queue};
use crate::basic::lemma_once_emits;
use crate::coalesce::{Coalesce, folded, lemma_coalesce_emits};
use crate::midi::{Channel, Message};
use crate::replay::Replay;
use crate::source::{Source, emits, ends_within, lemma_trace_ended, trace};
use crate::splice::{Chain, cut, lemma_chain};
use crate::stream::Stream;
use crate::theory::Note;
use crate::timeline::span;
use crate::transform::{
    Flatten,
    Mapped,
    flattened,
    lemma_flatten_emits,
    lemma_mapped_emits,
    mapped,
};
use crate::var::{Var, lemma_updates_emits, unrolled};

verus! {

/// The velocity of every note.
pub const VELOCITY: u8 = 0x40;

/// The time between two signs of life, in ticks of a nanosecond.
pub const SENSING_INTERVAL: u64 = 250_000_000;

/// `pitch` is silence or a note that has a MIDI number.
pub open spec fn soundable(pitch: Option<Note>) -> bool {
    match pitch {
        Some(note) => note.playable(),
        None => true,
    }
}

/// The messages that take a channel from sounding `old` to sounding `new`:
/// the end of `old`, where there is one, then the start of `new`, where there
/// is one.
pub open spec fn swapped(old: Option<Note>, new: Option<Note>, channel: Channel) -> Seq<Message> {
    let off = match old {
        Some(note) => seq![Message::NoteOff(channel, (note.semitones + 60) as u8, VELOCITY)],
        None => Seq::empty(),
    };
    let on = match new {
        Some(note) => seq![Message::NoteOn(channel, (note.semitones + 60) as u8, VELOCITY)],
        None => Seq::empty(),
    };
    off + on
}

/// The messages that take `channel` from sounding `old` to sounding `new`.
pub fn swap_pitch(old: Option<Note>, new: Option<Note>, channel: Channel) -> (msgs: Vec<Message>)
    requires
        soundable(old),
        soundable(new),
    ensures
        msgs@ == swapped(old, new, channel),
{
    let mut msgs = Vec::new();
    if let Some(note) = old {
        msgs.push(Message::NoteOff(channel, note.midi(), VELOCITY));
    }
    if let Some(note) = new {
        msgs.push(Message::NoteOn(channel, note.midi(), VELOCITY));
    }
    assert(msgs@ == swapped(old, new, channel));
    msgs
}

/// The function that turns each pitch of a channel into the messages that
/// lead to it from the pitch before, which it remembers.
pub struct Swap {
    /// The pitch that sounds.
    pub current: Option<Note>,
    pub channel: Channel,
}

impl Mapper<Option<Note>> for Swap {
    type Out = Queue<Message>;

    open spec fn accepts(&self, e: Option<Note>) -> bool {
        soundable(self.current) && soundable(e)
    }

    open spec fn applied(&self, e: Option<Note>) -> (Queue<Message>, Self) {
        (
            Queue::of(swapped(self.current, e, self.channel)),
            Swap { current: e, channel: self.channel },
        )
    }

    fn apply(&mut self, e: Option<Note>) -> (r: Queue<Message>) {
        let msgs = swap_pitch(self.current, e, self.channel);
        self.current = e;
        Queue::from_vec(msgs)
    }
}

/// The messages that play `pitch` on `channel`: all sound off at the start,
/// then, at each change of pitch, the end of the note that sounds and the
/// start of the new one. Of several changes at one instant only the last
/// counts. Where `pitch` ends, the last note ends with it.
pub fn play<S: Source<Event = Option<Note>>>(channel: Channel, pitch: Var<Option<Note>, S>) -> (r:
    Stream<
        Chain<
            Once<Message>,
            Flatten<
                Mapped<
                    Coalesce<Chain<Chain<Once<Option<Note>>, S>, Once<Option<Note>>>, Newest>,
                    Swap,
                >,
                Message,
            >,
        >,
    >)
    ensures
        r.source == (Chain {
            first: Once { item: Some(Message::AllSoundOff(channel)) },
            second: Flatten {
                source: Mapped {
                    source: Coalesce {
                        source: Chain {
                            first: unrolled(pitch),
                            second: Once { item: Some(None::<Note>) },
                            switched: false,
                        },
                        head: None,
                        reduce: Newest,
                        finished: false,
                    },
                    fun: Swap { current: None, channel },
                },
                batch: Queue::<Message>::Nil,
                lead: 0,
            },
            switched: false,
        }),
{
    Stream::immediate(Message::AllSoundOff(channel)).chain(
        pitch.updates().chain(Stream::immediate(None)).coalesce(Newest).flat_map(
            Swap { current: None, channel },
        ),
    )
}

/// The messages of a voice whose pitch changes finitely often: all sound
/// off, then what the changes of pitch, with silence after the last, folded
/// where they fall together and each swapped for the one before, come to.
pub open spec fn played(channel: Channel, present: Option<Note>, future: Seq<(u64, Option<Note>)>)
    -> Seq<(u64, Message)> {
    let pitches = (seq![(0u64, present)] + future) + seq![(0u64, None::<Note>)];
    seq![(0u64, Message::AllSoundOff(channel))] + flattened(
        mapped(folded(None, pitches, Newest), Swap { current: None, channel }),
    )
}

/// `play` of a pitch whose future ends ends, and it emits the messages that
/// `played` describes.
pub proof fn lemma_play_emits<S: Source<Event = Option<Note>>>(
    channel: Channel,
    pitch: Var<Option<Note>, S>,
    future: Seq<(u64, Option<Note>)>,
)
    requires
        emits(pitch.future.source, future),
    ensures
        emits(
            Chain {
                first: Once { item: Some(Message::AllSoundOff(channel)) },
                second: Flatten {
                    source: Mapped {
                        source: Coalesce {
                            source: Chain {
                                first: unrolled(pitch),
                                second: Once { item: Some(None::<Note>) },
                                switched: false,
                            },
                            head: None,
                            reduce: Newest,
                            finished: false,
                        },
                        fun: Swap { current: None, channel },
                    },
                    batch: Queue::<Message>::Nil,
                    lead: 0,
                },
                switched: false,
            },
            played(channel, pitch.present, future),
        ),
{
    let updates = seq![(0u64, pitch.present)] + future;
    let silence = seq![(0u64, None::<Note>)];
    let pitches = updates + silence;
    let ended = Chain {
        first: unrolled(pitch),
        second: Once { item: Some(None::<Note>) },
        switched: false,
    };
    lemma_updates_emits(pitch, future);
    lemma_once_emits(None::<Note>);
    let n1 = choose|n: nat| ends_within(ended.first, n) && trace(ended.first, n) == updates;
    let n2 = choose|n: nat| ends_within(ended.second, n) && trace(ended.second, n) == silence;
    lemma_chain(ended, n1, n2);
    assert(emits(ended, pitches)) by {
        assert(ends_within(ended, n1 + n2) && trace(ended, n1 + n2) == pitches);
    }
    lemma_coalesce_emits(ended, pitches, Newest);
    let newest = Coalesce { source: ended, head: None, reduce: Newest, finished: false };
    let swap = Swap { current: None, channel };
    lemma_mapped_emits(newest, folded(None, pitches, Newest), swap);
    let swaps = Mapped { source: newest, fun: swap };
    lemma_flatten_emits(swaps, mapped(folded(None, pitches, Newest), swap));
    let notes = Flatten { source: swaps, batch: Queue::<Message>::Nil, lead: 0 };
    let tail = flattened(mapped(folded(None, pitches, Newest), swap));
    let all = Chain {
        first: Once { item: Some(Message::AllSoundOff(channel)) },
        second: notes,
        switched: false,
    };
    lemma_once_emits(Message::AllSoundOff(channel));
    let m1 = choose|n: nat|
        ends_within(all.first, n) && trace(all.first, n) == seq![
            (0u64, Message::AllSoundOff(channel)),
        ];
    let m2 = choose|n: nat| ends_within(notes, n) && trace(notes, n) == tail;
    lemma_chain(all, m1, m2);
    assert(ends_within(all, m1 + m2) && trace(all, m1 + m2) == played(
        channel,
        pitch.present,
        future,
    ));
}

/// A sign of life now and every quarter of a second from now on.
pub fn active_sensing() -> (r: Stream<Replay<Message>>)
    ensures
        r.source.sample@ == seq![(0u64, Message::ActiveSensing)],
        r.source.gap == SENSING_INTERVAL,
        r.source.pos == 0,
        !r.source.wrapped,
        r.source.inv(),
{
    let once = Stream::immediate(Message::ActiveSensing);
    proof {
        let events = seq![(0u64, Message::ActiveSensing)];
        let head = cut(once.source, SENSING_INTERVAL);
        let one = head.stepped().1;
        let two = one.stepped().1;
        assert(head.stepped().0 == crate::source::Step::Emit(0u64, Message::ActiveSensing));
        assert(one.stepped().0 is Skip);
        assert(two.stepped().0 is Done);
        assert(ends_within(two, 1));
        assert(ends_within(one, 2));
        assert(ends_within(head, 3));
        assert(trace(two, 1) == Seq::<(u64, Message)>::empty());
        assert(trace(one, 2) == Seq::<(u64, Message)>::empty());
        assert(trace(head, 3) == events + Seq::empty());
        assert(events + Seq::empty() == events);
        let n = choose|n: nat| ends_within(head, n);
        lemma_trace_ended(head, n, 3);
        assert(span(events.drop_last()) == 0);
        assert(span(events) == 0);
    }
    once.repeat_every(SENSING_INTERVAL)
}

} // verus!
