//! Notes, scales and keys.

use vstd::prelude::*;
use crate::cycle::lemma_cycle;

verus! {

/// One of the twelve pitch classes of an octave.
#[derive(Clone, Copy, Debug, PartialEq, Eq, Structural, Hash)]
pub enum PitchClass {
    C,
    CSharp,
    D,
    DSharp,
    E,
    F,
    FSharp,
    G,
    GSharp,
    A,
    ASharp,
    B,
}

impl PitchClass {
    /// The number of semitones above C.
    pub open spec fn ordinal_of(self) -> int {
        match self {
            PitchClass::C => 0,
            PitchClass::CSharp => 1,
            PitchClass::D => 2,
            PitchClass::DSharp => 3,
            PitchClass::E => 4,
            PitchClass::F => 5,
            PitchClass::FSharp => 6,
            PitchClass::G => 7,
            PitchClass::GSharp => 8,
            PitchClass::A => 9,
            PitchClass::ASharp => 10,
            PitchClass::B => 11,
        }
    }

    /// The pitch class that lies `ordinal` semitones above C, whatever the
    /// octave: only `ordinal` modulo 12 counts.
    pub open spec fn class_of(ordinal: int) -> PitchClass {
        let rem = ordinal % 12;
        if rem == 0 {
            PitchClass::C
        } else if rem == 1 {
            PitchClass::CSharp
        } else if rem == 2 {
            PitchClass::D
        } else if rem == 3 {
            PitchClass::DSharp
        } else if rem == 4 {
            PitchClass::E
        } else if rem == 5 {
            PitchClass::F
        } else if rem == 6 {
            PitchClass::FSharp
        } else if rem == 7 {
            PitchClass::G
        } else if rem == 8 {
            PitchClass::GSharp
        } else if rem == 9 {
            PitchClass::A
        } else if rem == 10 {
            PitchClass::ASharp
        } else {
            PitchClass::B
        }
    }

    /// The number of semitones above C, from 0 to 11.
    pub fn ordinal(self) -> (r: i64)
        ensures
            r == self.ordinal_of(),
            0 <= r < 12,
    {
        match self {
            PitchClass::C => 0,
            PitchClass::CSharp => 1,
            PitchClass::D => 2,
            PitchClass::DSharp => 3,
            PitchClass::E => 4,
            PitchClass::F => 5,
            PitchClass::FSharp => 6,
            PitchClass::G => 7,
            PitchClass::GSharp => 8,
            PitchClass::A => 9,
            PitchClass::ASharp => 10,
            PitchClass::B => 11,
        }
    }

    /// The pitch class that lies `ordinal` semitones above C, whatever the
    /// octave: only `ordinal` modulo 12 counts.
    pub fn from_ordinal(ordinal: i64) -> (r: Self)
        ensures
            r == Self::class_of(ordinal as int),
            r.ordinal_of() == ordinal as int % 12,
    {
        let below: i64 = ordinal % 12;
        let rem: i64 = if below < 0 {
            below + 12
        } else {
            below
        };
        if rem == 0 {
            PitchClass::C
        } else if rem == 1 {
            PitchClass::CSharp
        } else if rem == 2 {
            PitchClass::D
        } else if rem == 3 {
            PitchClass::DSharp
        } else if rem == 4 {
            PitchClass::E
        } else if rem == 5 {
            PitchClass::F
        } else if rem == 6 {
            PitchClass::FSharp
        } else if rem == 7 {
            PitchClass::G
        } else if rem == 8 {
            PitchClass::GSharp
        } else if rem == 9 {
            PitchClass::A
        } else if rem == 10 {
            PitchClass::ASharp
        } else {
            PitchClass::B
        }
    }

    /// The name, with `#` for a sharp.
    pub open spec fn name_of(self) -> Seq<char> {
        match self {
            PitchClass::C => "C"@,
            PitchClass::CSharp => "C#"@,
            PitchClass::D => "D"@,
            PitchClass::DSharp => "D#"@,
            PitchClass::E => "E"@,
            PitchClass::F => "F"@,
            PitchClass::FSharp => "F#"@,
            PitchClass::G => "G"@,
            PitchClass::GSharp => "G#"@,
            PitchClass::A => "A"@,
            PitchClass::ASharp => "A#"@,
            PitchClass::B => "B"@,
        }
    }

    /// The name, with `#` for a sharp.
    pub fn name(self) -> (r: &'static str)
        ensures
            r@ == self.name_of(),
    {
        match self {
            PitchClass::C => "C",
            PitchClass::CSharp => "C#",
            PitchClass::D => "D",
            PitchClass::DSharp => "D#",
            PitchClass::E => "E",
            PitchClass::F => "F",
            PitchClass::FSharp => "F#",
            PitchClass::G => "G",
            PitchClass::GSharp => "G#",
            PitchClass::A => "A",
            PitchClass::ASharp => "A#",
            PitchClass::B => "B",
        }
    }
}

/// The decimal digits of `n`, with `-` before them where `n` is negative.
pub uninterp spec fn decimal(n: i64) -> Seq<char>;

/// `format!` with the pattern `{}{}`: `name` as it is, then `octave` as std
/// displays an `i64`, in decimal digits.
#[verifier::external_body]
fn label(name: &str, octave: i64) -> (text: String)
    ensures
        text@ == name@ + decimal(octave),
{
    format!("{}{}", name, octave)
}

/// A pitch, counted in semitones from middle C.
#[derive(Clone, Copy, Debug, PartialEq, Eq, Structural, Hash, PartialOrd, Ord)]
pub struct Note {
    pub semitones: i64,
}

impl Note {
    /// The note of class `pitch_class` in octave `octave`; middle C is C in
    /// octave 4.
    pub fn new(pitch_class: PitchClass, octave: i64) -> (r: Self)
        requires
            i64::MIN <= pitch_class.ordinal_of() + (octave - 4) * 12 <= i64::MAX,
        ensures
            r.semitones == pitch_class.ordinal_of() + (octave - 4) * 12,
    {
        let ordinal = pitch_class.ordinal();
        let semitones: i64 = if octave >= 4 {
            (octave - 4) * 12 + ordinal
        } else {
            (octave - 3) * 12 + (ordinal - 12)
        };
        Note { semitones }
    }

    /// The pitch class: the semitones modulo 12.
    pub fn pitch_class(self) -> (r: PitchClass)
        ensures
            r == PitchClass::class_of(self.semitones as int),
            r.ordinal_of() == self.semitones as int % 12,
    {
        PitchClass::from_ordinal(self.semitones)
    }

    /// The octave: 4 for the twelve notes from middle C up, one less for
    /// each twelve below.
    pub fn octave(self) -> (r: i64)
        ensures
            r == self.semitones as int / 12 + 4,
    {
        let quotient: i64 = self.semitones / 12;
        if self.semitones % 12 < 0 {
            quotient + 3
        } else {
            quotient + 4
        }
    }

    /// The note `semitones` semitones higher.
    pub fn offset(self, semitones: i64) -> (r: Self)
        requires
            i64::MIN <= self.semitones + semitones <= i64::MAX,
        ensures
            r.semitones == self.semitones + semitones,
    {
        Note { semitones: self.semitones + semitones }
    }

    /// The note as text: the name of its pitch class, then its octave.
    pub fn to_text(self) -> (text: String)
        ensures
            text@ == PitchClass::class_of(self.semitones as int).name_of() + decimal(
                (self.semitones as int / 12 + 4) as i64,
            ),
    {
        let class = self.pitch_class();
        label(class.name(), self.octave())
    }

    /// Whether the note has a MIDI number: middle C is 60, and the numbers
    /// run from 0 to 127.
    pub open spec fn playable(self) -> bool {
        0 <= self.semitones + 60 <= 127
    }

    /// The MIDI number.
    pub fn midi(self) -> (r: u8)
        requires
            self.playable(),
        ensures
            r == self.semitones + 60,
    {
        (self.semitones + 60) as u8
    }
}

/// The sum of the first `n` items of `s`.
pub open spec fn prefix_sum(s: Seq<i64>, n: nat) -> int
    decreases n,
{
    if n == 0 {
        0
    } else {
        prefix_sum(s, (n - 1) as nat) + s[n - 1]
    }
}

/// A scale: the steps, in semitones, from each degree to the next, over one
/// octave.
#[derive(Clone, Debug, PartialEq, Eq)]
pub struct Scale {
    pub intervals: Vec<i64>,
}

impl Scale {
    /// The steps add up to an octave.
    pub open spec fn wf(&self) -> bool {
        prefix_sum(self.intervals@, self.intervals@.len()) == 12
    }

    /// Every step has a negative.
    pub open spec fn invertible(&self) -> bool {
        forall|j: int| 0 <= j < self.intervals@.len() ==> self.intervals@[j] > i64::MIN
    }

    /// The `i`-th step going up, where the steps repeat octave after octave.
    pub open spec fn up(&self, i: int) -> int {
        self.intervals@[i % self.intervals@.len() as int] as int
    }

    /// The `i`-th step going down: the steps in reverse, each negated.
    pub open spec fn down(&self, i: int) -> int {
        -(self.intervals@[self.intervals@.len() - 1 - i % self.intervals@.len() as int] as int)
    }

    /// The semitones between the tonic and the degree `steps` steps from it,
    /// up for a positive `steps` and down for a negative one.
    pub open spec fn reach(&self, steps: int) -> int
        decreases
                (if steps >= 0 {
                    steps
                } else {
                    -steps
                }),
    {
        if steps > 0 {
            self.reach(steps - 1) + self.up(steps - 1)
        } else if steps < 0 {
            self.reach(steps + 1) + self.down(-steps - 1)
        } else {
            0
        }
    }

    /// The scale with the steps `intervals`, which add up to 12.
    pub fn from_intervals(intervals: Vec<i64>) -> (r: Self)
        requires
            prefix_sum(intervals@, intervals@.len()) == 12,
        ensures
            r.intervals == intervals,
            r.wf(),
    {
        Scale { intervals }
    }

    /// The major scale.
    pub fn major() -> (r: Self)
        ensures
            r.intervals@ == seq![2i64, 2, 1, 2, 2, 2, 1],
            r.wf(),
            r.invertible(),
    {
        let intervals: Vec<i64> = vec![2, 2, 1, 2, 2, 2, 1];
        proof {
            reveal_with_fuel(prefix_sum, 8);
        }
        Self::from_intervals(intervals)
    }

    /// The natural minor scale.
    pub fn minor() -> (r: Self)
        ensures
            r.intervals@ == seq![2i64, 1, 2, 2, 1, 2, 2],
            r.wf(),
            r.invertible(),
    {
        let intervals: Vec<i64> = vec![2, 1, 2, 2, 1, 2, 2];
        proof {
            reveal_with_fuel(prefix_sum, 8);
        }
        Self::from_intervals(intervals)
    }

    /// The five-note scale with the steps 4, 1, 2, 4, 1.
    pub fn pentatonic() -> (r: Self)
        ensures
            r.intervals@ == seq![4i64, 1, 2, 4, 1],
            r.wf(),
            r.invertible(),
    {
        let intervals: Vec<i64> = vec![4, 1, 2, 4, 1];
        proof {
            reveal_with_fuel(prefix_sum, 6);
        }
        Self::from_intervals(intervals)
    }

    /// The number of steps in an octave.
    pub fn num_intervals(&self) -> (r: usize)
        ensures
            r == self.intervals@.len(),
    {
        self.intervals.len()
    }

    /// The first `count` steps going up from the tonic, octave after octave.
    pub fn intervals_ascending(&self, count: usize) -> (r: Vec<i64>)
        requires
            self.intervals@.len() > 0,
        ensures
            r@.len() == count,
            forall|i: int| 0 <= i < count ==> r@[i] == self.up(i),
    {
        let n = self.intervals.len();
        let mut out: Vec<i64> = Vec::new();
        let mut j: usize = 0;
        while out.len() < count
            invariant
                n == self.intervals@.len(),
                n > 0,
                out@.len() <= count,
                j == out@.len() % n as nat,
                forall|i: int| 0 <= i < out@.len() ==> out@[i] == self.up(i),
            decreases count - out@.len(),
        {
            proof {
                lemma_cycle(out@.len() as int, n as int);
            }
            out.push(self.intervals[j]);
            j = if j + 1 == n {
                0
            } else {
                j + 1
            };
        }
        out
    }

    /// The first `count` steps going down from the tonic, octave after
    /// octave.
    pub fn intervals_descending(&self, count: usize) -> (r: Vec<i64>)
        requires
            self.intervals@.len() > 0,
            self.invertible(),
        ensures
            r@.len() == count,
            forall|i: int| 0 <= i < count ==> r@[i] == self.down(i),
    {
        let n = self.intervals.len();
        let mut out: Vec<i64> = Vec::new();
        let mut j: usize = 0;
        while out.len() < count
            invariant
                n == self.intervals@.len(),
                n > 0,
                self.invertible(),
                out@.len() <= count,
                j == out@.len() % n as nat,
                forall|i: int| 0 <= i < out@.len() ==> out@[i] == self.down(i),
            decreases count - out@.len(),
        {
            proof {
                lemma_cycle(out@.len() as int, n as int);
            }
            out.push(-self.intervals[n - 1 - j]);
            j = if j + 1 == n {
                0
            } else {
                j + 1
            };
        }
        out
    }
}

/// A key: a scale set on a tonic.
#[derive(Clone, Debug, PartialEq, Eq)]
pub struct Key {
    pub tonic: Note,
    pub scale: Scale,
}

/// A note of a key, with its place in the key.
#[derive(Clone, Copy, Debug, PartialEq, Eq)]
pub struct NoteInKey<'k> {
    pub key: &'k Key,
    pub note: Note,
    /// The scale steps from the tonic of the key.
    pub scale_steps: i64,
}

impl Key {
    /// The pitch, in semitones from middle C, of the degree `steps` scale
    /// steps from the tonic.
    pub open spec fn pitch(&self, steps: int) -> int {
        self.tonic.semitones + self.scale.reach(steps)
    }

    /// Every degree from the tonic to the one `steps` steps away has a
    /// pitch that an `i64` holds.
    pub open spec fn spans(&self, steps: int) -> bool {
        forall|k: int|
            (0 <= k <= steps || steps <= k <= 0) ==> i64::MIN <= #[trigger] self.pitch(k)
                <= i64::MAX
    }

    /// The major key on `tonic`.
    pub fn major(tonic: Note) -> (r: Self)
        ensures
            r.tonic == tonic,
            r.scale.intervals@ == seq![2i64, 2, 1, 2, 2, 2, 1],
            r.scale.wf(),
            r.scale.invertible(),
    {
        Key { tonic, scale: Scale::major() }
    }

    /// The minor key on `tonic`.
    pub fn minor(tonic: Note) -> (r: Self)
        ensures
            r.tonic == tonic,
            r.scale.intervals@ == seq![2i64, 1, 2, 2, 1, 2, 2],
            r.scale.wf(),
            r.scale.invertible(),
    {
        Key { tonic, scale: Scale::minor() }
    }

    /// The pentatonic key on `tonic`.
    pub fn pentatonic(tonic: Note) -> (r: Self)
        ensures
            r.tonic == tonic,
            r.scale.intervals@ == seq![4i64, 1, 2, 4, 1],
            r.scale.wf(),
            r.scale.invertible(),
    {
        Key { tonic, scale: Scale::pentatonic() }
    }

    /// The scale.
    pub fn scale(&self) -> (r: &Scale)
        ensures
            *r == self.scale,
    {
        &self.scale
    }

    /// The notes that lie, one after the other, the steps `intervals` apart,
    /// the first of them the tonic. The `i`-th is counted as `i * direction`
    /// scale steps from the tonic.
    pub fn notes_from_intervals<'a>(&'a self, intervals: &Vec<i64>, direction: i64) -> (r: Vec<
        NoteInKey<'a>,
    >)
        requires
            -1 <= direction <= 1,
            intervals@.len() <= i64::MAX,
            forall|i: int|
                0 <= i < intervals@.len() ==> i64::MIN <= self.tonic.semitones + #[trigger] prefix_sum(
                    intervals@,
                    i as nat,
                ) <= i64::MAX,
        ensures
            r@.len() == intervals@.len(),
            forall|i: int|
                0 <= i < r@.len() ==> {
                    &&& (#[trigger] r@[i]).key == self
                    &&& r@[i].note.semitones == self.tonic.semitones + prefix_sum(
                        intervals@,
                        i as nat,
                    )
                    &&& r@[i].scale_steps == i * direction
                },
    {
        let mut out: Vec<NoteInKey<'a>> = Vec::new();
        let mut accum = self.tonic;
        let mut steps: i64 = 0;
        let mut i: usize = 0;
        while i < intervals.len()
            invariant
                -1 <= direction <= 1,
                intervals@.len() <= i64::MAX,
                forall|k: int|
                    0 <= k < intervals@.len() ==> i64::MIN <= self.tonic.semitones
                        + #[trigger] prefix_sum(intervals@, k as nat) <= i64::MAX,
                i <= intervals@.len(),
                out@.len() == i,
                steps == i * direction,
                i < intervals@.len() ==> accum.semitones == self.tonic.semitones + prefix_sum(
                    intervals@,
                    i as nat,
                ),
                forall|k: int|
                    0 <= k < i ==> {
                        &&& (#[trigger] out@[k]).key == self
                        &&& out@[k].note.semitones == self.tonic.semitones + prefix_sum(
                            intervals@,
                            k as nat,
                        )
                        &&& out@[k].scale_steps == k * direction
                    },
            decreases intervals@.len() - i,
        {
            out.push(NoteInKey { key: self, note: accum, scale_steps: steps });
            assert((i + 1) * direction == i * direction + direction) by (nonlinear_arith);
            assert(-(i + 1) <= (i + 1) * direction <= i + 1) by (nonlinear_arith)
                requires
                    -1 <= direction <= 1,
                    0 <= i,
            ;
            if i + 1 < intervals.len() {
                assert(prefix_sum(intervals@, (i + 1) as nat) == prefix_sum(intervals@, i as nat)
                    + intervals@[i as int]);
                accum = accum.offset(intervals[i]);
            }
            steps = steps + direction;
            i = i + 1;
        }
        out
    }

    /// The first `count` notes of the key going up from the tonic.
    pub fn notes_ascending<'a>(&'a self, count: usize) -> (r: Vec<NoteInKey<'a>>)
        requires
            self.scale.intervals@.len() > 0,
            count <= i64::MAX,
            self.spans(count - 1),
        ensures
            r@.len() == count,
            forall|i: int|
                0 <= i < count ==> {
                    &&& (#[trigger] r@[i]).key == self
                    &&& r@[i].note.semitones == self.pitch(i)
                    &&& r@[i].scale_steps == i
                },
    {
        let intervals = self.scale.intervals_ascending(count);
        proof {
            assert forall|i: int| 0 <= i < count implies #[trigger] prefix_sum(
                intervals@,
                i as nat,
            ) == self.scale.reach(i) by {
                self.scale.lemma_rise(intervals@, i);
            }
            assert forall|i: int| 0 <= i < intervals@.len() implies i64::MIN
                <= self.tonic.semitones + #[trigger] prefix_sum(intervals@, i as nat)
                <= i64::MAX by {
                assert(i64::MIN <= self.pitch(i) <= i64::MAX);
            }
        }
        self.notes_from_intervals(&intervals, 1)
    }

    /// The first `count` notes of the key going down from the tonic.
    pub fn notes_descending<'a>(&'a self, count: usize) -> (r: Vec<NoteInKey<'a>>)
        requires
            self.scale.intervals@.len() > 0,
            self.scale.invertible(),
            count <= i64::MAX,
            self.spans(1 - count),
        ensures
            r@.len() == count,
            forall|i: int|
                0 <= i < count ==> {
                    &&& (#[trigger] r@[i]).key == self
                    &&& r@[i].note.semitones == self.pitch(-i)
                    &&& r@[i].scale_steps == -i
                },
    {
        let intervals = self.scale.intervals_descending(count);
        proof {
            assert forall|i: int| 0 <= i < count implies #[trigger] prefix_sum(
                intervals@,
                i as nat,
            ) == self.scale.reach(-i) by {
                self.scale.lemma_fall(intervals@, i);
            }
            assert forall|i: int| 0 <= i < intervals@.len() implies i64::MIN
                <= self.tonic.semitones + #[trigger] prefix_sum(intervals@, i as nat)
                <= i64::MAX by {
                assert(i64::MIN <= self.pitch(-i) <= i64::MAX);
            }
        }
        self.notes_from_intervals(&intervals, -1)
    }

    /// The note `scale_steps_from_tonic` scale steps from the tonic: up for
    /// a positive number, down for a negative one.
    pub fn at<'a>(&'a self, scale_steps_from_tonic: i64) -> (r: NoteInKey<'a>)
        requires
            self.scale.intervals@.len() > 0,
            self.spans(scale_steps_from_tonic as int),
        ensures
            r.key == self,
            r.note.semitones == self.pitch(scale_steps_from_tonic as int),
            r.scale_steps == scale_steps_from_tonic,
    {
        let n = self.scale.intervals.len();
        let mut semitones = self.tonic.semitones;
        let mut steps: i64 = 0;
        let mut j: usize = 0;
        assert(self.pitch(0) == self.tonic.semitones);
        if scale_steps_from_tonic >= 0 {
            while steps < scale_steps_from_tonic
                invariant
                    n == self.scale.intervals@.len(),
                    n > 0,
                    self.spans(scale_steps_from_tonic as int),
                    0 <= steps <= scale_steps_from_tonic,
                    j == steps as int % n as int,
                    semitones == self.pitch(steps as int),
                decreases scale_steps_from_tonic - steps,
            {
                proof {
                    lemma_cycle(steps as int, n as int);
                    assert(i64::MIN <= self.pitch(steps + 1) <= i64::MAX);
                    assert(self.scale.reach(steps + 1) == self.scale.reach(steps as int)
                        + self.scale.up(steps as int));
                }
                semitones = semitones + self.scale.intervals[j];
                j = if j + 1 == n {
                    0
                } else {
                    j + 1
                };
                steps = steps + 1;
            }
        } else {
            while steps > scale_steps_from_tonic
                invariant
                    n == self.scale.intervals@.len(),
                    n > 0,
                    self.spans(scale_steps_from_tonic as int),
                    scale_steps_from_tonic <= steps <= 0,
                    j == (-steps) as int % n as int,
                    semitones == self.pitch(steps as int),
                decreases steps - scale_steps_from_tonic,
            {
                proof {
                    lemma_cycle(-steps as int, n as int);
                    assert(i64::MIN <= self.pitch(steps - 1) <= i64::MAX);
                    assert(self.scale.reach(steps - 1) == self.scale.reach(steps as int)
                        + self.scale.down(-steps as int));
                }
                semitones = semitones - self.scale.intervals[n - 1 - j];
                j = if j + 1 == n {
                    0
                } else {
                    j + 1
                };
                steps = steps - 1;
            }
        }
        NoteInKey { key: self, note: Note { semitones }, scale_steps: scale_steps_from_tonic }
    }

    /// The key of the same scale whose tonic is the note `scale_steps` scale
    /// steps from the tonic of this one.
    pub fn offset_tonic(self, scale_steps: i64) -> (r: Self)
        requires
            self.scale.intervals@.len() > 0,
            self.spans(scale_steps as int),
        ensures
            r.tonic.semitones == self.pitch(scale_steps as int),
            r.scale == self.scale,
    {
        let tonic = self.at(scale_steps).note();
        Key { tonic, scale: self.scale }
    }
}

impl Scale {
    /// The first `i` steps going up add up to the reach of `i`.
    pub proof fn lemma_rise(&self, ups: Seq<i64>, i: int)
        requires
            0 <= i <= ups.len(),
            forall|k: int| 0 <= k < ups.len() ==> ups[k] == self.up(k),
        ensures
            prefix_sum(ups, i as nat) == self.reach(i),
        decreases i,
    {
        if i > 0 {
            self.lemma_rise(ups, i - 1);
        }
    }

    /// The first `i` steps going down add up to the reach of `-i`.
    pub proof fn lemma_fall(&self, downs: Seq<i64>, i: int)
        requires
            0 <= i <= downs.len(),
            forall|k: int| 0 <= k < downs.len() ==> downs[k] == self.down(k),
        ensures
            prefix_sum(downs, i as nat) == self.reach(-i),
        decreases i,
    {
        if i > 0 {
            self.lemma_fall(downs, i - 1);
        }
    }
}

impl<'k> NoteInKey<'k> {
    /// The note of the same key `scale_steps` scale steps from this one.
    pub fn offset(&self, scale_steps: i64) -> (r: NoteInKey<'k>)
        requires
            self.key.scale.intervals@.len() > 0,
            i64::MIN <= self.scale_steps + scale_steps <= i64::MAX,
            self.key.spans(self.scale_steps + scale_steps),
        ensures
            r.key == self.key,
            r.note.semitones == self.key.pitch(self.scale_steps + scale_steps),
            r.scale_steps == self.scale_steps + scale_steps,
    {
        self.key.at(self.scale_steps + scale_steps)
    }

    /// The note as text.
    pub fn to_text(&self) -> (text: String)
        ensures
            text@ == PitchClass::class_of(self.note.semitones as int).name_of() + decimal(
                (self.note.semitones as int / 12 + 4) as i64,
            ),
    {
        self.note.to_text()
    }

    /// The note.
    pub fn note(&self) -> (r: Note)
        ensures
            r == self.note,
    {
        self.note
    }

    /// The scale steps from the tonic of the key.
    pub fn scale_steps_from_tonic(&self) -> (r: i64)
        ensures
            r == self.scale_steps,
    {
        self.scale_steps
    }
}

} // verus!
