//! Timed-event streams: lazy sequences of `(delay, event)` pairs, each delay
//! counted from the event before it, and the combinators that splice, trim,
//! merge and replay them.

pub mod apply;
pub mod basic;
pub mod coalesce;
pub mod cycle;
pub mod discard;
pub mod lazy;
pub mod merge;
pub mod midi;
pub mod replay;
pub mod seed;
pub mod source;
pub mod splice;
pub mod stream;
pub mod switch;
pub mod theory;
pub mod timeline;
pub mod transform;
pub mod unfold;
pub mod var;
pub mod voice;
