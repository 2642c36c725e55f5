//! Decisions of the reader loop that drains one session's output: what to
//! emit for each outcome of a read, and when to stop.
use vstd::prelude::*;
use crate::decoder::{held_part, ready_part, shown_text, Utf8Decoder};

verus! {

/// The outcome of one read from a session's output side.
pub enum ReadEvent {
    /// Bytes that were read; never empty.
    Data(Vec<u8>),
    /// The end of the stream: the child process has gone.
    Eof,
    /// The read failed.
    Failed,
}

/// True for the outcomes after which the stream is over.
pub open spec fn is_terminal(ev: ReadEvent) -> bool {
    !(ev is Data)
}

/// What the loop emits after one read.
pub struct ReaderStep {
    /// Text for an `output` event, where there is any.
    pub output: Option<String>,
    /// Whether to emit the session's `exit` event.
    pub exit: bool,
}

/// The state of one session's reader loop.
pub struct ReaderLoop {
    decoder: Utf8Decoder,
    finished: bool,
}

/// The text an output event carries for `t`: none where `t` is empty.
pub open spec fn output_of(r: Option<String>, t: Seq<char>) -> bool {
    if t.len() == 0 {
        r is None
    } else {
        r is Some && r->Some_0@ == t
    }
}

impl ReaderLoop {
    /// Whether the loop has seen the end of its stream.
    pub closed spec fn is_finished(&self) -> bool {
        self.finished
    }

    /// The bytes held back for an incomplete character.
    pub closed spec fn held(&self) -> Seq<u8> {
        self.decoder@
    }

    /// A loop at the start of a stream.
    pub fn new() -> (r: Self)
        ensures
            !r.is_finished(),
            r.held() == Seq::<u8>::empty(),
    {
        ReaderLoop { decoder: Utf8Decoder::new(), finished: false }
    }

    /// Whether the loop has seen the end of its stream.
    pub fn finished(&self) -> (r: bool)
        ensures
            r == self.is_finished(),
    {
        self.finished
    }

    /// Decides what to emit for one read outcome. Data is decoded, with an
    /// incomplete trailing character held back for the next read; at the end
    /// of the stream, or on a failed read, what is held back is shown and the
    /// single `exit` event is emitted. Once finished, the loop emits nothing.
    pub fn on_read(&mut self, ev: ReadEvent) -> (r: ReaderStep)
        ensures
            r.exit == (!old(self).is_finished() && is_terminal(ev)),
            final(self).is_finished() == (old(self).is_finished() || is_terminal(ev)),
            old(self).is_finished() ==> r.output is None && final(self).held() == old(self).held(),
            !old(self).is_finished() ==> match ev {
                ReadEvent::Data(c) => {
                    &&& output_of(r.output, shown_text(ready_part(old(self).held() + c@)))
                    &&& final(self).held() == held_part(old(self).held() + c@)
                },
                _ => {
                    &&& output_of(r.output, shown_text(old(self).held()))
                    &&& final(self).held() == Seq::<u8>::empty()
                },
            },
    {
        if self.finished {
            return ReaderStep { output: None, exit: false };
        }
        let (text, exit) = match ev {
            ReadEvent::Data(c) => (self.decoder.feed(c.as_slice()), false),
            _ => (self.decoder.finish(), true),
        };
        self.finished = exit;
        let output = if text.as_str().unicode_len() == 0 {
            None
        } else {
            Some(text)
        };
        ReaderStep { output, exit }
    }
}

/// The number of `exit` events a loop emits over `evs`, from a state that
/// is finished or not.
pub open spec fn exits_over(finished: bool, evs: Seq<ReadEvent>) -> nat
    decreases evs.len(),
{
    if evs.len() == 0 {
        0
    } else {
        (if !finished && is_terminal(evs[0]) {
            1nat
        } else {
            0nat
        }) + exits_over(finished || is_terminal(evs[0]), evs.drop_first())
    }
}

/// Over any run of read outcomes, a loop emits the `exit` event once if the
/// run holds an end of stream or a failed read, and never otherwise; a
/// finished loop emits none.
pub proof fn lemma_exit_once(finished: bool, evs: Seq<ReadEvent>)
    ensures
        finished ==> exits_over(finished, evs) == 0,
        !finished ==> exits_over(finished, evs) == if exists|i: int|
            0 <= i < evs.len() && is_terminal(#[trigger] evs[i]) {
            1nat
        } else {
            0nat
        },
    decreases evs.len(),
{
    if evs.len() > 0 {
        let rest = evs.drop_first();
        lemma_exit_once(finished || is_terminal(evs[0]), rest);
        if !finished && !is_terminal(evs[0]) {
            if exists|i: int| 0 <= i < evs.len() && is_terminal(#[trigger] evs[i]) {
                let i = choose|i: int| 0 <= i < evs.len() && is_terminal(#[trigger] evs[i]);
                assert(rest[i - 1] == evs[i]);
            }
            if exists|i: int| 0 <= i < rest.len() && is_terminal(#[trigger] rest[i]) {
                let i = choose|i: int| 0 <= i < rest.len() && is_terminal(#[trigger] rest[i]);
                assert(rest[i] == evs[i + 1]);
            }
        }
    }
}

} // verus!
