//! The decisions of the stream consumer: what to do with each poll result.
//! The messages of a simulation run come in order: the first one is ignored,
//! the second holds the VCD header, the later ones hold value changes, and a
//! message made of the single byte 4 (end of transmission) ends the run.
use vstd::prelude::*;
use vstd::utf8::{decode_utf8, valid_utf8};

verus! {

/// What a poll of the stream gave.
pub enum ConsumerEvent {
    /// No message (a timeout or an error).
    Nothing,
    /// A message, with its payload where it has one.
    Message(Option<Vec<u8>>),
}

/// What the consumer does next.
pub enum ConsumerAction {
    /// Tell the simulator side that the consumer is ready, then poll again.
    SignalReady,
    /// Poll again.
    Wait,
    /// The run is over.
    Finish,
    /// Ignore this message and poll again.
    Skip,
    /// Read this text as the VCD header.
    Header(String),
    /// Read this text as a message of value changes.
    Body(String),
    /// The message had no payload: the stream is broken.
    MissingPayload,
    /// The payload is not UTF-8 text: the stream is broken.
    NotUtf8,
}

/// The consumer's state: the number of messages received, and whether it
/// has reported being ready.
pub struct ConsumerState {
    pub msg_count: u64,
    pub ready: bool,
}

/// `String::from_utf8`: the text that the bytes encode, where they are
/// valid UTF-8. Claims that the result is `Some` exactly for valid UTF-8 (as
/// vstd's `valid_utf8` states it) and holds the decoded characters.
#[verifier::external_body]
fn utf8_text(bytes: Vec<u8>) -> (r: Option<String>)
    ensures
        r is Some <==> valid_utf8(bytes@),
        r matches Some(s) ==> s@ == decode_utf8(bytes@),
{
    String::from_utf8(bytes).ok()
}

/// Whether a payload is the end-of-transmission mark: the single byte 4.
pub open spec fn is_end_mark(p: Seq<u8>) -> bool {
    p.len() == 1 && p[0] == 4
}

impl ConsumerState {
    /// A consumer that has received nothing and not yet reported ready.
    pub fn new() -> (s: Self)
        ensures
            s.msg_count == 0,
            !s.ready,
    {
        ConsumerState { msg_count: 0, ready: false }
    }

    /// Decides what to do with one poll result. A missing message reports
    /// readiness once, then waits. A message is counted (the count saturates
    /// at `u64::MAX`); without payload, or with a payload that is neither the
    /// end mark nor UTF-8, the stream is broken; the end mark finishes the
    /// run; otherwise the second message is the header, later ones are
    /// bodies, and the first one is skipped.
    pub fn step(&mut self, event: ConsumerEvent) -> (action: ConsumerAction)
        ensures
            match event {
                ConsumerEvent::Nothing => {
                    &&& final(self).msg_count == old(self).msg_count
                    &&& final(self).ready
                    &&& if old(self).ready {
                        action is Wait
                    } else {
                        action is SignalReady
                    }
                },
                ConsumerEvent::Message(payload) => {
                    let count = if old(self).msg_count == u64::MAX {
                        u64::MAX
                    } else {
                        (old(self).msg_count + 1) as u64
                    };
                    &&& final(self).msg_count == count
                    &&& final(self).ready == old(self).ready
                    &&& match payload {
                        None => action is MissingPayload,
                        Some(p) => if is_end_mark(p@) {
                            action is Finish
                        } else if !valid_utf8(p@) {
                            action is NotUtf8
                        } else if count == 2 {
                            action matches ConsumerAction::Header(t) && t@ == decode_utf8(p@)
                        } else if count > 2 {
                            action matches ConsumerAction::Body(t) && t@ == decode_utf8(p@)
                        } else {
                            action is Skip
                        },
                    }
                },
            },
    {
        match event {
            ConsumerEvent::Nothing => {
                if self.ready {
                    ConsumerAction::Wait
                } else {
                    self.ready = true;
                    ConsumerAction::SignalReady
                }
            },
            ConsumerEvent::Message(payload) => {
                self.msg_count = self.msg_count.saturating_add(1);
                match payload {
                    None => ConsumerAction::MissingPayload,
                    Some(bytes) => {
                        if bytes.len() == 1 && bytes[0] == 4 {
                            return ConsumerAction::Finish;
                        }
                        match utf8_text(bytes) {
                            None => ConsumerAction::NotUtf8,
                            Some(text) => {
                                if self.msg_count == 2 {
                                    ConsumerAction::Header(text)
                                } else if self.msg_count > 2 {
                                    ConsumerAction::Body(text)
                                } else {
                                    ConsumerAction::Skip
                                }
                            },
                        }
                    },
                }
            },
        }
    }
}

} // verus!
