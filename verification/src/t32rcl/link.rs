//! Frames on the wire, message numbers and the queue of answers.

use std::collections::VecDeque;
use vstd::prelude::*;

use crate::bytes::{
    byte_views, copy_bytes, le_bytes, le_limit, le_round_trip, le_value, lemma_le_bytes_len,
    push_bytes, push_le, push_zeros, read_u32, zeros,
};
use crate::t32rcl::error::{Error, ErrorView};

verus! {

/// Frame type of a request.
pub const RCL_REQ: u32 = 0x0010;

/// Frame type of a response.
pub const RCL_RESP: u32 = 0x0011;

/// Frame type of a notification.
pub const RCL_NOTIFY: u32 = 0x0012;

/// First byte of a response that carries nothing.
pub const KEEPALIVE: u8 = 0xFE;

/// The bytes that are missing up to the next multiple of eight.
pub open spec fn padding(n: int) -> int {
    (8 - n % 8) % 8
}

/// The bytes that are missing up to the next multiple of eight.
pub fn align_eight(n: usize) -> (result: usize)
    ensures
        result == padding(n as int),
        (n + result) % 8 == 0,
        result < 8,
{
    (8 - n % 8) % 8
}

/// A frame: the length and the type of the data, the data, and zeros that fill
/// the frame up to a multiple of eight bytes.
pub open spec fn frame_bytes(kind: u32, data: Seq<u8>) -> Seq<u8> {
    le_bytes(data.len(), 4) + le_bytes(kind as nat, 4) + data + zeros(
        padding(data.len() as int) as nat,
    )
}

/// Wraps message data in a request frame.
pub fn encode_frame(data: &[u8]) -> (frame: Vec<u8>)
    ensures
        frame@ == frame_bytes(RCL_REQ, data@),
{
    let mut frame: Vec<u8> = Vec::new();
    push_le(&mut frame, data.len() as u64, 4);
    push_le(&mut frame, RCL_REQ as u64, 4);
    push_bytes(&mut frame, data);
    push_zeros(&mut frame, align_eight(data.len()));
    assert(frame@ =~= frame_bytes(RCL_REQ, data@));
    frame
}

/// Every frame fills whole units of eight bytes.
pub proof fn frames_are_aligned(kind: u32, data: Seq<u8>)
    ensures
        frame_bytes(kind, data).len() % 8 == 0,
{
    lemma_le_bytes_len(data.len(), 4);
    lemma_le_bytes_len(kind as nat, 4);
}

/// What the decoder holds back between two reads, the responses that it has
/// found, and whether it met a frame of an unknown type.
pub ghost struct Decoded {
    pub buffer: Seq<u8>,
    pub pending: nat,
    pub responses: Seq<Seq<u8>>,
    pub valid: bool,
}

/// Takes complete frames off the front of a buffer until none is left or one has
/// an unknown type. `pending` counts the alignment bytes still to come.
pub open spec fn drain(buffer: Seq<u8>, pending: nat) -> Decoded
    decreases buffer.len(),
{
    let length = le_value(buffer.take(4));
    if buffer.len() < 8 || buffer.len() < length + 8 {
        Decoded { buffer, pending, responses: seq![], valid: true }
    } else {
        let kind = le_value(buffer.subrange(4, 8));
        let whole = length + 8 + padding(length as int);
        let consumed = if whole <= buffer.len() {
            whole
        } else {
            buffer.len() as int
        };
        let rest = buffer.skip(consumed);
        let missing = (whole - consumed) as nat;
        if kind == RCL_RESP {
            let next = drain(rest, missing);
            Decoded {
                responses: seq![buffer.subrange(8, 8 + length as int)] + next.responses,
                ..next
            }
        } else if kind == RCL_NOTIFY {
            drain(rest, missing)
        } else {
            Decoded { buffer: rest, pending: missing, responses: seq![], valid: false }
        }
    }
}

/// What becomes of a decoder and of the bytes that it receives.
pub open spec fn received(buffer: Seq<u8>, pending: nat, data: Seq<u8>) -> Decoded {
    let skipped = if pending <= data.len() {
        pending as int
    } else {
        data.len() as int
    };
    drain(buffer + data.skip(skipped), (pending - skipped) as nat)
}

/// An incremental parser for received frames.
#[derive(Debug)]
pub struct FrameDecoder {
    pub buffer: Vec<u8>,
    /// Alignment bytes of the previous frame that have not arrived yet.
    pub pending_padding: usize,
}

impl Default for FrameDecoder {
    fn default() -> (decoder: FrameDecoder)
        ensures
            decoder.buffer@ == Seq::<u8>::empty(),
            decoder.pending_padding == 0,
            decoder.valid(),
    {
        FrameDecoder { buffer: Vec::new(), pending_padding: 0 }
    }
}

impl FrameDecoder {
    /// While alignment bytes are awaited, nothing else is held back.
    pub open spec fn valid(self) -> bool {
        self.pending_padding > 0 ==> self.buffer@.len() == 0
    }

    /// Feeds received bytes. Complete responses join the queue, notifications
    /// are dropped, and a frame of any other type is an error.
    pub fn feed(&mut self, data: &[u8], responses: &mut VecDeque<Vec<u8>>) -> (result: Result<
        (),
        Error,
    >)
        requires
            old(self).valid(),
        ensures
            final(self).valid(),
            ({
                let decoded = received(old(self).buffer@, old(self).pending_padding as nat, data@);
                &&& final(self).buffer@ == decoded.buffer
                &&& final(self).pending_padding == decoded.pending
                &&& byte_views(final(responses)@) == byte_views(old(responses)@)
                    + decoded.responses
                &&& result is Ok <==> decoded.valid
                &&& result matches Err(error) ==> error@ == ErrorView::Protocol(
                    "TCP packet contains invalid messagetype"@,
                )
            }),
    {
        let ghost goal = received(self.buffer@, self.pending_padding as nat, data@);
        let skipped: usize = if self.pending_padding <= data.len() {
            self.pending_padding
        } else {
            data.len()
        };
        self.pending_padding = self.pending_padding - skipped;
        let fresh = copy_bytes(data, skipped, data.len());
        push_bytes(&mut self.buffer, &fresh);
        proof {
            assert(data@.subrange(skipped as int, data@.len() as int) =~= data@.skip(
                skipped as int,
            ));
            assert(byte_views(old(responses)@) + goal.responses =~= byte_views(responses@) + drain(
                self.buffer@,
                self.pending_padding as nat,
            ).responses);
        }
        loop
            invariant
                self.valid(),
                goal == received(old(self).buffer@, old(self).pending_padding as nat, data@),
                goal.buffer == drain(self.buffer@, self.pending_padding as nat).buffer,
                goal.pending == drain(self.buffer@, self.pending_padding as nat).pending,
                goal.valid == drain(self.buffer@, self.pending_padding as nat).valid,
                byte_views(old(responses)@) + goal.responses == byte_views(responses@) + drain(
                    self.buffer@,
                    self.pending_padding as nat,
                ).responses,
            decreases self.buffer@.len(),
        {
            if self.buffer.len() < 8 {
                assert(byte_views(responses@) + drain(
                    self.buffer@,
                    self.pending_padding as nat,
                ).responses =~= byte_views(responses@));
                return Ok(());
            }
            assert(self.buffer@.subrange(0, 4) =~= self.buffer@.take(4));
            let length: u32 = read_u32(&self.buffer, 0);
            if (self.buffer.len() as u64) < length as u64 + 8 {
                assert(byte_views(responses@) + drain(
                    self.buffer@,
                    self.pending_padding as nat,
                ).responses =~= byte_views(responses@));
                return Ok(());
            }
            let kind: u32 = read_u32(&self.buffer, 4);
            let payload = copy_bytes(&self.buffer, 8, 8 + length as usize);
            let missing: usize = align_eight(length as usize);
            let held: usize = self.buffer.len() - (8 + length as usize);
            let consumed: usize = if missing <= held {
                8 + length as usize + missing
            } else {
                self.buffer.len()
            };
            let ghost before = self.buffer@;
            let ghost queue = byte_views(responses@);
            self.pending_padding = if missing <= held {
                0
            } else {
                missing - held
            };
            let rest = copy_bytes(&self.buffer, consumed, self.buffer.len());
            assert(rest@ =~= before.skip(consumed as int));
            self.buffer = rest;
            if kind == RCL_RESP {
                let ghost next = drain(self.buffer@, self.pending_padding as nat);
                assert(drain(before, 0).responses == seq![payload@] + next.responses);
                responses.push_back(payload);
                assert(byte_views(responses@) =~= queue.push(payload@));
                assert(queue + (seq![payload@] + next.responses) =~= queue.push(payload@)
                    + next.responses);
            } else if kind != RCL_NOTIFY {
                assert(queue + Seq::<Seq<u8>>::empty() =~= queue);
                return Err(Error::protocol("TCP packet contains invalid messagetype"));
            }
        }
    }
}

proof fn lemma_drain_more(buffer: Seq<u8>, pending: nat, more: Seq<u8>)
    requires
        pending > 0 ==> buffer.len() == 0,
        drain(buffer, pending).valid,
    ensures
        drain(buffer, pending).pending > 0 ==> drain(buffer, pending).buffer.len() == 0,
        ({
            let first = drain(buffer, pending);
            let second = received(first.buffer, first.pending, more);
            let whole = received(buffer, pending, more);
            &&& whole.buffer == second.buffer
            &&& whole.pending == second.pending
            &&& whole.valid == second.valid
            &&& whole.responses == first.responses + second.responses
        }),
    decreases buffer.len(),
{
    let first = drain(buffer, pending);
    let length = le_value(buffer.take(4));
    if buffer.len() < 8 || buffer.len() < length + 8 {
        let second = received(first.buffer, first.pending, more);
        assert(first.responses + second.responses =~= second.responses);
    } else {
        let all = buffer + more;
        assert(more.skip(0) =~= more);
        assert(all.take(4) =~= buffer.take(4));
        assert(all.subrange(4, 8) =~= buffer.subrange(4, 8));
        assert(all.subrange(8, 8 + length as int) =~= buffer.subrange(8, 8 + length as int));
        let whole = length + 8 + padding(length as int);
        let consumed = if whole <= buffer.len() {
            whole
        } else {
            buffer.len() as int
        };
        let rest = buffer.skip(consumed);
        let missing = (whole - consumed) as nat;
        lemma_drain_more(rest, missing, more);
        let skipped = if missing <= more.len() {
            missing as int
        } else {
            more.len() as int
        };
        let taken = if whole <= all.len() {
            whole
        } else {
            all.len() as int
        };
        assert(all.skip(taken) =~= rest + more.skip(skipped));
        let next = drain(rest, missing);
        let second = received(next.buffer, next.pending, more);
        assert(seq![buffer.subrange(8, 8 + length as int)] + (next.responses + second.responses)
            =~= (seq![buffer.subrange(8, 8 + length as int)] + next.responses) + second.responses);
    }
}

/// How the stream is cut into reads does not matter: as long as the first part is
/// well formed, feeding two parts one after the other leaves the decoder where
/// feeding them at once leaves it, and yields the same responses in the same
/// order.
pub proof fn reads_may_be_split(buffer: Seq<u8>, pending: nat, first: Seq<u8>, second: Seq<u8>)
    requires
        pending > 0 ==> buffer.len() == 0,
        received(buffer, pending, first).valid,
    ensures
        ({
            let one = received(buffer, pending, first);
            let two = received(one.buffer, one.pending, second);
            received(buffer, pending, first + second) == (Decoded {
                responses: one.responses + two.responses,
                ..two
            })
        }),
{
    let skipped = if pending <= first.len() {
        pending as int
    } else {
        first.len() as int
    };
    let held = buffer + first.skip(skipped);
    let left = (pending - skipped) as nat;
    lemma_drain_more(held, left, second);
    let all = first + second;
    let skipped_all = if pending <= all.len() {
        pending as int
    } else {
        all.len() as int
    };
    let skipped_second = if left <= second.len() {
        left as int
    } else {
        second.len() as int
    };
    assert(buffer + all.skip(skipped_all) =~= held + second.skip(skipped_second));
}

/// A response frame that arrives whole at an idle decoder is handed out as the
/// data that was put into it.
pub proof fn response_frame_is_decoded(data: Seq<u8>)
    requires
        data.len() < 0x1_0000_0000,
    ensures
        received(seq![], 0, frame_bytes(RCL_RESP, data)) == (Decoded {
            buffer: seq![],
            pending: 0,
            responses: seq![data],
            valid: true,
        }),
{
    let frame = frame_bytes(RCL_RESP, data);
    lemma_le_bytes_len(data.len(), 4);
    lemma_le_bytes_len(RCL_RESP as nat, 4);
    reveal_with_fuel(le_limit, 5);
    le_round_trip(data.len(), 4);
    le_round_trip(RCL_RESP as nat, 4);
    assert(seq![] + frame.skip(0) =~= frame);
    assert(frame.take(4) =~= le_bytes(data.len(), 4));
    assert(frame.subrange(4, 8) =~= le_bytes(RCL_RESP as nat, 4));
    assert(frame.subrange(8, 8 + data.len() as int) =~= data);
    assert(frame.skip(frame.len() as int) =~= seq![]);
    assert(drain(seq![], 0).responses =~= Seq::<Seq<u8>>::empty());
    assert(drain(frame, 0).responses =~= seq![data]);
}

/// The counter from which message numbers are taken.
#[derive(Debug, Clone, Copy, PartialEq, Eq)]
pub struct MessageId(pub u64);

impl Default for MessageId {
    fn default() -> (id: MessageId)
        ensures
            id.number() == 0,
    {
        MessageId(0)
    }
}

impl MessageId {
    /// The number of the answer that is expected next.
    pub open spec fn number(self) -> int {
        self.0 as int % 255
    }

    /// Advances, and returns the number of a new request. Numbers run from 0 to
    /// 254 and then start over.
    pub fn next(&mut self) -> (id: u8)
        ensures
            final(self).number() == (old(self).number() + 1) % 255,
            id == final(self).number(),
    {
        self.0 = self.0 % 255 + 1;
        self.current()
    }

    /// The number of the answer that is expected next.
    pub fn current(&self) -> (id: u8)
        ensures
            id == self.number(),
    {
        (self.0 % 255) as u8
    }
}

/// Looks for the answer to the request `expected`: empty messages, messages that
/// carry nothing and answers to earlier requests are passed over. Returns what
/// is left of the queue and the answer, if one was found.
pub open spec fn picked(queue: Seq<Seq<u8>>, expected: u8) -> (
    Seq<Seq<u8>>,
    Result<Option<Seq<u8>>, ErrorView>,
)
    decreases queue.len(),
{
    if queue.len() == 0 {
        (queue, Ok(None))
    } else {
        let message = queue[0];
        let rest = queue.skip(1);
        if message.len() == 0 || message[0] == KEEPALIVE {
            picked(rest, expected)
        } else if message.len() < 2 {
            (rest, Err(ErrorView::Protocol("response is too short"@)))
        } else if message[1] < expected {
            picked(rest, expected)
        } else if message[1] == expected {
            (rest, Ok(Some(message)))
        } else {
            (rest, Err(ErrorView::Connect("Messages out of sync, connection broken"@)))
        }
    }
}

/// Takes the answer to the request `expected` off the queue; `None` when it is
/// not there yet.
pub fn take_response(responses: &mut VecDeque<Vec<u8>>, expected: u8) -> (result: Result<
    Option<Vec<u8>>,
    Error,
>)
    ensures
        ({
            let (rest, outcome) = picked(byte_views(old(responses)@), expected);
            &&& byte_views(final(responses)@) == rest
            &&& match result {
                Ok(Some(message)) => outcome == Ok::<_, ErrorView>(Some(message@)),
                Ok(None) => outcome == Ok::<Option<Seq<u8>>, ErrorView>(None),
                Err(error) => outcome == Err::<Option<Seq<u8>>, _>(error@),
            }
        }),
{
    let ghost goal = picked(byte_views(responses@), expected);
    loop
        invariant
            goal == picked(byte_views(old(responses)@), expected),
            goal == picked(byte_views(responses@), expected),
        decreases responses@.len(),
    {
        let ghost before = byte_views(responses@);
        match responses.pop_front() {
            None => {
                return Ok(None);
            },
            Some(message) => {
                assert(before[0] == message@);
                assert(byte_views(responses@) =~= before.skip(1));
                if message.len() == 0 || message[0] == KEEPALIVE {
                } else if message.len() < 2 {
                    return Err(Error::protocol("response is too short"));
                } else if message[1] < expected {
                } else if message[1] == expected {
                    return Ok(Some(message));
                } else {
                    return Err(
                        Error::Connect("Messages out of sync, connection broken".to_owned()),
                    );
                }
            },
        }
    }
}

/// An answer that is handed out carries the number that was asked for.
pub proof fn answers_match_their_request(queue: Seq<Seq<u8>>, expected: u8)
    ensures
        picked(queue, expected).1 matches Ok(Some(message)) ==> message.len() >= 2 && message[1]
            == expected && message[0] != KEEPALIVE && queue.contains(message),
    decreases queue.len(),
{
    if queue.len() > 0 {
        answers_match_their_request(queue.skip(1), expected);
        assert(queue[0] == queue.first());
        assert forall|m: Seq<u8>| queue.skip(1).contains(m) implies queue.contains(m) by {
            let i = choose|i: int| 0 <= i < queue.skip(1).len() && queue.skip(1)[i] == m;
            assert(queue[i + 1] == m);
        }
    }
}

}
