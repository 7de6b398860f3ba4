//! A terminal on RTT channel 0 of the target, through a running PowerView.

use vstd::prelude::*;
use vstd::string::*;

use crate::bytes::{
    copy_bytes, le_bytes, le_limit, le_round_trip, le_value, lemma_le_bytes_len, push_bytes,
    read_u32,
};
use crate::config::{Config, ConfigView, Interval};
use crate::errors::BridgeError;
use crate::pycompat::{auto_value, parse_int_auto};
use crate::t32rcl::address::{Address, AddressView};
use crate::t32rcl::debugger::outcome_view;
use crate::t32rcl::error::{Error, ErrorView};
use crate::text::{
    chars_of, concat2, concat4, concat5, decimal, decimal_text, hex_padded, hex_text, string_of,
    to_uppercase, uppercase, zero_padded,
};

verus! {

/// The bytes that an initialised control block begins with: `SEGGER RTT`.
pub const ID_STRING: [u8; 10] = [0x53, 0x45, 0x47, 0x47, 0x45, 0x52, 0x20, 0x52, 0x54, 0x54];

/// Offset of the first up descriptor in the control block.
pub const UP_DESCRIPTOR: u64 = 0x18;

/// Offset of the first down descriptor, behind one up descriptor of 24 bytes.
pub const DOWN_DESCRIPTOR: u64 = 0x30;

/// Offset of the buffer address in a descriptor.
pub const DESC_BUFFER: u64 = 0x04;

/// Offset of the buffer size in a descriptor.
pub const DESC_SIZE: u64 = 0x08;

/// Offset of the write offset in a descriptor.
pub const DESC_WR_OFF: u64 = 0x0C;

/// Offset of the read offset in a descriptor.
pub const DESC_RD_OFF: u64 = 0x10;

/// One access to the memory of the target, and what came of it.
#[allow(inconsistent_fields)]
pub ghost enum Access {
    Read { address: u64, length: nat, outcome: Result<Seq<u8>, ErrorView> },
    Write { address: u64, data: Seq<u8>, outcome: Result<(), ErrorView> },
    WriteWord { address: u64, value: u32, outcome: Result<(), ErrorView> },
}

/// The content of the outcome of a write.
pub open spec fn unit_view(outcome: Result<(), Error>) -> Result<(), ErrorView> {
    match outcome {
        Ok(()) => Ok(()),
        Err(error) => Err(error@),
    }
}

/// Target memory as the channel sees it.
pub trait Memory: Sized {
    /// The accesses so far.
    open spec fn history(&self) -> Seq<Access> {
        arbitrary()
    }

    /// Reads bytes.
    fn read(&mut self, address: u64, length: usize) -> (outcome: Result<Vec<u8>, Error>)
        ensures
            final(self).history() == old(self).history().push(
                Access::Read { address, length: length as nat, outcome: outcome_view(outcome) },
            ),
    ;

    /// Writes bytes.
    fn write(&mut self, address: u64, data: &[u8]) -> (outcome: Result<(), Error>)
        ensures
            final(self).history() == old(self).history().push(
                Access::Write { address, data: data@, outcome: unit_view(outcome) },
            ),
    ;

    /// Writes a 32-bit number.
    fn write_u32(&mut self, address: u64, value: u32) -> (outcome: Result<(), Error>)
        ensures
            final(self).history() == old(self).history().push(
                Access::WriteWord { address, value, outcome: unit_view(outcome) },
            ),
    ;
}

/// The accesses that one call added to those before it.
pub open spec fn added(before: Seq<Access>, after: Seq<Access>) -> Seq<Access> {
    after.skip(before.len() as int)
}

/// An address for access while the target runs.
pub fn run_time(address: u64) -> (result: Address)
    ensures
        result@ == (AddressView { access: Some("E"@), value: address }),
{
    Address::new(Some("E"), address)
}

/// One ring buffer: where it lies, its size, and where the next byte is written
/// and read.
#[derive(Debug, Clone, Copy, PartialEq, Eq)]
pub struct Descriptor {
    pub buffer: u32,
    pub size: u32,
    pub write_offset: u32,
    pub read_offset: u32,
}

/// The ring buffer that sixteen bytes describe.
pub open spec fn descriptor_in(raw: Seq<u8>) -> Descriptor {
    Descriptor {
        buffer: le_value(raw.subrange(0, 4)) as u32,
        size: le_value(raw.subrange(4, 8)) as u32,
        write_offset: le_value(raw.subrange(8, 12)) as u32,
        read_offset: le_value(raw.subrange(12, 16)) as u32,
    }
}

impl Descriptor {
    /// Whether a buffer of at least two bytes is there and both offsets lie in it.
    pub open spec fn valid(self) -> bool {
        self.buffer != 0 && self.size >= 2 && self.write_offset < self.size && self.read_offset
            < self.size
    }

    /// Whether a buffer of at least two bytes is there and both offsets lie in it.
    pub fn is_valid(&self) -> (result: bool)
        ensures
            result == self.valid(),
    {
        self.buffer != 0 && self.size >= 2 && self.write_offset < self.size && self.read_offset
            < self.size
    }

    /// Takes a descriptor out of the bytes of a read.
    pub fn decode(outcome: Result<Vec<u8>, Error>) -> (result: Result<Descriptor, Error>)
        ensures
            match outcome_view(outcome) {
                Ok(raw) => if raw.len() < 16 {
                    result matches Err(error) && error@ == ErrorView::Protocol(
                        "short RTT descriptor read"@,
                    )
                } else {
                    result matches Ok(descriptor) && descriptor == descriptor_in(raw)
                },
                Err(e) => result matches Err(error) && error@ == e,
            },
    {
        match outcome {
            Ok(raw) => {
                if raw.len() < 16 {
                    return Err(Error::protocol("short RTT descriptor read"));
                }
                Ok(
                    Descriptor {
                        buffer: read_u32(&raw, 0),
                        size: read_u32(&raw, 4),
                        write_offset: read_u32(&raw, 8),
                        read_offset: read_u32(&raw, 12),
                    },
                )
            },
            Err(error) => Err(error),
        }
    }

    /// Reads a descriptor.
    pub fn read<M: Memory>(memory: &mut M, address: u64) -> (result: Result<Descriptor, Error>)
        ensures
            ({
                let steps = added(old(memory).history(), final(memory).history());
                &&& final(memory).history() == old(memory).history() + steps
                &&& steps.len() == 1
                &&& steps[0] matches Access::Read { address: a, length, outcome } && a == address
                    && length == 16 && (match outcome {
                    Ok(raw) => if raw.len() < 16 {
                        result matches Err(error) && error@ == ErrorView::Protocol(
                            "short RTT descriptor read"@,
                        )
                    } else {
                        result matches Ok(descriptor) && descriptor == descriptor_in(raw)
                    },
                    Err(e) => result matches Err(error) && error@ == e,
                })
            }),
    {
        let ghost before = memory.history();
        let outcome = memory.read(address, 16);
        assert(memory.history() =~= before + added(before, memory.history()));
        Descriptor::decode(outcome)
    }
}

/// An offset behind another in a control block.
pub open spec fn at_offset(control_block: u64, offset: int) -> u64 {
    ((control_block + offset) % 0x1_0000_0000_0000_0000) as u64
}

/// A channel whose control block is to be checked again.
pub open spec fn doubted(channel: RttChannel) -> RttChannel {
    RttChannel { initialized: false, ..channel }
}

/// The number after another, as long as there is one.
pub open spec fn one_more(errors: u64) -> u64 {
    if errors == u64::MAX {
        u64::MAX
    } else {
        (errors + 1) as u64
    }
}

/// RTT channel 0 in both directions.
#[derive(Debug, Clone, Copy, PartialEq, Eq)]
pub struct RttChannel {
    pub control_block: u64,
    pub initialized: bool,
}

/// Whether sixteen bytes begin an initialised control block.
pub open spec fn is_identifier(raw: Seq<u8>) -> bool {
    ID_STRING@.is_prefix_of(raw)
}

/// The pieces of the ring that hold the bytes to be read, in order: up to the end
/// of the buffer where the bytes wrap around, and up to the write offset.
pub open spec fn up_pieces(d: Descriptor) -> Seq<(u64, nat)> {
    if d.write_offset < d.read_offset {
        seq![((d.buffer + d.read_offset) as u64, (d.size - d.read_offset) as nat)] + (
        if d.write_offset > 0 {
            seq![(d.buffer as u64, d.write_offset as nat)]
        } else {
            seq![]
        })
    } else if d.write_offset > d.read_offset {
        seq![
            ((d.buffer + d.read_offset) as u64, (d.write_offset - d.read_offset) as nat),
        ]
    } else {
        seq![]
    }
}

/// Whether steps read pieces of memory one after the other and then publish a
/// read offset, and whether the result is all that was read, or the first error.
pub open spec fn drained(
    pieces: Seq<(u64, nat)>,
    data: Seq<u8>,
    offset_address: u64,
    offset: u32,
    steps: Seq<Access>,
    result: Result<Seq<u8>, ErrorView>,
) -> bool
    decreases pieces.len(),
{
    if pieces.len() == 0 {
        &&& steps.len() == 1
        &&& steps[0] matches Access::WriteWord { address, value, outcome } && address
            == offset_address && value == offset && (match outcome {
            Ok(()) => result == Ok::<_, ErrorView>(data),
            Err(e) => result == Err::<Seq<u8>, _>(e),
        })
    } else {
        &&& steps.len() > 0
        &&& steps[0] matches Access::Read { address, length, outcome } && address == pieces[0].0
            && length == pieces[0].1 && (match outcome {
            Ok(raw) => drained(
                pieces.skip(1),
                data + raw,
                offset_address,
                offset,
                steps.skip(1),
                result,
            ),
            Err(e) => steps.len() == 1 && result == Err::<Seq<u8>, _>(e),
        })
    }
}

/// Whether steps check the identifier, and what they find.
pub open spec fn identified(control_block: u64, steps: Seq<Access>) -> Option<
    Result<bool, ErrorView>,
> {
    if steps.len() == 0 {
        None
    } else {
        match steps[0] {
            Access::Read { address, length, outcome } => if address == at_offset(control_block, 0)
                && length == 16 {
                match outcome {
                    Ok(raw) => Some(Ok(is_identifier(raw))),
                    Err(e) => Some(Err(e)),
                }
            } else {
                None
            },
            _ => None,
        }
    }
}

/// Whether steps empty the up channel of an initialised control block.
pub open spec fn up_read(
    control_block: u64,
    steps: Seq<Access>,
    initialized: bool,
    result: Result<Seq<u8>, ErrorView>,
) -> bool {
    &&& steps.len() > 0
    &&& steps[0] matches Access::Read { address, length, outcome } && address == at_offset(
        control_block,
        UP_DESCRIPTOR + DESC_BUFFER,
    ) && length == 16 && (match outcome {
        Err(e) => steps.len() == 1 && initialized && result == Err::<Seq<u8>, _>(e),
        Ok(raw) => if raw.len() < 16 {
            steps.len() == 1 && initialized && result == Err::<Seq<u8>, _>(
                ErrorView::Protocol("short RTT descriptor read"@),
            )
        } else {
            let d = descriptor_in(raw);
            if !d.valid() {
                steps.len() == 1 && !initialized && result == Ok::<Seq<u8>, ErrorView>(seq![])
            } else if d.write_offset == d.read_offset {
                steps.len() == 1 && initialized && result == Ok::<Seq<u8>, ErrorView>(seq![])
            } else {
                initialized && drained(
                    up_pieces(d),
                    seq![],
                    at_offset(control_block, UP_DESCRIPTOR + DESC_RD_OFF),
                    d.write_offset,
                    steps.skip(1),
                    result,
                )
            }
        },
    })
}

/// Whether steps are those of reading the up channel: the control block is
/// checked first unless it was found initialised before.
pub open spec fn up_steps(
    channel: RttChannel,
    steps: Seq<Access>,
    after: RttChannel,
    result: Result<Seq<u8>, ErrorView>,
) -> bool {
    &&& after.control_block == channel.control_block
    &&& if channel.initialized {
        up_read(channel.control_block, steps, after.initialized, result)
    } else {
        match identified(channel.control_block, steps) {
            None => false,
            Some(Err(e)) => steps.len() == 1 && !after.initialized && result == Err::<Seq<u8>, _>(
                e,
            ),
            Some(Ok(false)) => steps.len() == 1 && !after.initialized && result == Ok::<
                Seq<u8>,
                ErrorView,
            >(seq![]),
            Some(Ok(true)) => up_read(
                channel.control_block,
                steps.skip(1),
                after.initialized,
                result,
            ),
        }
    }
}

/// An offset that has run past the end of a ring at most once.
pub open spec fn wrapped(offset: int, size: int) -> int {
    if offset >= size {
        offset - size
    } else {
        offset
    }
}

/// How many bytes fit into a ring; one place always stays empty.
pub open spec fn free_space(d: Descriptor) -> int {
    wrapped(d.read_offset + d.size - d.write_offset - 1, d.size as int)
}

/// How many of `length` bytes are written.
pub open spec fn accepted(d: Descriptor, length: nat) -> int {
    if length <= free_space(d) {
        length as int
    } else {
        free_space(d)
    }
}

/// How many of `count` bytes fit before the end of the buffer.
pub open spec fn before_end(d: Descriptor, count: int) -> int {
    if count <= d.size - d.write_offset {
        count
    } else {
        d.size - d.write_offset
    }
}

/// Whether steps write `count` bytes into a ring, in one or two pieces, and then
/// publish the write offset, stopping at the first error.
pub open spec fn filled(
    control_block: u64,
    d: Descriptor,
    data: Seq<u8>,
    count: int,
    steps: Seq<Access>,
    result: Result<nat, ErrorView>,
) -> bool {
    let first = before_end(d, count);
    &&& steps.len() > 0
    &&& steps[0] matches Access::Write { address, data: piece, outcome } && address == (d.buffer
        + d.write_offset) && piece == data.take(first) && (match outcome {
        Err(e) => steps.len() == 1 && result == Err::<nat, _>(e),
        Ok(()) => if count > first {
            &&& steps.len() > 1
            &&& steps[1] matches Access::Write { address, data: piece, outcome } && address
                == d.buffer && piece == data.subrange(first, count) && (match outcome {
                Err(e) => steps.len() == 2 && result == Err::<nat, _>(e),
                Ok(()) => published(control_block, d, count, steps.skip(2), result),
            })
        } else {
            published(control_block, d, count, steps.skip(1), result)
        },
    })
}

/// Whether the one step publishes the write offset.
pub open spec fn published(
    control_block: u64,
    d: Descriptor,
    count: int,
    steps: Seq<Access>,
    result: Result<nat, ErrorView>,
) -> bool {
    &&& steps.len() == 1
    &&& steps[0] matches Access::WriteWord { address, value, outcome } && address == at_offset(
        control_block,
        DOWN_DESCRIPTOR + DESC_WR_OFF,
    ) && value == wrapped(d.write_offset + count, d.size as int) && (match outcome {
        Ok(()) => result == Ok::<_, ErrorView>(count as nat),
        Err(e) => result == Err::<nat, _>(e),
    })
}

/// Whether steps fill the down channel of an initialised control block.
pub open spec fn down_write(
    control_block: u64,
    data: Seq<u8>,
    steps: Seq<Access>,
    initialized: bool,
    result: Result<nat, ErrorView>,
) -> bool {
    &&& steps.len() > 0
    &&& steps[0] matches Access::Read { address, length, outcome } && address == at_offset(
        control_block,
        DOWN_DESCRIPTOR + DESC_BUFFER,
    ) && length == 16 && (match outcome {
        Err(e) => steps.len() == 1 && initialized && result == Err::<nat, _>(e),
        Ok(raw) => if raw.len() < 16 {
            steps.len() == 1 && initialized && result == Err::<nat, _>(
                ErrorView::Protocol("short RTT descriptor read"@),
            )
        } else {
            let d = descriptor_in(raw);
            if !d.valid() {
                steps.len() == 1 && !initialized && result == Ok::<nat, ErrorView>(0)
            } else if accepted(d, data.len()) == 0 {
                steps.len() == 1 && initialized && result == Ok::<nat, ErrorView>(0)
            } else {
                initialized && filled(
                    control_block,
                    d,
                    data,
                    accepted(d, data.len()),
                    steps.skip(1),
                    result,
                )
            }
        },
    })
}

/// Whether steps are those of writing the down channel.
pub open spec fn down_steps(
    channel: RttChannel,
    data: Seq<u8>,
    steps: Seq<Access>,
    after: RttChannel,
    result: Result<nat, ErrorView>,
) -> bool {
    &&& after.control_block == channel.control_block
    &&& if data.len() == 0 {
        steps.len() == 0 && after.initialized == channel.initialized && result == Ok::<
            nat,
            ErrorView,
        >(0)
    } else if channel.initialized {
        down_write(channel.control_block, data, steps, after.initialized, result)
    } else {
        match identified(channel.control_block, steps) {
            None => false,
            Some(Err(e)) => steps.len() == 1 && !after.initialized && result == Err::<nat, _>(e),
            Some(Ok(false)) => steps.len() == 1 && !after.initialized && result == Ok::<
                nat,
                ErrorView,
            >(0),
            Some(Ok(true)) => down_write(
                channel.control_block,
                data,
                steps.skip(1),
                after.initialized,
                result,
            ),
        }
    }
}

/// The content of the outcome of a count.
pub open spec fn count_view(outcome: Result<usize, Error>) -> Result<nat, ErrorView> {
    match outcome {
        Ok(count) => Ok(count as nat),
        Err(error) => Err(error@),
    }
}

fn begins_with_id(raw: &Vec<u8>) -> (result: bool)
    ensures
        result == is_identifier(raw@),
{
    let id: [u8; 10] = ID_STRING;
    if raw.len() < 10 {
        return false;
    }
    let mut i: usize = 0;
    while i < 10
        invariant
            i <= 10,
            raw@.len() >= 10,
            id@ == ID_STRING@,
            id@.len() == 10,
            forall|j: int| 0 <= j < i ==> raw@[j] == id@[j],
        decreases 10 - i,
    {
        if raw[i] != id[i] {
            assert(raw@.subrange(0, 10)[i as int] != ID_STRING@[i as int]);
            return false;
        }
        i = i + 1;
    }
    assert(raw@.subrange(0, 10) =~= ID_STRING@);
    true
}

impl RttChannel {
    /// A channel whose control block has not been looked at.
    pub fn new(control_block: u64) -> (channel: RttChannel)
        ensures
            channel == (RttChannel { control_block, initialized: false }),
    {
        RttChannel { control_block, initialized: false }
    }

    /// The address at an offset in the control block.
    pub fn cb(&self, offset: u64) -> (address: u64)
        ensures
            address == at_offset(self.control_block, offset as int),
    {
        self.control_block.wrapping_add(offset)
    }

    /// Checks whether the control block begins with the identifier.
    pub fn refresh_state<M: Memory>(&mut self, memory: &mut M) -> (result: Result<bool, Error>)
        ensures
            ({
                let steps = added(old(memory).history(), final(memory).history());
                &&& final(memory).history() == old(memory).history() + steps
                &&& steps.len() == 1
                &&& final(self).control_block == old(self).control_block
                &&& match identified(old(self).control_block, steps) {
                    None => false,
                    Some(Ok(found)) => (result matches Ok(answer) && answer == found)
                        && final(self).initialized == found,
                    Some(Err(e)) => (result matches Err(error) && error@ == e)
                        && final(self).initialized == old(self).initialized,
                }
            }),
    {
        let ghost before = memory.history();
        let outcome = memory.read(self.cb(0), 16);
        assert(memory.history() =~= before + added(before, memory.history()));
        match outcome {
            Ok(identifier) => {
                self.initialized = begins_with_id(&identifier);
                Ok(self.initialized)
            },
            Err(error) => Err(error),
        }
    }

    /// Reads a ring up to its write offset and publishes the read offset.
    fn drain_up<M: Memory>(&self, memory: &mut M, d: Descriptor) -> (result: Result<
        Vec<u8>,
        Error,
    >)
        requires
            d.valid(),
            d.write_offset != d.read_offset,
        ensures
            ({
                let steps = added(old(memory).history(), final(memory).history());
                &&& final(memory).history() == old(memory).history() + steps
                &&& drained(
                    up_pieces(d),
                    seq![],
                    at_offset(self.control_block, UP_DESCRIPTOR + DESC_RD_OFF),
                    d.write_offset,
                    steps,
                    outcome_view(result),
                )
            }),
    {
        let ghost start = memory.history();
        let ghost pieces = up_pieces(d);
        let ghost target = at_offset(self.control_block, UP_DESCRIPTOR + DESC_RD_OFF);
        let wraps = d.write_offset < d.read_offset;
        let first: u32 = if wraps {
            d.size - d.read_offset
        } else {
            d.write_offset - d.read_offset
        };
        let mut data: Vec<u8> = Vec::new();
        let outcome = memory.read(d.buffer as u64 + d.read_offset as u64, first as usize);
        let ghost one = memory.history();
        assert(one =~= start + added(start, one));
        assert(pieces.len() > 0);
        match outcome {
            Ok(piece) => {
                push_bytes(&mut data, &piece);
                assert(data@ =~= seq![] + piece@);
            },
            Err(error) => {
                return Err(error);
            },
        }
        let ghost first_data = data@;
        if wraps && d.write_offset > 0 {
            assert(pieces.skip(1) =~= seq![(d.buffer as u64, d.write_offset as nat)]);
            assert(pieces.skip(1).skip(1) =~= seq![]);
            let outcome = memory.read(d.buffer as u64, d.write_offset as usize);
            let ghost two = memory.history();
            assert(two =~= start + added(start, two));
            assert(added(start, two).skip(1) =~= added(one, two));
            match outcome {
                Ok(piece) => {
                    push_bytes(&mut data, &piece);
                    assert(data@ == first_data + piece@);
                },
                Err(error) => {
                    assert(drained(
                        pieces.skip(1),
                        first_data,
                        target,
                        d.write_offset,
                        added(start, two).skip(1),
                        Err(error@),
                    ));
                    return Err(error);
                },
            }
            let outcome = memory.write_u32(self.cb(UP_DESCRIPTOR + DESC_RD_OFF), d.write_offset);
            let ghost three = memory.history();
            assert(three =~= start + added(start, three));
            let ghost steps = added(start, three);
            assert(steps.skip(1).skip(1) =~= seq![three.last()]);
            assert(steps[0] == one.last());
            assert(steps.skip(1)[0] == two.last());
            let result = match outcome {
                Ok(()) => Ok(data),
                Err(error) => Err(error),
            };
            assert(drained(
                pieces.skip(1).skip(1),
                data@,
                target,
                d.write_offset,
                steps.skip(1).skip(1),
                outcome_view(result),
            ));
            assert(drained(
                pieces.skip(1),
                first_data,
                target,
                d.write_offset,
                steps.skip(1),
                outcome_view(result),
            ));
            result
        } else {
            assert(pieces.skip(1) =~= seq![]);
            let outcome = memory.write_u32(self.cb(UP_DESCRIPTOR + DESC_RD_OFF), d.write_offset);
            let ghost two = memory.history();
            assert(two =~= start + added(start, two));
            let ghost steps = added(start, two);
            assert(steps.skip(1) =~= seq![two.last()]);
            assert(steps[0] == one.last());
            let result = match outcome {
                Ok(()) => Ok(data),
                Err(error) => Err(error),
            };
            assert(drained(
                pieces.skip(1),
                data@,
                target,
                d.write_offset,
                steps.skip(1),
                outcome_view(result),
            ));
            result
        }
    }

    /// Empties the up channel of an initialised control block.
    fn read_initialized<M: Memory>(&mut self, memory: &mut M) -> (result: Result<Vec<u8>, Error>)
        requires
            old(self).initialized,
        ensures
            ({
                let steps = added(old(memory).history(), final(memory).history());
                &&& final(memory).history() == old(memory).history() + steps
                &&& final(self).control_block == old(self).control_block
                &&& up_read(
                    old(self).control_block,
                    steps,
                    final(self).initialized,
                    outcome_view(result),
                )
            }),
    {
        let ghost start = memory.history();
        let d = match Descriptor::read(memory, self.cb(UP_DESCRIPTOR + DESC_BUFFER)) {
            Ok(d) => d,
            Err(error) => {
                return Err(error);
            },
        };
        let ghost one = memory.history();
        if !d.is_valid() {
            self.initialized = false;
            let none: Vec<u8> = Vec::new();
            assert(none@ =~= seq![]);
            return Ok(none);
        }
        if d.write_offset == d.read_offset {
            let none: Vec<u8> = Vec::new();
            assert(none@ =~= seq![]);
            return Ok(none);
        }
        let result = self.drain_up(memory, d);
        proof {
            let all = memory.history();
            assert(all =~= start + added(start, all));
            assert(added(start, all).skip(1) =~= added(one, all));
            assert(added(start, all)[0] == added(start, one)[0]);
        }
        result
    }

    /// Takes the bytes that the target has ready, in both halves of the ring
    /// where they wrap around.
    pub fn read_up<M: Memory>(&mut self, memory: &mut M) -> (result: Result<Vec<u8>, Error>)
        ensures
            final(memory).history() == old(memory).history() + added(
                old(memory).history(),
                final(memory).history(),
            ),
            up_steps(
                *old(self),
                added(old(memory).history(), final(memory).history()),
                *final(self),
                outcome_view(result),
            ),
    {
        let ghost start = memory.history();
        if !self.initialized {
            match self.refresh_state(memory) {
                Ok(found) => {
                    if !found {
                        let none: Vec<u8> = Vec::new();
                        assert(none@ =~= seq![]);
                        return Ok(none);
                    }
                },
                Err(error) => {
                    return Err(error);
                },
            }
            let ghost one = memory.history();
            let result = self.read_initialized(memory);
            proof {
                let all = memory.history();
                assert(all =~= start + added(start, all));
                assert(added(start, all).skip(1) =~= added(one, all));
                assert(added(start, all)[0] == added(start, one)[0]);
            }
            return result;
        }
        self.read_initialized(memory)
    }

    /// Writes bytes into a ring and publishes the write offset last.
    fn fill_down<M: Memory>(&self, memory: &mut M, d: Descriptor, data: &[u8], count: usize) -> (
        result: Result<usize, Error>)
        requires
            d.valid(),
            0 < count == accepted(d, data@.len()),
            count <= data@.len(),
        ensures
            ({
                let steps = added(old(memory).history(), final(memory).history());
                &&& final(memory).history() == old(memory).history() + steps
                &&& filled(
                    self.control_block,
                    d,
                    data@,
                    count as int,
                    steps,
                    count_view(result),
                )
            }),
    {
        let ghost start = memory.history();
        let room: usize = (d.size - d.write_offset) as usize;
        let first: usize = if count <= room {
            count
        } else {
            room
        };
        let head = copy_bytes(data, 0, first);
        assert(head@ =~= data@.take(first as int));
        let outcome = memory.write(d.buffer as u64 + d.write_offset as u64, &head);
        let ghost one = memory.history();
        assert(one =~= start + added(start, one));
        match outcome {
            Ok(()) => {},
            Err(error) => {
                return Err(error);
            },
        }
        let end: u64 = d.write_offset as u64 + count as u64;
        let offset: u32 = if end >= d.size as u64 {
            (end - d.size as u64) as u32
        } else {
            end as u32
        };
        if count > first {
            let tail = copy_bytes(data, first, count);
            let outcome = memory.write(d.buffer as u64, &tail);
            let ghost two = memory.history();
            assert(two =~= start + added(start, two));
            assert(added(start, two)[0] == one.last());
            assert(added(start, two)[1] == two.last());
            match outcome {
                Ok(()) => {},
                Err(error) => {
                    return Err(error);
                },
            }
            let outcome = memory.write_u32(self.cb(DOWN_DESCRIPTOR + DESC_WR_OFF), offset);
            proof {
                let all = memory.history();
                assert(all =~= start + added(start, all));
                assert(added(start, all).skip(2) =~= seq![all.last()]);
                assert(added(start, all)[0] == one.last());
                assert(added(start, all)[1] == two.last());
            }
            match outcome {
                Ok(()) => Ok(count),
                Err(error) => Err(error),
            }
        } else {
            let outcome = memory.write_u32(self.cb(DOWN_DESCRIPTOR + DESC_WR_OFF), offset);
            proof {
                let all = memory.history();
                assert(all =~= start + added(start, all));
                assert(added(start, all).skip(1) =~= seq![all.last()]);
                assert(added(start, all)[0] == one.last());
            }
            match outcome {
                Ok(()) => Ok(count),
                Err(error) => Err(error),
            }
        }
    }

    /// Fills the down channel of an initialised control block.
    fn write_initialized<M: Memory>(&mut self, memory: &mut M, data: &[u8]) -> (result: Result<
        usize,
        Error,
    >)
        requires
            old(self).initialized,
        ensures
            ({
                let steps = added(old(memory).history(), final(memory).history());
                &&& final(memory).history() == old(memory).history() + steps
                &&& final(self).control_block == old(self).control_block
                &&& down_write(
                    old(self).control_block,
                    data@,
                    steps,
                    final(self).initialized,
                    count_view(result),
                )
            }),
    {
        let ghost start = memory.history();
        let d = match Descriptor::read(memory, self.cb(DOWN_DESCRIPTOR + DESC_BUFFER)) {
            Ok(d) => d,
            Err(error) => {
                return Err(error);
            },
        };
        let ghost one = memory.history();
        if !d.is_valid() {
            self.initialized = false;
            return Ok(0);
        }
        let distance: u64 = d.read_offset as u64 + d.size as u64 - d.write_offset as u64 - 1;
        let free: u64 = if distance >= d.size as u64 {
            distance - d.size as u64
        } else {
            distance
        };
        let count: usize = if data.len() as u64 <= free {
            data.len()
        } else {
            free as usize
        };
        if count == 0 {
            return Ok(0);
        }
        let result = self.fill_down(memory, d, data, count);
        proof {
            let all = memory.history();
            assert(all =~= start + added(start, all));
            assert(added(start, all).skip(1) =~= added(one, all));
            assert(added(start, all)[0] == added(start, one)[0]);
        }
        result
    }

    /// Writes as much of `data` as fits; returns the number of bytes written.
    pub fn write_down<M: Memory>(&mut self, memory: &mut M, data: &[u8]) -> (result: Result<
        usize,
        Error,
    >)
        ensures
            final(memory).history() == old(memory).history() + added(
                old(memory).history(),
                final(memory).history(),
            ),
            down_steps(
                *old(self),
                data@,
                added(old(memory).history(), final(memory).history()),
                *final(self),
                count_view(result),
            ),
    {
        let ghost start = memory.history();
        assert(start =~= start + added(start, start));
        if data.len() == 0 {
            return Ok(0);
        }
        if !self.initialized {
            match self.refresh_state(memory) {
                Ok(found) => {
                    if !found {
                        return Ok(0);
                    }
                },
                Err(error) => {
                    return Err(error);
                },
            }
            let ghost one = memory.history();
            let result = self.write_initialized(memory, data);
            proof {
                let all = memory.history();
                assert(all =~= start + added(start, all));
                assert(added(start, all).skip(1) =~= added(one, all));
                assert(added(start, all)[0] == added(start, one)[0]);
            }
            return result;
        }
        self.write_initialized(memory, data)
    }
}

/// How many bytes of a ring are still to be read.
pub open spec fn unread(d: Descriptor) -> int {
    wrapped(d.write_offset + d.size - d.read_offset, d.size as int)
}

/// `count` bytes of a ring from an offset on.
pub open spec fn ring_from(ring: Seq<u8>, from: int, count: int) -> Seq<u8> {
    Seq::new(count as nat, |i: int| ring[wrapped(from + i, ring.len() as int)])
}

/// The bytes of a memory from an address on.
pub open spec fn bytes_at(memory: spec_fn(int) -> u8, address: int, length: nat) -> Seq<u8> {
    Seq::new(length, |i: int| memory(address + i))
}

/// A memory after bytes were stored at an address.
pub open spec fn stored(memory: spec_fn(int) -> u8, address: int, data: Seq<u8>) -> spec_fn(
    int,
) -> u8 {
    |a: int|
        if address <= a < address + data.len() {
            data[a - address]
        } else {
            memory(a)
        }
}

/// A memory after one access.
pub open spec fn memory_next(memory: spec_fn(int) -> u8, step: Access) -> spec_fn(int) -> u8 {
    match step {
        Access::Read { address, length, outcome } => memory,
        Access::Write { address, data, outcome } => stored(memory, address as int, data),
        Access::WriteWord { address, value, outcome } => stored(
            memory,
            address as int,
            le_bytes(value as nat, 4),
        ),
    }
}

/// A memory after accesses that succeeded.
pub open spec fn memory_after(memory: spec_fn(int) -> u8, steps: Seq<Access>) -> spec_fn(
    int,
) -> u8
    decreases steps.len(),
{
    if steps.len() == 0 {
        memory
    } else {
        memory_after(memory_next(memory, steps[0]), steps.skip(1))
    }
}

/// Whether an access, where it is a read that succeeded, found what a memory holds.
pub open spec fn found(step: Access, memory: spec_fn(int) -> u8) -> bool {
    step matches Access::Read { address, length, outcome } ==> outcome matches Ok(raw) ==> raw
        == bytes_at(memory, address as int, length)
}

/// The ring that a memory describes at an offset in a control block.
pub open spec fn ring_at(memory: spec_fn(int) -> u8, control_block: u64, offset: int) -> Descriptor {
    descriptor_in(bytes_at(memory, control_block + offset + DESC_BUFFER, 16))
}

/// The bytes of a ring that are still to be read, in order.
pub open spec fn waiting(memory: spec_fn(int) -> u8, d: Descriptor) -> Seq<u8> {
    ring_from(bytes_at(memory, d.buffer as int, d.size as nat), d.read_offset as int, unread(d))
}

/// Whether a control block lies inside the address space and the channel has been
/// found initialised, or will be.
pub open spec fn is_ready(channel: RttChannel, memory: spec_fn(int) -> u8) -> bool {
    &&& channel.control_block + DOWN_DESCRIPTOR + 24 <= u64::MAX
    &&& channel.initialized || is_identifier(bytes_at(memory, channel.control_block as int, 16))
}

/// Whether the buffer of a ring does not lie over the control block.
pub open spec fn is_apart(d: Descriptor, control_block: u64) -> bool {
    d.buffer + d.size <= control_block || control_block + DOWN_DESCRIPTOR + 24 <= d.buffer
}

proof fn lemma_stored_apart(
    memory: spec_fn(int) -> u8,
    at: int,
    data: Seq<u8>,
    address: int,
    length: nat,
)
    requires
        at + data.len() <= address || address + length <= at,
    ensures
        bytes_at(stored(memory, at, data), address, length) == bytes_at(memory, address, length),
{
    assert(bytes_at(stored(memory, at, data), address, length) =~= bytes_at(
        memory,
        address,
        length,
    ));
}

proof fn lemma_offset_stored(memory: spec_fn(int) -> u8, base: int, value: u32)
    ensures
        ({
            let d = descriptor_in(bytes_at(memory, base, 16));
            let word = le_bytes(value as nat, 4);
            &&& descriptor_in(bytes_at(stored(memory, base + 8, word), base, 16)) == (Descriptor {
                write_offset: value,
                ..d
            })
            &&& descriptor_in(bytes_at(stored(memory, base + 12, word), base, 16)) == (Descriptor {
                read_offset: value,
                ..d
            })
        }),
{
    let word = le_bytes(value as nat, 4);
    lemma_le_bytes_len(value as nat, 4);
    reveal_with_fuel(le_limit, 5);
    le_round_trip(value as nat, 4);
    let before = bytes_at(memory, base, 16);
    let w = bytes_at(stored(memory, base + 8, word), base, 16);
    let r = bytes_at(stored(memory, base + 12, word), base, 16);
    assert(w.subrange(0, 4) =~= before.subrange(0, 4));
    assert(w.subrange(4, 8) =~= before.subrange(4, 8));
    assert(w.subrange(8, 12) =~= word);
    assert(w.subrange(12, 16) =~= before.subrange(12, 16));
    assert(r.subrange(0, 4) =~= before.subrange(0, 4));
    assert(r.subrange(4, 8) =~= before.subrange(4, 8));
    assert(r.subrange(8, 12) =~= before.subrange(8, 12));
    assert(r.subrange(12, 16) =~= word);
}

proof fn lemma_drained(
    memory: spec_fn(int) -> u8,
    d: Descriptor,
    target: u64,
    steps: Seq<Access>,
    data: Seq<u8>,
)
    requires
        d.valid(),
        d.write_offset != d.read_offset,
        drained(up_pieces(d), seq![], target, d.write_offset, steps, Ok(data)),
        forall|i: int| 0 <= i < steps.len() ==> found(#[trigger] steps[i], memory),
    ensures
        data == waiting(memory, d),
        memory_after(memory, steps) == stored(
            memory,
            target as int,
            le_bytes(d.write_offset as nat, 4),
        ),
{
    let pieces = up_pieces(d);
    let rest = steps.skip(1);
    assert(found(steps[0], memory));
    let raw = steps[0]->Read_outcome->Ok_0;
    assert(drained(pieces.skip(1), seq![] + raw, target, d.write_offset, rest, Ok(data)));
    assert(seq![] + raw =~= raw);
    assert(memory_after(memory, steps) == memory_after(memory, rest));
    if d.write_offset < d.read_offset && d.write_offset > 0 {
        assert(pieces.skip(1) =~= seq![(d.buffer as u64, d.write_offset as nat)]);
        assert(rest[0] == steps[1]);
        assert(found(steps[1], memory));
        let more = rest[0]->Read_outcome->Ok_0;
        assert(pieces.skip(1).skip(1) =~= seq![]);
        let last = rest.skip(1);
        assert(drained(
            pieces.skip(1).skip(1),
            raw + more,
            target,
            d.write_offset,
            last,
            Ok(data),
        ));
        assert(data == raw + more);
        assert(data =~= waiting(memory, d));
        assert(memory_after(memory, rest) == memory_after(memory, last));
        assert(memory_after(memory_next(memory, last[0]), last.skip(1)) == memory_next(
            memory,
            last[0],
        ));
    } else {
        assert(pieces.skip(1) =~= seq![]);
        assert(data == raw);
        assert(data =~= waiting(memory, d));
        assert(memory_after(memory_next(memory, rest[0]), rest.skip(1)) == memory_next(
            memory,
            rest[0],
        ));
    }
}

/// Reading the up channel gives what the target has written and nobody has read
/// yet, in order, and leaves nothing to be read.
pub proof fn up_read_gives_waiting_bytes(
    channel: RttChannel,
    memory: spec_fn(int) -> u8,
    steps: Seq<Access>,
    after: RttChannel,
    data: Seq<u8>,
)
    requires
        up_steps(channel, steps, after, Ok(data)),
        forall|i: int| 0 <= i < steps.len() ==> found(#[trigger] steps[i], memory),
        is_ready(channel, memory),
        ring_at(memory, channel.control_block, UP_DESCRIPTOR as int).valid(),
    ensures
        ({
            let d = ring_at(memory, channel.control_block, UP_DESCRIPTOR as int);
            let e = ring_at(
                memory_after(memory, steps),
                channel.control_block,
                UP_DESCRIPTOR as int,
            );
            &&& data == waiting(memory, d)
            &&& e == (Descriptor { read_offset: d.write_offset, ..d })
            &&& waiting(memory_after(memory, steps), e) == Seq::<u8>::empty()
        }),
{
    let cb = channel.control_block;
    let d = ring_at(memory, cb, UP_DESCRIPTOR as int);
    let work = if channel.initialized {
        steps
    } else {
        steps.skip(1)
    };
    let rest = work.skip(1);
    assert(found(steps[0], memory));
    assert(work[0] == steps[steps.len() - work.len()]);
    assert(found(work[0], memory));
    assert(memory_after(memory, steps) == memory_after(memory, work));
    assert(memory_after(memory, work) == memory_after(memory, rest));
    if d.write_offset == d.read_offset {
        assert(waiting(memory, d) =~= Seq::<u8>::empty());
    } else {
        assert forall|i: int| 0 <= i < rest.len() implies found(#[trigger] rest[i], memory) by {
            assert(rest[i] == steps[steps.len() - rest.len() + i]);
        }
        let target = at_offset(cb, UP_DESCRIPTOR + DESC_RD_OFF);
        lemma_drained(memory, d, target, rest, data);
        lemma_offset_stored(memory, cb + UP_DESCRIPTOR + DESC_BUFFER, d.write_offset);
        let e = ring_at(memory_after(memory, steps), cb, UP_DESCRIPTOR as int);
        assert(waiting(memory_after(memory, steps), e) =~= Seq::<u8>::empty());
    }
}

/// A memory after bytes were written into a ring, in one piece or two.
spec fn ring_filled(
    memory: spec_fn(int) -> u8,
    d: Descriptor,
    data: Seq<u8>,
    count: int,
) -> spec_fn(int) -> u8 {
    let first = before_end(d, count);
    let one = stored(memory, d.buffer + d.write_offset, data.take(first));
    if count > first {
        stored(one, d.buffer as int, data.subrange(first, count))
    } else {
        one
    }
}

proof fn lemma_filled(
    memory: spec_fn(int) -> u8,
    control_block: u64,
    d: Descriptor,
    data: Seq<u8>,
    count: nat,
    steps: Seq<Access>,
)
    requires
        filled(control_block, d, data, count as int, steps, Ok(count)),
    ensures
        memory_after(memory, steps) == stored(
            ring_filled(memory, d, data, count as int),
            at_offset(control_block, DOWN_DESCRIPTOR + DESC_WR_OFF) as int,
            le_bytes(wrapped(d.write_offset + count, d.size as int) as nat, 4),
        ),
{
    let first = before_end(d, count as int);
    let one = memory_next(memory, steps[0]);
    let rest = steps.skip(1);
    if count > first {
        let two = memory_next(one, steps[1]);
        let last = rest.skip(1);
        assert(rest[0] == steps[1]);
        assert(last =~= steps.skip(2));
        assert(memory_after(memory_next(two, last[0]), last.skip(1)) == memory_next(two, last[0]));
        assert(memory_after(two, last) == memory_next(two, last[0]));
        assert(memory_after(one, rest) == memory_next(two, last[0]));
    } else {
        assert(memory_after(memory_next(one, rest[0]), rest.skip(1)) == memory_next(one, rest[0]));
        assert(memory_after(one, rest) == memory_next(one, rest[0]));
    }
}

proof fn lemma_ring_filled(
    memory: spec_fn(int) -> u8,
    d: Descriptor,
    data: Seq<u8>,
    count: nat,
    address: int,
    length: nat,
)
    requires
        d.valid(),
        0 < count == accepted(d, data.len()),
        d.buffer + d.size <= address || address + length <= d.buffer,
    ensures
        bytes_at(ring_filled(memory, d, data, count as int), address, length) == bytes_at(
            memory,
            address,
            length,
        ),
        ({
            let e = Descriptor {
                write_offset: wrapped(d.write_offset + count, d.size as int) as u32,
                ..d
            };
            waiting(ring_filled(memory, d, data, count as int), e) == waiting(memory, d)
                + data.take(count as int)
        }),
{
    let after = ring_filled(memory, d, data, count as int);
    let e = Descriptor {
        write_offset: wrapped(d.write_offset + count, d.size as int) as u32,
        ..d
    };
    assert(bytes_at(after, address, length) =~= bytes_at(memory, address, length));
    assert(unread(e) == unread(d) + count);
    assert(waiting(after, e) =~= waiting(memory, d) + data.take(count as int));
}

/// Writing the down channel appends to what the target has not read yet: as many
/// bytes of the data as fit follow those that were waiting, and one place of the
/// ring stays empty.
pub proof fn down_write_appends(
    channel: RttChannel,
    memory: spec_fn(int) -> u8,
    data: Seq<u8>,
    steps: Seq<Access>,
    after: RttChannel,
    sent: nat,
)
    requires
        down_steps(channel, data, steps, after, Ok(sent)),
        forall|i: int| 0 <= i < steps.len() ==> found(#[trigger] steps[i], memory),
        is_ready(channel, memory),
        ring_at(memory, channel.control_block, DOWN_DESCRIPTOR as int).valid(),
        is_apart(
            ring_at(memory, channel.control_block, DOWN_DESCRIPTOR as int),
            channel.control_block,
        ),
    ensures
        ({
            let d = ring_at(memory, channel.control_block, DOWN_DESCRIPTOR as int);
            let e = ring_at(
                memory_after(memory, steps),
                channel.control_block,
                DOWN_DESCRIPTOR as int,
            );
            &&& sent == accepted(d, data.len())
            &&& waiting(memory_after(memory, steps), e) == waiting(memory, d) + data.take(
                sent as int,
            )
            &&& waiting(memory, d).len() + free_space(d) + 1 == d.size
            &&& e == (Descriptor { write_offset: e.write_offset, ..d })
            &&& e.valid()
        }),
{
    let cb = channel.control_block;
    let d = ring_at(memory, cb, DOWN_DESCRIPTOR as int);
    let base = cb + DOWN_DESCRIPTOR + DESC_BUFFER;
    if data.len() == 0 {
        assert(waiting(memory, d) + data.take(0) =~= waiting(memory, d));
    } else {
        let work = if channel.initialized {
            steps
        } else {
            steps.skip(1)
        };
        let rest = work.skip(1);
        assert(found(steps[0], memory));
        assert(work[0] == steps[steps.len() - work.len()]);
        assert(found(work[0], memory));
        assert(memory_after(memory, steps) == memory_after(memory, work));
        assert(memory_after(memory, work) == memory_after(memory, rest));
        if accepted(d, data.len()) == 0 {
            assert(waiting(memory, d) + data.take(0) =~= waiting(memory, d));
        } else {
            let offset = wrapped(d.write_offset + sent, d.size as int) as u32;
            let full = ring_filled(memory, d, data, sent as int);
            let word = le_bytes(offset as nat, 4);
            lemma_filled(memory, cb, d, data, sent, rest);
            lemma_ring_filled(memory, d, data, sent, base, 16);
            lemma_offset_stored(full, base, offset);
            lemma_le_bytes_len(offset as nat, 4);
            lemma_stored_apart(full, base + 8, word, d.buffer as int, d.size as nat);
        }
    }
}

/// Reads an address that a user gives.
pub fn parse_address(value: &str) -> (result: Result<u64, String>)
    ensures
        match auto_value(value@) {
            Some(n) => if 0 <= n <= u64::MAX {
                result == Ok::<u64, String>(n as u64)
            } else {
                result matches Err(text) && text@ == "invalid address: "@ + value@
            },
            None => result matches Err(text) && text@ == "invalid address: "@ + value@,
        },
{
    match parse_int_auto(value) {
        Some(n) => if 0 <= n && n <= u64::MAX as i128 {
            Ok(n as u64)
        } else {
            Err(concat2("invalid address: ", value))
        },
        None => Err(concat2("invalid address: ", value)),
    }
}

/// What a user asks of the terminal; what is left out comes from the
/// configuration.
#[derive(Debug, Clone, PartialEq, Eq)]
pub struct RttArgs {
    pub program: Option<String>,
    pub symbol: Option<String>,
    pub control_block: Option<u64>,
    pub node: String,
    pub port: Option<u16>,
    pub poll: Option<Interval>,
    pub replay: bool,
    pub output_only: bool,
}

/// What the terminal works with.
#[derive(Debug, Clone, PartialEq, Eq)]
pub struct RttSettings {
    pub port: u16,
    pub program: String,
    pub symbol: String,
    pub control_block: Option<u64>,
    pub poll: Interval,
}

/// The content of a [`RttSettings`].
pub ghost struct RttSettingsView {
    pub port: u16,
    pub program: Seq<char>,
    pub symbol: Seq<char>,
    pub control_block: Option<u64>,
    pub poll: Interval,
}

impl View for RttSettings {
    type V = RttSettingsView;

    open spec fn view(&self) -> RttSettingsView {
        RttSettingsView {
            port: self.port,
            program: self.program@,
            symbol: self.symbol@,
            control_block: self.control_block,
            poll: self.poll,
        }
    }
}

/// Whether an interval is more than zero and finite.
pub open spec fn is_period(interval: Interval) -> bool {
    match interval {
        Interval::Whole(n) => n > 0,
        Interval::Bits(bits) => 0 < bits < 0x7FF0_0000_0000_0000,
    }
}

/// A text that was given, or another.
pub open spec fn given_or(given: Option<String>, other: Seq<char>) -> Seq<char> {
    match given {
        Some(text) => text@,
        None => other,
    }
}

/// What the terminal works with: what a user asks for, else what the
/// configuration says.
pub open spec fn rtt_settings(config: ConfigView, args: RttArgs) -> Result<
    RttSettingsView,
    Seq<char>,
> {
    let poll = match args.poll {
        Some(poll) => poll,
        None => config.rtt_poll_interval,
    };
    if !is_period(poll) {
        Err("--poll must be positive"@)
    } else {
        Ok(
            RttSettingsView {
                port: match args.port {
                    Some(port) => port,
                    None => config.rcl_port,
                },
                program: given_or(args.program, config.program),
                symbol: given_or(args.symbol, config.rtt_symbol),
                control_block: match args.control_block {
                    Some(address) => Some(address),
                    None => config.rtt_control_block_address,
                },
                poll,
            },
        )
    }
}

fn text_or(given: &Option<String>, other: &String) -> (text: String)
    ensures
        text@ == given_or(*given, other@),
{
    match given {
        Some(text) => text.clone(),
        None => other.clone(),
    }
}

/// Works out what the terminal works with.
pub fn settings(config: &Config, args: &RttArgs) -> (result: Result<RttSettings, BridgeError>)
    ensures
        match result {
            Ok(settings) => rtt_settings(config@, *args) == Ok::<_, Seq<char>>(settings@),
            Err(error) => rtt_settings(config@, *args) == Err::<RttSettingsView, _>(error@),
        },
{
    let poll = match args.poll {
        Some(poll) => poll,
        None => config.rtt_poll_interval,
    };
    let usable = match poll {
        Interval::Whole(n) => n > 0,
        Interval::Bits(bits) => 0 < bits && bits < 0x7FF0_0000_0000_0000,
    };
    if !usable {
        return Err(BridgeError::new("--poll must be positive"));
    }
    let port: u16 = match args.port {
        Some(port) => port,
        None => config.rcl_port,
    };
    let control_block: Option<u64> = match args.control_block {
        Some(address) => Some(address),
        None => config.rtt_control_block_address,
    };
    Ok(
        RttSettings {
            port,
            program: text_or(&args.program, &config.program),
            symbol: text_or(&args.symbol, &config.rtt_symbol),
            control_block,
            poll,
        },
    )
}

/// How the control block is found.
#[derive(Debug, Clone, PartialEq, Eq)]
pub enum BlockSource {
    /// At a known address.
    Known(u64),
    /// At the address of a symbol.
    Symbol(String),
}

/// The path of a global symbol of a program.
pub open spec fn symbol_path(program: Seq<char>, symbol: Seq<char>) -> Seq<char> {
    "\\\\"@ + program + "\\Global\\"@ + symbol
}

impl RttSettings {
    /// How the control block is found; without an address a program is needed to
    /// look its symbol up in.
    pub fn block_source(&self) -> (result: Result<BlockSource, BridgeError>)
        ensures
            match self@.control_block {
                Some(address) => result == Ok::<BlockSource, BridgeError>(
                    BlockSource::Known(address),
                ),
                None => if self@.program.len() == 0 {
                    result matches Err(error) && error@
                        == "project.program is empty and no --cb was given"@
                } else {
                    result matches Ok(BlockSource::Symbol(path)) && path@ == symbol_path(
                        self@.program,
                        self@.symbol,
                    )
                },
            },
    {
        match self.control_block {
            Some(address) => Ok(BlockSource::Known(address)),
            None => if self.program.as_str().is_empty() {
                Err(BridgeError::new("project.program is empty and no --cb was given"))
            } else {
                Ok(
                    BlockSource::Symbol(
                        concat4("\\\\", &self.program, "\\Global\\", &self.symbol),
                    ),
                )
            },
        }
    }

    /// The complaint about a symbol that was not found.
    pub fn unresolved(&self, error: &Error) -> (result: BridgeError)
        ensures
            result@ == "cannot resolve "@ + self@.symbol + " in '"@ + self@.program + "' ("@
                + error@.text()
                + ")\nRun 'tracebridge load' first, or pass --cb 0x<address>."@,
    {
        let mut text = concat5(
            "cannot resolve ",
            &self.symbol,
            " in '",
            &self.program,
            "' (",
        );
        text.append(&error.to_string());
        text.append(")\nRun 'tracebridge load' first, or pass --cb 0x<address>.");
        BridgeError(text)
    }

    /// The complaint about a connection that could not be made.
    pub fn unconnected(&self, node: &str, error: &Error) -> (result: BridgeError)
        ensures
            result@ == "cannot connect to TRACE32 at "@ + node@ + ":"@ + decimal_text(
                self@.port as nat,
            ) + " ("@ + error@.text()
                + ")\nCheck the RCL=NETTCP / PORT= section of your config.t32."@,
    {
        let mut text = concat5(
            "cannot connect to TRACE32 at ",
            node,
            ":",
            &decimal(self.port as u128),
            " (",
        );
        text.append(&error.to_string());
        text.append(")\nCheck the RCL=NETTCP / PORT= section of your config.t32.");
        BridgeError(text)
    }

    /// The line that says what the terminal is connected to.
    pub fn banner(&self, control_block: u64) -> (line: String)
        ensures
            line@ == "TRACE32 RTT: "@ + self@.symbol + " @ 0x"@ + uppercase(
                zero_padded(hex_text(control_block as nat), 8),
            ) + "; Ctrl-C to stop"@,
    {
        let digits = string_of(&to_uppercase(&chars_of(&hex_padded(control_block, 8))));
        concat5("TRACE32 RTT: ", &self.symbol, " @ 0x", &digits, "; Ctrl-C to stop")
    }
}

/// What is sent for a byte that was typed: terminals send a delete for the key
/// that consoles on a target know as backspace.
pub open spec fn typed(byte: u8) -> u8 {
    if byte == 0x7F {
        0x08
    } else {
        byte
    }
}

/// The state of the terminal.
#[derive(Debug)]
pub struct RttTerminal {
    pub channel: RttChannel,
    pub pending_input: Vec<u8>,
    pub consecutive_errors: u64,
}

/// Whether a number of errors in a row is reported: the fifth, the fiftieth, and
/// then every three hundredth.
pub open spec fn is_reported(errors: u64) -> bool {
    errors == 5 || errors == 50 || errors % 300 == 0
}

impl RttTerminal {
    /// A terminal on a channel, with nothing typed.
    pub fn new(channel: RttChannel) -> (terminal: RttTerminal)
        ensures
            terminal.channel == channel,
            terminal.pending_input@ == Seq::<u8>::empty(),
            terminal.consecutive_errors == 0,
    {
        RttTerminal { channel, pending_input: Vec::new(), consecutive_errors: 0 }
    }

    /// Takes the bytes that the target has ready.
    pub fn take_output<M: Memory>(&mut self, memory: &mut M) -> (result: Result<Vec<u8>, Error>)
        ensures
            final(self).pending_input == old(self).pending_input,
            final(self).consecutive_errors == old(self).consecutive_errors,
            final(memory).history() == old(memory).history() + added(
                old(memory).history(),
                final(memory).history(),
            ),
            up_steps(
                old(self).channel,
                added(old(memory).history(), final(memory).history()),
                final(self).channel,
                outcome_view(result),
            ),
    {
        self.channel.read_up(memory)
    }

    /// Sends what was typed, behind what could not be sent before; what does not
    /// fit now is kept.
    pub fn send_input<M: Memory>(&mut self, memory: &mut M, raw: &[u8]) -> (result: Result<
        (),
        Error,
    >)
        ensures
            final(self).consecutive_errors == old(self).consecutive_errors,
            final(memory).history() == old(memory).history() + added(
                old(memory).history(),
                final(memory).history(),
            ),
            ({
                let input = old(self).pending_input@ + raw@.map_values(|b: u8| typed(b));
                let steps = added(old(memory).history(), final(memory).history());
                match result {
                    Ok(()) => exists|sent: nat|
                        sent <= input.len() && final(self).pending_input@ == input.skip(
                            sent as int,
                        ) && #[trigger] down_steps(
                            old(self).channel,
                            input,
                            steps,
                            final(self).channel,
                            Ok(sent),
                        ),
                    Err(error) => final(self).pending_input@ == input && down_steps(
                        old(self).channel,
                        input,
                        steps,
                        final(self).channel,
                        Err(error@),
                    ),
                }
            }),
    {
        let ghost start = memory.history();
        let ghost goal = self.pending_input@ + raw@.map_values(|b: u8| typed(b));
        let mut i: usize = 0;
        while i < raw.len()
            invariant
                i <= raw@.len(),
                memory.history() == start,
                self.channel == old(self).channel,
                self.consecutive_errors == old(self).consecutive_errors,
                goal == old(self).pending_input@ + raw@.map_values(|b: u8| typed(b)),
                self.pending_input@ == old(self).pending_input@ + raw@.take(i as int).map_values(
                    |b: u8| typed(b),
                ),
            decreases raw@.len() - i,
        {
            let byte: u8 = if raw[i] == 0x7F {
                0x08
            } else {
                raw[i]
            };
            self.pending_input.push(byte);
            i = i + 1;
            assert(self.pending_input@ =~= old(self).pending_input@ + raw@.take(
                i as int,
            ).map_values(|b: u8| typed(b)));
        }
        assert(raw@.take(i as int) =~= raw@);
        assert(self.pending_input@ == goal);
        match self.channel.write_down(memory, &self.pending_input) {
            Ok(sent) => {
                proof {
                    lemma_sent_bound(
                        old(self).channel,
                        goal,
                        added(start, memory.history()),
                        self.channel,
                        sent as nat,
                    );
                }
                let rest = copy_bytes(&self.pending_input, sent, self.pending_input.len());
                assert(rest@ =~= goal.skip(sent as int));
                self.pending_input = rest;
                assert(down_steps(
                    old(self).channel,
                    goal,
                    added(start, memory.history()),
                    self.channel,
                    Ok(sent as nat),
                ));
                Ok(())
            },
            Err(error) => Err(error),
        }
    }

    /// Notes that both directions worked.
    pub fn succeeded(&mut self)
        ensures
            *final(self) == (RttTerminal { consecutive_errors: 0, ..*old(self) }),
    {
        self.consecutive_errors = 0;
    }

    /// Notes that an access failed: the control block is checked again, and now
    /// and then the error is reported. Returns the line to show.
    pub fn failed(&mut self, error: &Error) -> (line: Option<String>)
        ensures
            final(self).pending_input == old(self).pending_input,
            final(self).channel == doubted(old(self).channel),
            final(self).consecutive_errors == one_more(old(self).consecutive_errors),
            match line {
                Some(text) => is_reported(final(self).consecutive_errors) && text@
                    == "\n[rtt] run-time memory access failed x"@ + decimal_text(
                    final(self).consecutive_errors as nat,
                ) + ": "@ + error@.text(),
                None => !is_reported(final(self).consecutive_errors),
            },
    {
        self.consecutive_errors = self.consecutive_errors.saturating_add(1);
        self.channel.initialized = false;
        if self.consecutive_errors == 5 || self.consecutive_errors == 50
            || self.consecutive_errors % 300 == 0 {
            Some(
                concat4(
                    "\n[rtt] run-time memory access failed x",
                    &decimal(self.consecutive_errors as u128),
                    ": ",
                    &error.to_string(),
                ),
            )
        } else {
            None
        }
    }
}

proof fn lemma_sent_bound(
    channel: RttChannel,
    data: Seq<u8>,
    steps: Seq<Access>,
    after: RttChannel,
    sent: nat,
)
    requires
        down_steps(channel, data, steps, after, Ok(sent)),
    ensures
        sent <= data.len(),
{
}

}
