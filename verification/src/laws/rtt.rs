//! What the terminal moves between a user and the target, byte by byte.

use vstd::prelude::*;
use vstd::string::*;

use crate::bytes::le_value;
use crate::config::{ConfigView, Interval};
use crate::laws::header::strung;
use crate::laws::split::strung_words_are_split;
use crate::rtt::{
    at_offset, bytes_at, descriptor_in, doubted, down_steps, down_write_appends, drained, found,
    identified, is_apart, is_identifier, is_ready, is_reported, memory_after, one_more, ring_at,
    rtt_settings, symbol_path, typed, up_pieces, up_read, up_read_gives_waiting_bytes, up_steps,
    waiting, wrapped, Access, RttArgs, RttChannel, DESC_RD_OFF, DOWN_DESCRIPTOR, UP_DESCRIPTOR,
};
use crate::t32rcl::error::ErrorView;
use crate::text::split_text;

verus! {

/// The 32-bit number at an address, the lowest byte first.
pub open spec fn word_at(memory: spec_fn(int) -> u8, address: int) -> int {
    memory(address) as int + 256 * memory(address + 1) + 65536 * memory(address + 2) + 16777216
        * memory(address + 3)
}

proof fn lemma_word(memory: spec_fn(int) -> u8, address: int)
    ensures
        le_value(bytes_at(memory, address, 4)) == word_at(memory, address),
        0 <= word_at(memory, address) <= u32::MAX,
{
    let bytes = bytes_at(memory, address, 4);
    reveal_with_fuel(le_value, 5);
    assert(bytes.skip(1)[0] == bytes[1]);
    assert(bytes.skip(1).skip(1)[0] == bytes[2]);
    assert(bytes.skip(1).skip(1).skip(1)[0] == bytes[3]);
    assert(bytes.skip(1).skip(1).skip(1).skip(1).len() == 0);
}

proof fn lemma_ring_words(memory: spec_fn(int) -> u8, control_block: u64, offset: int)
    ensures
        ({
            let d = ring_at(memory, control_block, offset);
            let base = control_block + offset + 4;
            &&& d.buffer == word_at(memory, base)
            &&& d.size == word_at(memory, base + 4)
            &&& d.write_offset == word_at(memory, base + 8)
            &&& d.read_offset == word_at(memory, base + 12)
        }),
{
    let base = control_block + offset + 4;
    let raw = bytes_at(memory, base, 16);
    lemma_word(memory, base);
    lemma_word(memory, base + 4);
    lemma_word(memory, base + 8);
    lemma_word(memory, base + 12);
    assert(raw.subrange(0, 4) =~= bytes_at(memory, base, 4));
    assert(raw.subrange(4, 8) =~= bytes_at(memory, base + 4, 4));
    assert(raw.subrange(8, 12) =~= bytes_at(memory, base + 8, 4));
    assert(raw.subrange(12, 16) =~= bytes_at(memory, base + 12, 4));
}

proof fn lemma_wrapped(x: int, size: int)
    requires
        0 <= x < 2 * size,
        size > 0,
    ensures
        wrapped(x, size) == x % size,
{
    if x >= size {
        vstd::arithmetic::div_mod::lemma_small_mod((x - size) as nat, size as nat);
        vstd::arithmetic::div_mod::lemma_mod_add_multiples_vanish(x - size, size);
    } else {
        vstd::arithmetic::div_mod::lemma_small_mod(x as nat, size as nat);
    }
}

/// Whether four words describe a ring: a buffer that is there, of two bytes at
/// least, and both offsets inside it.
pub open spec fn is_ring(buffer: int, size: int, write: int, read: int) -> bool {
    buffer != 0 && size >= 2 && 0 <= write < size && 0 <= read < size
}

/// Whether a channel can be read and written: its control block lies inside the
/// address space, and is known to be initialised or begins with `SEGGER RTT`.
pub open spec fn is_usable(channel: RttChannel, memory: spec_fn(int) -> u8) -> bool {
    &&& channel.control_block + 0x48 <= u64::MAX
    &&& channel.initialized || forall|i: int|
        0 <= i < "SEGGER RTT"@.len() ==> memory(channel.control_block + i) as char == (
        #[trigger] "SEGGER RTT"@[i])
}

proof fn lemma_identifier(raw: Seq<u8>)
    ensures
        is_identifier(raw) <==> raw.len() >= 10 && forall|i: int|
            0 <= i < "SEGGER RTT"@.len() ==> raw[i] as char == (#[trigger] "SEGGER RTT"@[i]),
{
    reveal_strlit("SEGGER RTT");
    let id = "SEGGER RTT"@;
    assert(id.len() == 10);
    assert forall|i: int| 0 <= i < 10 implies crate::rtt::ID_STRING@[i] as char == #[trigger] id[i] by {}
    if raw.len() >= 10 && forall|i: int|
        0 <= i < id.len() ==> raw[i] as char == (#[trigger] id[i]) {
        assert forall|i: int| 0 <= i < 10 implies raw[i] == crate::rtt::ID_STRING@[i] by {
            assert(raw[i] as char == id[i]);
            assert(crate::rtt::ID_STRING@[i] as char == id[i]);
        }
        assert(raw.subrange(0, 10) =~= crate::rtt::ID_STRING@);
    }
    if is_identifier(raw) {
        assert forall|i: int| 0 <= i < id.len() implies raw[i] as char == (#[trigger] id[i]) by {
            assert(raw.subrange(0, 10)[i] == crate::rtt::ID_STRING@[i]);
        }
    }
}

proof fn lemma_usable(channel: RttChannel, memory: spec_fn(int) -> u8)
    requires
        is_usable(channel, memory),
    ensures
        is_ready(channel, memory),
{
    let raw = bytes_at(memory, channel.control_block as int, 16);
    lemma_identifier(raw);
    if !channel.initialized {
        assert forall|i: int| 0 <= i < "SEGGER RTT"@.len() implies raw[i] as char == (
        #[trigger] "SEGGER RTT"@[i]) by {
            reveal_strlit("SEGGER RTT");
            assert(memory(channel.control_block + i) as char == "SEGGER RTT"@[i]);
        }
        reveal_strlit("SEGGER RTT");
    }
}

/// What is read of the up channel is every byte that the target has written and
/// nobody has read, in order and around the end of the buffer, and the read offset
/// in the control block is then where the target writes next.
pub proof fn output_is_read_byte_by_byte(
    channel: RttChannel,
    memory: spec_fn(int) -> u8,
    steps: Seq<Access>,
    after: RttChannel,
    data: Seq<u8>,
)
    requires
        up_steps(channel, steps, after, Ok(data)),
        forall|i: int| 0 <= i < steps.len() ==> found(#[trigger] steps[i], memory),
        is_usable(channel, memory),
        is_ring(
            word_at(memory, channel.control_block + 0x1C),
            word_at(memory, channel.control_block + 0x20),
            word_at(memory, channel.control_block + 0x24),
            word_at(memory, channel.control_block + 0x28),
        ),
    ensures
        ({
            let buffer = word_at(memory, channel.control_block + 0x1C);
            let size = word_at(memory, channel.control_block + 0x20);
            let write = word_at(memory, channel.control_block + 0x24);
            let read = word_at(memory, channel.control_block + 0x28);
            &&& data.len() == (write + size - read) % size
            &&& forall|i: int|
                0 <= i < data.len() ==> #[trigger] data[i] == memory(buffer + (read + i) % size)
            &&& word_at(memory_after(memory, steps), channel.control_block + 0x28) == write
            &&& after.control_block == channel.control_block
        }),
{
    let cb = channel.control_block;
    lemma_usable(channel, memory);
    lemma_ring_words(memory, cb, UP_DESCRIPTOR as int);
    lemma_ring_words(memory_after(memory, steps), cb, UP_DESCRIPTOR as int);
    let d = ring_at(memory, cb, UP_DESCRIPTOR as int);
    up_read_gives_waiting_bytes(channel, memory, steps, after, data);
    let size = d.size as int;
    lemma_wrapped(d.write_offset + size - d.read_offset, size);
    assert forall|i: int| 0 <= i < data.len() implies #[trigger] data[i] == memory(
        d.buffer + (d.read_offset + i) % size,
    ) by {
        lemma_wrapped(d.read_offset + i, size);
    }
}

/// What is written to the down channel follows what the target has not read yet: as
/// many bytes as there is room for, one place always staying free; the bytes that
/// wait stay what they are, and the write offset moves on by what was written.
pub proof fn input_is_written_byte_by_byte(
    channel: RttChannel,
    memory: spec_fn(int) -> u8,
    data: Seq<u8>,
    steps: Seq<Access>,
    after: RttChannel,
    sent: nat,
)
    requires
        down_steps(channel, data, steps, after, Ok(sent)),
        forall|i: int| 0 <= i < steps.len() ==> found(#[trigger] steps[i], memory),
        is_usable(channel, memory),
        is_ring(
            word_at(memory, channel.control_block + 0x34),
            word_at(memory, channel.control_block + 0x38),
            word_at(memory, channel.control_block + 0x3C),
            word_at(memory, channel.control_block + 0x40),
        ),
        word_at(memory, channel.control_block + 0x34) + word_at(
            memory,
            channel.control_block + 0x38,
        ) <= channel.control_block || channel.control_block + 0x48 <= word_at(
            memory,
            channel.control_block + 0x34,
        ),
    ensures
        ({
            let buffer = word_at(memory, channel.control_block + 0x34);
            let size = word_at(memory, channel.control_block + 0x38);
            let write = word_at(memory, channel.control_block + 0x3C);
            let read = word_at(memory, channel.control_block + 0x40);
            let later = memory_after(memory, steps);
            let room = (read + size - write - 1) % size;
            &&& sent == (if data.len() <= room {
                data.len() as int
            } else {
                room
            })
            &&& forall|i: int|
                0 <= i < sent ==> #[trigger] data[i] == later(buffer + (write + i) % size)
            &&& forall|i: int|
                0 <= i < (write + size - read) % size ==> #[trigger] later(
                    buffer + (read + i) % size,
                ) == memory(buffer + (read + i) % size)
            &&& word_at(later, channel.control_block + 0x3C) == (write + sent) % size
            &&& word_at(later, channel.control_block + 0x34) == buffer
            &&& word_at(later, channel.control_block + 0x38) == size
            &&& word_at(later, channel.control_block + 0x40) == read
        }),
{
    let cb = channel.control_block;
    let later = memory_after(memory, steps);
    lemma_usable(channel, memory);
    lemma_ring_words(memory, cb, DOWN_DESCRIPTOR as int);
    lemma_ring_words(later, cb, DOWN_DESCRIPTOR as int);
    let d = ring_at(memory, cb, DOWN_DESCRIPTOR as int);
    let e = ring_at(later, cb, DOWN_DESCRIPTOR as int);
    down_write_appends(channel, memory, data, steps, after, sent);
    let size = d.size as int;
    let waits = waiting(memory, d);
    let waits_later = waiting(later, e);
    lemma_wrapped(d.read_offset + size - d.write_offset - 1, size);
    lemma_wrapped(d.write_offset + size - d.read_offset, size);
    lemma_wrapped(e.write_offset + size - e.read_offset, size);
    assert(waits_later.len() == waits.len() + sent);
    lemma_wrapped(d.write_offset + sent, size);
    assert(e.write_offset == wrapped(d.write_offset + sent, size));
    assert forall|i: int| 0 <= i < sent implies #[trigger] data[i] == later(
        d.buffer + (d.write_offset + i) % size,
    ) by {
        lemma_wrapped(d.write_offset + i, size);
        let k = waits.len() + i;
        assert(waits_later[k] == data.take(sent as int)[i]);
        assert(wrapped(d.read_offset + k, size) == wrapped(d.write_offset + i, size));
    }
    assert forall|i: int| 0 <= i < (d.write_offset + size - d.read_offset) % size implies
        #[trigger] later(d.buffer + (d.read_offset + i) % size) == memory(
        d.buffer + (d.read_offset + i) % size,
    ) by {
        lemma_wrapped(d.read_offset + i, size);
        assert(waits_later[i] == waits[i]);
    }
}

/// What is typed is sent as it is, but for the delete key, which is sent as a
/// backspace: one byte for each byte, in order.
pub proof fn keys_are_sent_as_typed(raw: Seq<u8>)
    ensures
        raw.map_values(|b: u8| typed(b)).len() == raw.len(),
        forall|i: int|
            0 <= i < raw.len() ==> raw.map_values(|b: u8| typed(b))[i] == (if #[trigger] raw[i]
                == 0x7F {
                0x08u8
            } else {
                raw[i]
            }),
        (forall|i: int| 0 <= i < raw.len() ==> #[trigger] raw[i] != 0x7F) ==> raw.map_values(
            |b: u8| typed(b),
        ) == raw,
{
    if forall|i: int| 0 <= i < raw.len() ==> #[trigger] raw[i] != 0x7F {
        assert(raw.map_values(|b: u8| typed(b)) =~= raw);
    }
}

/// Nothing that is typed is lost: what the target finds, followed by what is still
/// to be sent, is what it would have found before, followed by what was pending and
/// what was typed.
pub proof fn nothing_typed_is_lost(
    channel: RttChannel,
    memory: spec_fn(int) -> u8,
    pending: Seq<u8>,
    raw: Seq<u8>,
    steps: Seq<Access>,
    after: RttChannel,
    sent: nat,
)
    requires
        down_steps(channel, pending + raw.map_values(|b: u8| typed(b)), steps, after, Ok(sent)),
        forall|i: int| 0 <= i < steps.len() ==> found(#[trigger] steps[i], memory),
        is_usable(channel, memory),
        is_ring(
            word_at(memory, channel.control_block + 0x34),
            word_at(memory, channel.control_block + 0x38),
            word_at(memory, channel.control_block + 0x3C),
            word_at(memory, channel.control_block + 0x40),
        ),
        is_apart(
            ring_at(memory, channel.control_block, DOWN_DESCRIPTOR as int),
            channel.control_block,
        ),
        forall|i: int| 0 <= i < raw.len() ==> #[trigger] raw[i] != 0x7F,
    ensures
        ({
            let d = ring_at(memory, channel.control_block, DOWN_DESCRIPTOR as int);
            let later = memory_after(memory, steps);
            let e = ring_at(later, channel.control_block, DOWN_DESCRIPTOR as int);
            waiting(later, e) + (pending + raw).skip(sent as int) == waiting(memory, d) + (pending
                + raw)
        }),
{
    let cb = channel.control_block;
    let d = ring_at(memory, cb, DOWN_DESCRIPTOR as int);
    lemma_usable(channel, memory);
    lemma_ring_words(memory, cb, DOWN_DESCRIPTOR as int);
    keys_are_sent_as_typed(raw);
    let input = pending + raw;
    down_write_appends(channel, memory, input, steps, after, sent);
    assert(input.take(sent as int) + input.skip(sent as int) =~= input);
    let later = memory_after(memory, steps);
    let e = ring_at(later, cb, DOWN_DESCRIPTOR as int);
    assert(waiting(later, e) + input.skip(sent as int) =~= waiting(memory, d) + input);
}

/// A channel whose control block is not initialised is left alone: it is looked at
/// once, and nothing is read or written.
pub proof fn uninitialised_channels_are_left_alone(
    channel: RttChannel,
    memory: spec_fn(int) -> u8,
    data: Seq<u8>,
    steps: Seq<Access>,
    after: RttChannel,
    output: Seq<u8>,
    sent: nat,
)
    requires
        !channel.initialized,
        channel.control_block + 0x48 <= u64::MAX,
        forall|i: int| 0 <= i < steps.len() ==> found(#[trigger] steps[i], memory),
        exists|i: int|
            0 <= i < "SEGGER RTT"@.len() && memory(channel.control_block + i) as char != (
            #[trigger] "SEGGER RTT"@[i]),
    ensures
        up_steps(channel, steps, after, Ok(output)) ==> output.len() == 0 && steps.len() == 1
            && memory_after(memory, steps) == memory,
        down_steps(channel, data, steps, after, Ok(sent)) ==> sent == 0 && steps.len() <= 1
            && memory_after(memory, steps) == memory,
{
    let raw = bytes_at(memory, channel.control_block as int, 16);
    lemma_identifier(raw);
    let i = choose|i: int|
        0 <= i < "SEGGER RTT"@.len() && memory(channel.control_block + i) as char != (
        #[trigger] "SEGGER RTT"@[i]);
    reveal_strlit("SEGGER RTT");
    assert(raw[i] == memory(channel.control_block + i));
    if steps.len() > 0 {
        assert(found(steps[0], memory));
        if steps.len() == 1 {
            assert(memory_after(crate::rtt::memory_next(memory, steps[0]), steps.skip(1))
                == crate::rtt::memory_next(memory, steps[0]));
        }
    }
}

/// What a user asks for counts before what the configuration says, setting by
/// setting.
pub proof fn what_a_user_asks_for_counts(config: ConfigView, args: RttArgs)
    ensures
        match rtt_settings(config, args) {
            Ok(settings) => {
                &&& settings.port == (if args.port is Some {
                    args.port->Some_0
                } else {
                    config.rcl_port
                })
                &&& args.program matches Some(program) ==> settings.program == program@
                &&& args.program is None ==> settings.program == config.program
                &&& args.symbol matches Some(symbol) ==> settings.symbol == symbol@
                &&& args.symbol is None ==> settings.symbol == config.rtt_symbol
                &&& args.control_block is Some ==> settings.control_block == args.control_block
                &&& args.control_block is None ==> settings.control_block
                    == config.rtt_control_block_address
                &&& args.poll matches Some(poll) ==> settings.poll == poll
                &&& args.poll is None ==> settings.poll == config.rtt_poll_interval
            },
            Err(_) => true,
        },
        rtt_settings(config, args) is Ok <==> match (if args.poll is Some {
            args.poll->Some_0
        } else {
            config.rtt_poll_interval
        }) {
            Interval::Whole(n) => n > 0,
            Interval::Bits(bits) => 0 < bits < 0x7FF0_0000_0000_0000,
        },
{
}

/// The words of a descriptor that was read.
pub open spec fn word_in(raw: Seq<u8>, at: int) -> int {
    raw[at] as int + 256 * raw[at + 1] + 65536 * raw[at + 2] + 16777216 * raw[at + 3]
}

proof fn lemma_words_in(raw: Seq<u8>)
    requires
        raw.len() >= 16,
    ensures
        ({
            let d = descriptor_in(raw);
            &&& d.buffer == word_in(raw, 0)
            &&& d.size == word_in(raw, 4)
            &&& d.write_offset == word_in(raw, 8)
            &&& d.read_offset == word_in(raw, 12)
        }),
{
    let memory = |i: int| raw[i];
    lemma_word(memory, 0);
    lemma_word(memory, 4);
    lemma_word(memory, 8);
    lemma_word(memory, 12);
    assert(raw.subrange(0, 4) =~= bytes_at(memory, 0, 4));
    assert(raw.subrange(4, 8) =~= bytes_at(memory, 4, 4));
    assert(raw.subrange(8, 12) =~= bytes_at(memory, 8, 4));
    assert(raw.subrange(12, 16) =~= bytes_at(memory, 12, 4));
}

/// A descriptor that describes no ring makes a channel count as not initialised:
/// nothing is read or written then. One that does keeps it initialised, whatever comes
/// of the accesses.
pub proof fn only_rings_keep_a_channel_initialised(
    channel: RttChannel,
    data: Seq<u8>,
    steps: Seq<Access>,
    after: RttChannel,
    read: Result<Seq<u8>, ErrorView>,
    written: Result<nat, ErrorView>,
    raw: Seq<u8>,
)
    requires
        channel.initialized,
        raw.len() >= 16,
        data.len() > 0,
        steps.len() > 0,
        steps[0] matches Access::Read { address, length, outcome } && outcome == Ok::<_, ErrorView>(
            raw,
        ),
    ensures
        up_steps(channel, steps, after, read) ==> {
            let ring = is_ring(word_in(raw, 0), word_in(raw, 4), word_in(raw, 8), word_in(raw, 12));
            &&& after.initialized == ring
            &&& !ring ==> steps.len() == 1 && read == Ok::<_, ErrorView>(Seq::<u8>::empty())
            &&& steps[0] matches Access::Read { address, length, outcome } && length == 16
                && address == (channel.control_block + 0x1C) % 0x1_0000_0000_0000_0000
        },
        down_steps(channel, data, steps, after, written) ==> {
            let ring = is_ring(word_in(raw, 0), word_in(raw, 4), word_in(raw, 8), word_in(raw, 12));
            &&& after.initialized == ring
            &&& !ring ==> steps.len() == 1 && written == Ok::<nat, ErrorView>(0)
            &&& steps[0] matches Access::Read { address, length, outcome } && length == 16
                && address == (channel.control_block + 0x34) % 0x1_0000_0000_0000_0000
        },
{
    lemma_words_in(raw);
}

proof fn lemma_drained_last(
    pieces: Seq<(u64, nat)>,
    data: Seq<u8>,
    address: u64,
    offset: u32,
    steps: Seq<Access>,
    result: Result<Seq<u8>, ErrorView>,
)
    requires
        drained(pieces, data, address, offset, steps, result),
    ensures
        steps.len() > 0,
        result is Ok ==> steps.last() is WriteWord,
        forall|i: int| 0 <= i < steps.len() - 1 ==> #[trigger] steps[i] is Read,
        result is Err <==> {
            ||| steps.last() matches Access::Read { address, length, outcome } && outcome is Err
            ||| steps.last() matches Access::WriteWord { address, value, outcome } && outcome is Err
        },
    decreases pieces.len(),
{
    if pieces.len() > 0 {
        if let Access::Read { address: from, length, outcome } = steps[0] {
            if let Ok(raw) = outcome {
                let rest = steps.skip(1);
                lemma_drained_last(pieces.skip(1), data + raw, address, offset, rest, result);
                assert(rest.last() == steps.last());
                assert forall|i: int| 0 <= i < steps.len() - 1 implies #[trigger] steps[i] is Read by {
                    if i > 0 {
                        assert(rest[i - 1] == steps[i]);
                    }
                }
            }
        }
    }
}

/// The read offset moves on only when everything has been read: it is the last thing
/// that is written, and the only one. A failed access ends the call with an error, and
/// nothing else does.
pub proof fn the_read_offset_moves_last(
    channel: RttChannel,
    steps: Seq<Access>,
    after: RttChannel,
    result: Result<Seq<u8>, ErrorView>,
)
    requires
        up_steps(channel, steps, after, result),
        forall|i: int|
            0 <= i < steps.len() ==> (#[trigger] steps[i] matches Access::Read {
                address,
                length,
                outcome,
            } ==> (outcome matches Ok(raw) ==> raw.len() == length)),
    ensures
        steps.len() > 0,
        forall|i: int| 0 <= i < steps.len() - 1 ==> #[trigger] steps[i] is Read,
        result is Err <==> {
            ||| steps.last() matches Access::Read { address, length, outcome } && outcome is Err
            ||| steps.last() matches Access::WriteWord { address, value, outcome } && outcome is Err
        },
{
    let cb = channel.control_block;
    if channel.initialized {
        lemma_up_read_last(cb, steps, after.initialized, result);
    } else if let Some(Ok(true)) = identified(cb, steps) {
        let rest = steps.skip(1);
        assert forall|i: int| 0 <= i < rest.len() implies (#[trigger] rest[i] matches Access::Read {
            address,
            length,
            outcome,
        } ==> (outcome matches Ok(raw) ==> raw.len() == length)) by {
            assert(rest[i] == steps[i + 1]);
        }
        lemma_up_read_last(cb, rest, after.initialized, result);
        assert(rest.last() == steps.last());
        assert forall|i: int| 0 <= i < steps.len() - 1 implies #[trigger] steps[i] is Read by {
            if i > 0 {
                assert(rest[i - 1] == steps[i]);
            }
        }
    }
}

proof fn lemma_up_read_last(
    control_block: u64,
    steps: Seq<Access>,
    initialized: bool,
    result: Result<Seq<u8>, ErrorView>,
)
    requires
        up_read(control_block, steps, initialized, result),
        forall|i: int|
            0 <= i < steps.len() ==> (#[trigger] steps[i] matches Access::Read {
                address,
                length,
                outcome,
            } ==> (outcome matches Ok(raw) ==> raw.len() == length)),
    ensures
        steps.len() > 0,
        forall|i: int| 0 <= i < steps.len() - 1 ==> #[trigger] steps[i] is Read,
        result is Err <==> {
            ||| steps.last() matches Access::Read { address, length, outcome } && outcome is Err
            ||| steps.last() matches Access::WriteWord { address, value, outcome } && outcome is Err
        },
{
    if let Access::Read { address, length, outcome } = steps[0] {
        if let Ok(raw) = outcome {
            assert(raw.len() == length);
            let d = descriptor_in(raw);
            if d.valid() && d.write_offset != d.read_offset {
                let rest = steps.skip(1);
                lemma_drained_last(
                    up_pieces(d),
                    seq![],
                    at_offset(control_block, UP_DESCRIPTOR + DESC_RD_OFF),
                    d.write_offset,
                    rest,
                    result,
                );
                assert(rest.last() == steps.last());
                assert forall|i: int| 0 <= i < steps.len() - 1 implies #[trigger] steps[i] is Read by {
                    if i > 0 {
                        assert(rest[i - 1] == steps[i]);
                    }
                }
            }
        }
    }
}

/// The write offset moves on only when the bytes are there: it is the last thing that
/// is written.
pub proof fn the_write_offset_moves_last(
    channel: RttChannel,
    data: Seq<u8>,
    steps: Seq<Access>,
    after: RttChannel,
    sent: nat,
)
    requires
        down_steps(channel, data, steps, after, Ok(sent)),
        sent > 0,
    ensures
        steps.len() > 0,
        steps.last() is WriteWord,
        forall|i: int| 0 <= i < steps.len() - 1 ==> !(#[trigger] steps[i] is WriteWord),
{
    if !channel.initialized {
        assert(steps.skip(1).last() == steps.last());
        assert forall|i: int| 0 <= i < steps.len() - 1 implies !(#[trigger] steps[i] is WriteWord) by {
            if i > 0 {
                assert(steps.skip(1)[i - 1] == steps[i]);
            }
            if i > 1 {
                assert(steps.skip(1).skip(1)[i - 2] == steps[i]);
            }
        }
    } else {
        assert forall|i: int| 0 <= i < steps.len() - 1 implies !(#[trigger] steps[i] is WriteWord) by {
            if i > 0 {
                assert(steps.skip(1)[i - 1] == steps[i]);
            }
        }
    }
}

/// The control block is looked for under the name of the program and that of the
/// symbol.
pub proof fn symbols_are_looked_for_in_the_program(program: Seq<char>, symbol: Seq<char>)
    requires
        !program.contains('\\'),
        !symbol.contains('\\'),
    ensures
        split_text(symbol_path(program, symbol), seq!['\\']) == seq![
            Seq::<char>::empty(),
            Seq::<char>::empty(),
            program,
            "Global"@,
            symbol,
        ],
{
    reveal_strlit("\\\\");
    reveal_strlit("\\Global\\");
    reveal_strlit("Global");
    let empty = Seq::<char>::empty();
    let words = seq![empty, empty, program, "Global"@, symbol];
    assert forall|i: int| 0 <= i < words.len() implies !(#[trigger] words[i]).contains('\\') by {
        if i == 3 {
            assert(!"Global"@.contains('\\'));
        }
    }
    strung_words_are_split(words, '\\');
    let four = words.drop_last();
    let three = four.drop_last();
    let two = three.drop_last();
    let one = two.drop_last();
    assert(one.len() == 1 && one[0] == empty);
    reveal_with_fuel(strung, 6);
    assert(strung(one, '\\') == empty);
    assert(strung(two, '\\') =~= seq!['\\']);
    assert(strung(three, '\\') =~= seq!['\\', '\\'] + program);
    assert(strung(four, '\\') =~= seq!['\\', '\\'] + program + seq!['\\'] + "Global"@);
    assert(strung(words, '\\') =~= symbol_path(program, symbol));
}

/// Errors in a row are reported less and less often: the fifth, the fiftieth, and then
/// each three hundredth.
pub proof fn errors_are_reported_now_and_then(errors: u64)
    requires
        errors > 0,
    ensures
        errors < 300 ==> (is_reported(errors) <==> errors == 5 || errors == 50),
        errors >= 300 ==> (is_reported(errors) <==> exists|k: int| errors == #[trigger] (300 * k)),
{
    if errors >= 300 {
        if is_reported(errors) {
            let k = errors as int / 300;
            assert(errors == 300 * k);
        }
        if exists|k: int| errors == #[trigger] (300 * k) {
            let k = choose|k: int| errors == #[trigger] (300 * k);
            assert((300 * k) % 300 == 0);
        }
    }
}

/// After a failed access the control block is looked at again before anything else is
/// read or written, and the failure is counted.
pub proof fn failures_make_a_channel_doubtful(
    channel: RttChannel,
    errors: u64,
    steps: Seq<Access>,
    after: RttChannel,
    read: Result<Seq<u8>, ErrorView>,
)
    ensures
        one_more(errors) >= errors,
        errors < u64::MAX ==> one_more(errors) == errors + 1,
        up_steps(doubted(channel), steps, after, read) ==> steps.len() > 0 && (steps[0]
            matches Access::Read { address, length, outcome } && address == channel.control_block
            && length == 16),
{
}

}
