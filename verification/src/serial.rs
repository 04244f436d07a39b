//! The HMR2300 sensor's serial stream: a handshake, then seven-byte packets.
use vstd::prelude::*;

verus! {

pub const SENSOR_PACKET_SIZE: usize = 7;

/// What the buffer may hold before it is thrown away.
pub const BUFFER_LIMIT: usize = 1000;

/// How many bytes one read takes at most.
pub const READ_CHUNK: usize = 4096;

/// What a parser remembers between reads.
pub struct SensorStream {
    pub buffer: Seq<u8>,
    pub ready: bool,
}

/// Where `OK` first stands in `bytes`, if it does.
pub open spec fn handshake_at(bytes: Seq<u8>) -> Option<int>
    decreases bytes.len(),
{
    if bytes.len() < 2 {
        None
    } else if bytes[0] == 0x4f && bytes[1] == 0x4b {
        Some(0)
    } else {
        match handshake_at(bytes.skip(1)) {
            Some(at) => Some(at + 1),
            None => None,
        }
    }
}

/// That a packet stands at the front: a carriage return ends it, and another
/// one ends the packet behind it where that has already come.
pub open spec fn packet_in_front(buffer: Seq<u8>) -> bool {
    &&& buffer.len() >= SENSOR_PACKET_SIZE
    &&& buffer[6] == 0x0d
    &&& (buffer.len() < 14 || buffer[13] == 0x0d)
}

/// The packets in `buffer` and what is left behind them; where no packet stands
/// in front, one byte goes.
pub open spec fn read_packets(buffer: Seq<u8>) -> (Seq<Seq<u8>>, Seq<u8>)
    decreases buffer.len(),
{
    if buffer.len() < SENSOR_PACKET_SIZE {
        (Seq::empty(), buffer)
    } else if packet_in_front(buffer) {
        let (packets, rest) = read_packets(buffer.skip(7));
        (seq![buffer.take(7)] + packets, rest)
    } else {
        read_packets(buffer.skip(1))
    }
}

/// One read: too full a buffer is thrown away, and until the handshake has come
/// nothing else is looked for. What follows the handshake waits for the next
/// read.
pub open spec fn read(stream: SensorStream, bytes: Seq<u8>) -> (Seq<Seq<u8>>, SensorStream) {
    let joined = stream.buffer + bytes;
    let buffer = if joined.len() > BUFFER_LIMIT {
        Seq::empty()
    } else {
        joined
    };
    if stream.ready {
        let (packets, rest) = read_packets(buffer);
        (packets, SensorStream { buffer: rest, ready: true })
    } else {
        match handshake_at(buffer) {
            Some(at) => (
                Seq::empty(),
                SensorStream { buffer: buffer.skip(at + 2), ready: true },
            ),
            None => (Seq::empty(), SensorStream { buffer, ready: false }),
        }
    }
}

/// A stream on which nothing has arrived.
pub open spec fn fresh() -> SensorStream {
    SensorStream { buffer: Seq::empty(), ready: false }
}

/// The bytes that each packet holds.
pub open spec fn packet_bytes(packets: Seq<Vec<u8>>) -> Seq<Seq<u8>> {
    packets.map_values(|packet: Vec<u8>| packet@)
}

proof fn lemma_handshake_bound(bytes: Seq<u8>)
    ensures
        handshake_at(bytes) matches Some(at) ==> 0 <= at && at + 2 <= bytes.len(),
    decreases bytes.len(),
{
    if bytes.len() >= 2 {
        lemma_handshake_bound(bytes.skip(1));
    }
}

proof fn lemma_rest_is_short(buffer: Seq<u8>)
    ensures
        read_packets(buffer).1.len() < SENSOR_PACKET_SIZE,
    decreases buffer.len(),
{
    if buffer.len() >= SENSOR_PACKET_SIZE {
        lemma_rest_is_short(buffer.skip(7));
        lemma_rest_is_short(buffer.skip(1));
    }
}

/// That every one of `packets` is seven bytes with a carriage return at the end.
pub open spec fn all_framed(packets: Seq<Seq<u8>>) -> bool {
    forall|i: int|
        0 <= i < packets.len() ==> (#[trigger] packets[i]).len() == SENSOR_PACKET_SIZE
            && packets[i][6] == 0x0d
}

/// Every packet that comes out is seven bytes with a carriage return at the end.
pub proof fn law_packets_are_framed(buffer: Seq<u8>)
    ensures
        all_framed(read_packets(buffer).0),
    decreases buffer.len(),
{
    if buffer.len() >= SENSOR_PACKET_SIZE {
        if packet_in_front(buffer) {
            law_packets_are_framed(buffer.skip(7));
            let rest = read_packets(buffer.skip(7)).0;
            let all = read_packets(buffer).0;
            assert forall|i: int| 0 <= i < all.len() implies (#[trigger] all[i]).len()
                == SENSOR_PACKET_SIZE && all[i][6] == 0x0d by {
                if i > 0 {
                    assert(all[i] == rest[i - 1]);
                }
            }
        } else {
            law_packets_are_framed(buffer.skip(1));
        }
    }
}

/// The bytes of `packets` one after the other.
pub open spec fn concatenated(packets: Seq<Seq<u8>>) -> Seq<u8>
    decreases packets.len(),
{
    if packets.len() == 0 {
        Seq::empty()
    } else {
        packets[0] + concatenated(packets.skip(1))
    }
}

/// A stream of whole packets is read back packet by packet, with nothing left
/// over.
pub proof fn law_aligned_packets_are_all_read(packets: Seq<Seq<u8>>)
    requires
        all_framed(packets),
    ensures
        read_packets(concatenated(packets)) == (packets, Seq::<u8>::empty()),
    decreases packets.len(),
{
    let buffer = concatenated(packets);
    if packets.len() > 0 {
        let behind = packets.skip(1);
        let rest = concatenated(behind);
        assert forall|i: int| 0 <= i < behind.len() implies (#[trigger] behind[i]).len()
            == SENSOR_PACKET_SIZE && behind[i][6] == 0x0d by {
            assert(behind[i] == packets[i + 1]);
        }
        law_aligned_packets_are_all_read(behind);
        assert(buffer.take(7) =~= packets[0]);
        assert(buffer.skip(7) =~= rest);
        assert(buffer[6] == packets[0][6]);
        if behind.len() > 0 {
            assert(rest[6] == behind[0][6]);
            assert(buffer[13] == rest[6]);
        }
        assert(packet_in_front(buffer));
        assert(seq![packets[0]] + behind =~= packets);
    } else {
        assert(packets =~= Seq::empty());
    }
}

/// Finds the handshake and the packets behind it in a byte stream.
#[derive(Debug, Clone)]
pub struct SensorFrameParser {
    buffer: Vec<u8>,
    sensor_ready: bool,
}

impl View for SensorFrameParser {
    type V = SensorStream;

    closed spec fn view(&self) -> SensorStream {
        SensorStream { buffer: self.buffer@, ready: self.sensor_ready }
    }
}

impl Default for SensorFrameParser {
    fn default() -> (result: Self)
        ensures
            result@ == fresh(),
    {
        SensorFrameParser { buffer: Vec::new(), sensor_ready: false }
    }
}

impl SensorFrameParser {
    /// The packets that `bytes` completes.
    pub fn feed(&mut self, bytes: &[u8]) -> (result: Vec<Vec<u8>>)
        ensures
            (packet_bytes(result@), final(self)@) == read(old(self)@, bytes@),
            final(self)@.buffer.len() <= BUFFER_LIMIT,
    {
        let ghost start = self@;
        let ghost arrived = self.buffer@ + bytes@;
        self.buffer.extend_from_slice(bytes);
        assert(self.buffer@ =~= arrived);
        if self.buffer.len() > BUFFER_LIMIT {
            self.buffer = Vec::new();
        }
        let ghost buffer = self.buffer@;
        let mut packets: Vec<Vec<u8>> = Vec::new();
        assert(packet_bytes(packets@) =~= Seq::empty());
        if !self.sensor_ready {
            proof {
                lemma_handshake_bound(buffer);
            }
            match find_handshake(self.buffer.as_slice()) {
                Some(at) => {
                    self.sensor_ready = true;
                    let rest: Vec<u8> = self.buffer.split_off(at + 2);
                    assert(rest@ =~= buffer.skip(at + 2));
                    self.buffer = rest;
                },
                None => {},
            }
            return packets;
        }
        let mut at: usize = 0;
        assert(buffer.skip(0) =~= buffer);
        assert(packet_bytes(packets@) + read_packets(buffer).0 =~= read_packets(buffer).0);
        while self.buffer.len() - at >= SENSOR_PACKET_SIZE
            invariant
                self.buffer@ == buffer,
                self.sensor_ready,
                at <= buffer.len(),
                buffer.len() <= BUFFER_LIMIT,
                read_packets(buffer) == (
                    packet_bytes(packets@) + read_packets(buffer.skip(at as int)).0,
                    read_packets(buffer.skip(at as int)).1,
                ),
            decreases self.buffer.len() - at,
        {
            let ghost rest = buffer.skip(at as int);
            let next_boundary_is_valid: bool = self.buffer.len() - at < SENSOR_PACKET_SIZE * 2
                || self.buffer[at + SENSOR_PACKET_SIZE * 2 - 1] == 0x0d;
            if self.buffer[at + SENSOR_PACKET_SIZE - 1] == 0x0d && next_boundary_is_valid {
                let mut packet: Vec<u8> = Vec::new();
                packet.extend_from_slice(
                    vstd::slice::slice_subrange(
                        self.buffer.as_slice(),
                        at,
                        at + SENSOR_PACKET_SIZE,
                    ),
                );
                let ghost before = packet_bytes(packets@);
                let ghost others = read_packets(buffer.skip(at + 7)).0;
                assert(packet@ =~= rest.take(7));
                assert(rest.skip(7) =~= buffer.skip(at + 7));
                packets.push(packet);
                at = at + SENSOR_PACKET_SIZE;
                assert(packet_bytes(packets@) =~= before.push(rest.take(7)));
                assert(before + (seq![rest.take(7)] + others) =~= packet_bytes(packets@) + others);
            } else {
                assert(rest.skip(1) =~= buffer.skip(at + 1));
                at = at + 1;
            }
        }
        proof {
            lemma_rest_is_short(buffer);
        }
        let rest: Vec<u8> = self.buffer.split_off(at);
        assert(rest@ =~= buffer.skip(at as int));
        self.buffer = rest;
        assert(packet_bytes(packets@) + Seq::<Seq<u8>>::empty() =~= packet_bytes(packets@));
        packets
    }

    pub fn is_sensor_ready(&self) -> (result: bool)
        ensures
            result == self@.ready,
    {
        self.sensor_ready
    }

    pub fn buffered_len(&self) -> (result: usize)
        ensures
            result == self@.buffer.len(),
    {
        self.buffer.len()
    }

    pub fn reset(&mut self)
        ensures
            final(self)@ == fresh(),
    {
        self.buffer = Vec::new();
        self.sensor_ready = false;
    }
}

fn find_handshake(bytes: &[u8]) -> (result: Option<usize>)
    ensures
        match handshake_at(bytes@) {
            Some(at) => result is Some && result->Some_0 == at,
            None => result is None,
        },
{
    let mut at: usize = 0;
    assert(bytes@.skip(0) =~= bytes@);
    while bytes.len() - at >= 2
        invariant
            at <= bytes.len(),
            match handshake_at(bytes@.skip(at as int)) {
                Some(further) => handshake_at(bytes@) == Some(at + further),
                None => handshake_at(bytes@) is None,
            },
        decreases bytes.len() - at,
    {
        if bytes[at] == 0x4f && bytes[at + 1] == 0x4b {
            return Some(at);
        }
        assert(bytes@.skip(at as int).skip(1) =~= bytes@.skip(at + 1));
        at = at + 1;
    }
    None
}

/// How many of the bytes that are waiting one read takes.
pub fn read_len(available: usize) -> (result: usize)
    ensures
        result == (if available < READ_CHUNK {
            available
        } else {
            READ_CHUNK
        }),
{
    if available < READ_CHUNK {
        available
    } else {
        READ_CHUNK
    }
}

} // verus!
