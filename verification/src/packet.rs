//! The controller's 15-byte command packet.
use crate::double::{Double, Single};
use vstd::arithmetic::power2::*;
use vstd::prelude::*;

verus! {

pub const CONTROLLER_HEADER: u8 = 0xA0;

pub const CONTROLLER_PACKET_LEN: usize = 15;

/// Largest magnitude the controller firmware handles correctly, per axis
/// (X, Y, Z): 42000, 17700 and 69000, as double-precision patterns.
///
/// Past its limit the firmware writes the raw value into a capture/compare
/// register without an absolute value and without a clamp, so an out-of-range
/// command wraps on X and Y, drops to zero where it is negative, and reports
/// nothing back. The only defence is never to send such a value.
pub const FIRMWARE_MAX_OUTPUT: [u64; 3] = [
    0x40e4_8200_0000_0000,
    0x40d1_4900_0000_0000,
    0x40f0_d880_0000_0000,
];

/// The largest magnitude for `axis`; past the third axis the third one's holds.
pub open spec fn firmware_limit(axis: int) -> Double {
    if axis == 0 {
        Double { bits: 0x40e4_8200_0000_0000 }
    } else if axis == 1 {
        Double { bits: 0x40d1_4900_0000_0000 }
    } else {
        Double { bits: 0x40f0_d880_0000_0000 }
    }
}

/// One shift of the Modbus checksum register, with the reversed polynomial
/// folded in where a one falls out.
pub open spec fn crc_shift(crc: u16) -> u16 {
    if crc & 1 != 0 {
        (crc >> 1) ^ 0xA001
    } else {
        crc >> 1
    }
}

/// `count` shifts of the register.
pub open spec fn crc_shifts(crc: u16, count: nat) -> u16
    decreases count,
{
    if count == 0 {
        crc
    } else {
        crc_shift(crc_shifts(crc, (count - 1) as nat))
    }
}

/// The Modbus checksum register after `data`.
pub open spec fn crc_register(data: Seq<u8>) -> u16
    decreases data.len(),
{
    if data.len() == 0 {
        0xFFFF
    } else {
        crc_shifts(crc_register(data.drop_last()) ^ (data.last() as u16), 8)
    }
}

/// The Modbus checksum of `data`, high byte first.
pub fn calculate_mod_rtu_crc(data: &[u8]) -> (result: [u8; 2])
    ensures
        result[0] == crc_register(data@) / 256,
        result[1] == crc_register(data@) % 256,
{
    let mut crc: u16 = 0xFFFF;
    let mut index: usize = 0;
    while index < data.len()
        invariant
            index <= data.len(),
            crc == crc_register(data@.take(index as int)),
        decreases data.len() - index,
    {
        let ghost before = data@.take(index as int);
        let ghost after = data@.take(index + 1);
        assert(after.drop_last() =~= before);
        crc = crc ^ (data[index] as u16);
        let ghost start = crc;
        let mut count: usize = 0;
        while count < 8
            invariant
                count <= 8,
                crc == crc_shifts(start, count as nat),
            decreases 8 - count,
        {
            if crc & 1 != 0 {
                crc = (crc >> 1) ^ 0xA001;
            } else {
                crc = crc >> 1;
            }
            count = count + 1;
        }
        index = index + 1;
    }
    assert(data@.take(data.len() as int) =~= data@);
    [(crc / 256) as u8, (crc % 256) as u8]
}

/// A register whose low byte is cleared is shifted down by a byte.
proof fn lemma_whole_byte(crc: u16, low: u16)
    requires
        low == crc % 256,
    ensures
        crc_shifts(crc ^ low, 8) == crc / 256,
{
    let cleared = crc ^ low;
    assert(cleared & 1 == 0 && (cleared >> 1) & 1 == 0 && (cleared >> 1 >> 1) & 1 == 0 && (cleared
        >> 1 >> 1 >> 1) & 1 == 0 && (cleared >> 1 >> 1 >> 1 >> 1) & 1 == 0 && (cleared >> 1 >> 1
        >> 1 >> 1 >> 1) & 1 == 0 && (cleared >> 1 >> 1 >> 1 >> 1 >> 1 >> 1) & 1 == 0 && (cleared
        >> 1 >> 1 >> 1 >> 1 >> 1 >> 1 >> 1) & 1 == 0 && cleared >> 1 >> 1 >> 1 >> 1 >> 1 >> 1 >> 1
        >> 1 == crc / 256) by (bit_vector)
        requires
            low == crc % 256,
            cleared == crc ^ low,
    ;
    reveal_with_fuel(crc_shifts, 9);
}

/// Data followed by its checksum, low byte first, leaves the register at zero: a
/// receiver that runs the checksum over all of it finds no remainder.
pub proof fn law_a_checksum_leaves_no_remainder(data: Seq<u8>)
    ensures
        crc_register(
            data.push((crc_register(data) % 256) as u8).push((crc_register(data) / 256) as u8),
        ) == 0,
{
    let crc = crc_register(data);
    let low = (crc % 256) as u8;
    let high = (crc / 256) as u8;
    let most = data.push(low);
    let all = most.push(high);
    assert(most.drop_last() =~= data);
    assert(all.drop_last() =~= most);
    lemma_whole_byte(crc, low as u16);
    let rest = crc / 256;
    assert(crc_register(most) == rest);
    assert(rest ^ rest == 0) by (bit_vector);
    assert(crc_register(all) == crc_shifts(0, 8));
    assert(crc_shifts(0, 8) == 0) by {
        assert(0u16 & 1 == 0 && 0u16 >> 1 == 0) by (bit_vector);
        reveal_with_fuel(crc_shifts, 9);
    }
}

/// Clamps one axis to what the firmware can act on. See
/// [`FIRMWARE_MAX_OUTPUT`] for why exceeding it is worse than saturating.
pub fn clamp_to_firmware(axis: usize, output: Double) -> (result: Double)
    ensures
        result == output.clamped(firmware_limit(axis as int).negated(), firmware_limit(axis as int)),
        !output.nan() ==> result.finite(),
        !output.nan() ==> result.magnitude() <= firmware_limit(axis as int).magnitude(),
{
    let slot: usize = if axis < 2 {
        axis
    } else {
        2
    };
    let limit: Double = Double::from_bits(FIRMWARE_MAX_OUTPUT[slot]);
    output.clamp(limit.neg(), limit)
}

/// The word that four bytes hold, low byte first.
pub open spec fn little_endian(bytes: Seq<u8>) -> int {
    bytes[0] + 0x100 * bytes[1] + 0x1_0000 * bytes[2] + 0x100_0000 * bytes[3]
}

/// The single-precision number that `packet` carries for `axis`.
pub open spec fn packet_axis(packet: Seq<u8>, axis: int) -> Single {
    Single { bits: little_endian(packet.subrange(1 + 4 * axis, 5 + 4 * axis)) as u32 }
}

/// What `packet` has to hold to command `outputs`: the header, each axis
/// clamped to the firmware's range and rounded to single precision, and the
/// checksum of all that with its high byte first.
pub open spec fn commands(packet: Seq<u8>, outputs: Seq<Double>) -> bool {
    &&& outputs.len() == 3
    &&& packet.len() == CONTROLLER_PACKET_LEN
    &&& packet[0] == CONTROLLER_HEADER
    &&& forall|axis: int|
        0 <= axis < 3 ==> (#[trigger] outputs[axis]).clamped(
            firmware_limit(axis).negated(),
            firmware_limit(axis),
        ).narrows_to(packet_axis(packet, axis))
    &&& packet[13] == crc_register(packet.take(13)) / 256
    &&& packet[14] == crc_register(packet.take(13)) % 256
}

fn word_bytes(word: u32) -> (result: [u8; 4])
    ensures
        little_endian(result@) == word,
{
    [
        (word % 0x100) as u8,
        (word / 0x100 % 0x100) as u8,
        (word / 0x1_0000 % 0x100) as u8,
        (word / 0x100_0000) as u8,
    ]
}

/// The command packet for three coil outputs.
///
/// The clamp stands here rather than at the call sites: every path to the
/// coils goes through this function, and a value the firmware mishandles must
/// not be constructible.
pub fn build_controller_packet(output_x: Double, output_y: Double, output_z: Double) -> (packet: [u8;
    CONTROLLER_PACKET_LEN])
    ensures
        commands(packet@, seq![output_x, output_y, output_z]),
{
    let x: [u8; 4] = word_bytes(clamp_to_firmware(0, output_x).narrow().bits);
    let y: [u8; 4] = word_bytes(clamp_to_firmware(1, output_y).narrow().bits);
    let z: [u8; 4] = word_bytes(clamp_to_firmware(2, output_z).narrow().bits);
    let body: [u8; 13] = [
        CONTROLLER_HEADER,
        x[0],
        x[1],
        x[2],
        x[3],
        y[0],
        y[1],
        y[2],
        y[3],
        z[0],
        z[1],
        z[2],
        z[3],
    ];
    let crc: [u8; 2] = calculate_mod_rtu_crc(body.as_slice());
    let packet: [u8; CONTROLLER_PACKET_LEN] = [
        CONTROLLER_HEADER,
        x[0],
        x[1],
        x[2],
        x[3],
        y[0],
        y[1],
        y[2],
        y[3],
        z[0],
        z[1],
        z[2],
        z[3],
        crc[0],
        crc[1],
    ];
    proof {
        assert(packet@.take(13) =~= body@);
        assert(packet@.subrange(1, 5) =~= x@);
        assert(packet@.subrange(5, 9) =~= y@);
        assert(packet@.subrange(9, 13) =~= z@);
        let outputs = seq![output_x, output_y, output_z];
        assert(packet_axis(packet@, 0).bits == little_endian(x@));
        assert(packet_axis(packet@, 1).bits == little_endian(y@));
        assert(packet_axis(packet@, 2).bits == little_endian(z@));
        assert forall|axis: int| 0 <= axis < 3 implies (#[trigger] outputs[axis]).clamped(
            firmware_limit(axis).negated(),
            firmware_limit(axis),
        ).narrows_to(packet_axis(packet@, axis)) by {
            assert(axis == 0 || axis == 1 || axis == 2);
        }
    }
    packet
}

/// The largest output per axis as a whole number.
pub open spec fn firmware_limit_value(axis: int) -> nat {
    if axis == 0 {
        42000
    } else if axis == 1 {
        17700
    } else {
        69000
    }
}

/// Whatever is asked for, the number that a packet carries for an axis stays
/// within what the firmware handles there, measured in units of `2^-149`.
pub proof fn law_no_packet_leaves_the_firmware_range(
    packet: Seq<u8>,
    outputs: Seq<Double>,
    axis: int,
)
    requires
        0 <= axis < 3,
        commands(packet, outputs),
        !outputs[axis].nan(),
    ensures
        crate::double::single_units(packet_axis(packet, axis).magnitude())
            <= firmware_limit_value(axis) * pow2(149),
{
    let limit = firmware_limit(axis);
    let clamped = outputs[axis].clamped(limit.negated(), limit);
    assert(clamped.magnitude() <= limit.magnitude());
    crate::double::law_magnitudes_keep_order(clamped.magnitude(), limit.magnitude());
    let (exponent, kept): (nat, nat) = if axis == 0 {
        (1038, 0x24_1000)
    } else if axis == 1 {
        (1037, 0x0a_4800)
    } else {
        (1039, 0x06_c400)
    };
    let single = (exponent - 896) as nat * 0x80_0000 + kept;
    assert(limit.magnitude() == exponent * 0x10_0000_0000_0000 + kept * 0x2000_0000);
    crate::double::law_short_fractions_are_exact(exponent, kept);
    let units = crate::double::double_units(limit.magnitude());
    crate::double::law_exact_numbers_round_to_themselves(units, single);
    crate::double::law_rounding_keeps_order(
        crate::double::double_units(clamped.magnitude()),
        units,
        packet_axis(packet, axis).magnitude(),
        single,
    );
    assert(single / 0x80_0000 == exponent - 896);
    assert(single % 0x80_0000 == kept);
    lemma2_to64();
    if axis == 0 {
        lemma_pow2_adds(141, 8);
        assert(crate::double::single_units(single) == 10752000 * pow2(141));
        assert(firmware_limit_value(axis) * pow2(149) == 42000 * pow2(149));
    } else if axis == 1 {
        lemma_pow2_adds(140, 9);
        assert(crate::double::single_units(single) == 9062400 * pow2(140));
        assert(firmware_limit_value(axis) * pow2(149) == 17700 * pow2(149));
    } else {
        lemma_pow2_adds(142, 7);
        assert(crate::double::single_units(single) == 8832000 * pow2(142));
        assert(firmware_limit_value(axis) * pow2(149) == 69000 * pow2(149));
    }
}

/// A value inside the firmware's range is commanded as it is, rounded to
/// single precision and nothing else.
pub proof fn law_values_in_range_pass_through(packet: Seq<u8>, outputs: Seq<Double>, axis: int)
    requires
        0 <= axis < 3,
        commands(packet, outputs),
        outputs[axis].magnitude() <= firmware_limit(axis).magnitude(),
    ensures
        outputs[axis].narrows_to(packet_axis(packet, axis)),
{
}

} // verus!
