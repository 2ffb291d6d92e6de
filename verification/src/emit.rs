//! The two forms in which a voxel list is stored: lines of text for a voxel
//! editor, and a stream of fixed-size records for the game.

use vstd::prelude::*;
use crate::voxel::Voxel;

verus! {

/// The digit `0`.
pub const DIGIT_ZERO: u8 = 48;

/// The blank between the fields of a line.
pub const BLANK: u8 = 32;

/// The end of a line.
pub const NEWLINE: u8 = 10;

/// The letter `f`, of which the color of every voxel is made.
pub const COLOR_LETTER: u8 = 102;

/// Bytes in the count that a record stream begins with.
pub const COUNT_BYTES: usize = 4;

/// Bytes in one record of a record stream.
pub const RECORD_BYTES: usize = 6;

/// The decimal digits of `n`, without leading zeros.
pub open spec fn decimal(n: nat) -> Seq<u8>
    decreases n,
{
    if n < 10 {
        seq![(DIGIT_ZERO + n) as u8]
    } else {
        decimal(n / 10).push((DIGIT_ZERO + n % 10) as u8)
    }
}

/// The color of every voxel: opaque white, `ffffffff`.
pub open spec fn color() -> Seq<u8> {
    Seq::new(8, |k: int| COLOR_LETTER)
}

/// The line of a voxel: its x, z and y coordinate and its color, separated
/// by blanks. The editor that reads the lines has its vertical axis last.
pub open spec fn text_line(voxel: Voxel) -> Seq<u8> {
    decimal(voxel.x as nat) + seq![BLANK] + decimal(voxel.z as nat) + seq![BLANK] + decimal(
        voxel.y as nat,
    ) + seq![BLANK] + color() + seq![NEWLINE]
}

/// The lines of the first `count` voxels.
pub open spec fn text_lines(voxels: Seq<Voxel>, count: int) -> Seq<u8>
    decreases count,
{
    if count <= 0 {
        Seq::empty()
    } else {
        text_lines(voxels, count - 1) + text_line(voxels[count - 1])
    }
}

/// The text form of a voxel list: one line for each voxel.
pub open spec fn text_of(voxels: Seq<Voxel>) -> Seq<u8> {
    text_lines(voxels, voxels.len() as int)
}

/// The two bytes of `n`, lowest first.
pub open spec fn le16(n: u16) -> Seq<u8> {
    seq![(n % 256) as u8, (n / 256) as u8]
}

/// The four bytes of `n`, lowest first.
pub open spec fn le32(n: u32) -> Seq<u8> {
    seq![
        (n % 256) as u8,
        ((n / 256) % 256) as u8,
        ((n / 65536) % 256) as u8,
        (n / 16777216) as u8,
    ]
}

/// The record of a voxel: its x, y and z coordinate, two bytes each.
pub open spec fn record(voxel: Voxel) -> Seq<u8> {
    le16(voxel.x) + le16(voxel.y) + le16(voxel.z)
}

/// The records of the first `count` voxels.
pub open spec fn records(voxels: Seq<Voxel>, count: int) -> Seq<u8>
    decreases count,
{
    if count <= 0 {
        Seq::empty()
    } else {
        records(voxels, count - 1) + record(voxels[count - 1])
    }
}

/// The record stream of a voxel list: the number of voxels in four bytes,
/// then one record for each voxel.
pub open spec fn stream_of(voxels: Seq<Voxel>) -> Seq<u8> {
    le32(voxels.len() as u32) + records(voxels, voxels.len() as int)
}

/// The number that two bytes stand for, lowest first.
pub open spec fn from_le16(low: u8, high: u8) -> u16 {
    (low + 256 * high) as u16
}

/// The number of records that a stream announces in its first four bytes.
pub open spec fn announced(bytes: Seq<u8>) -> int {
    bytes[0] + 256 * bytes[1] + 65536 * bytes[2] + 16777216 * bytes[3]
}

/// The stream holds its count and as many records as the count announces.
/// What follows the last record is not looked at.
pub open spec fn is_stream(bytes: Seq<u8>) -> bool {
    bytes.len() >= COUNT_BYTES && COUNT_BYTES + RECORD_BYTES * announced(bytes) <= bytes.len()
}

/// The voxel in record `i` of a stream.
pub open spec fn record_at(bytes: Seq<u8>, i: int) -> Voxel {
    let start = COUNT_BYTES + RECORD_BYTES * i;
    Voxel {
        x: from_le16(bytes[start], bytes[start + 1]),
        y: from_le16(bytes[start + 2], bytes[start + 3]),
        z: from_le16(bytes[start + 4], bytes[start + 5]),
    }
}

/// The voxels that a stream holds.
pub open spec fn voxels_in(bytes: Seq<u8>) -> Seq<Voxel> {
    Seq::new(announced(bytes) as nat, |i: int| record_at(bytes, i))
}

/// Appends the decimal digits of `n`.
fn push_decimal(out: &mut Vec<u8>, n: u16)
    ensures
        final(out)@ == old(out)@ + decimal(n as nat),
    decreases n,
{
    if n >= 10 {
        push_decimal(out, n / 10);
    }
    let ghost earlier = out@;
    out.push(DIGIT_ZERO + (n % 10) as u8);
    proof {
        if n >= 10 {
            assert(out@ =~= old(out)@ + decimal((n / 10) as nat).push(
                (DIGIT_ZERO + n % 10) as u8,
            ));
        } else {
            assert(out@ =~= old(out)@ + decimal(n as nat));
        }
    }
}

/// Appends the line of `voxel`.
fn push_line(out: &mut Vec<u8>, voxel: Voxel)
    ensures
        final(out)@ == old(out)@ + text_line(voxel),
{
    push_decimal(out, voxel.x);
    out.push(BLANK);
    push_decimal(out, voxel.z);
    out.push(BLANK);
    push_decimal(out, voxel.y);
    out.push(BLANK);
    let ghost colorless = out@;
    let mut letters: usize = 0;
    while letters < 8
        invariant
            letters <= 8,
            out@ == colorless + Seq::new(letters as nat, |k: int| COLOR_LETTER),
        decreases 8 - letters,
    {
        out.push(COLOR_LETTER);
        letters += 1;
        assert(out@ =~= colorless + Seq::new(letters as nat, |k: int| COLOR_LETTER));
    }
    out.push(NEWLINE);
    assert(out@ =~= old(out)@ + text_line(voxel));
}

/// The text form of a voxel list.
pub fn text_map(voxels: &Vec<Voxel>) -> (text: Vec<u8>)
    ensures
        text@ == text_of(voxels@),
{
    let mut text: Vec<u8> = Vec::new();
    let mut k: usize = 0;
    while k < voxels.len()
        invariant
            k <= voxels.len(),
            text@ == text_lines(voxels@, k as int),
        decreases voxels.len() - k,
    {
        push_line(&mut text, voxels[k]);
        k += 1;
    }
    text
}

/// Appends the two bytes of `n`, lowest first.
fn push_le16(out: &mut Vec<u8>, n: u16)
    ensures
        final(out)@ == old(out)@ + le16(n),
{
    out.push((n % 256) as u8);
    out.push((n / 256) as u8);
    assert(out@ =~= old(out)@ + le16(n));
}

/// The record stream of a voxel list, unless the list has more voxels than
/// the count of a stream can announce.
pub fn binary_map(voxels: &Vec<Voxel>) -> (stream: Option<Vec<u8>>)
    ensures
        stream is Some <==> voxels.len() <= u32::MAX,
        stream matches Some(bytes) ==> bytes@ == stream_of(voxels@),
{
    if voxels.len() > u32::MAX as usize {
        return None;
    }
    let count: u32 = voxels.len() as u32;
    let mut bytes: Vec<u8> = Vec::new();
    bytes.push((count % 256) as u8);
    bytes.push(((count / 256) % 256) as u8);
    bytes.push(((count / 65536) % 256) as u8);
    bytes.push((count / 16777216) as u8);
    assert(bytes@ =~= le32(count));
    let mut k: usize = 0;
    while k < voxels.len()
        invariant
            k <= voxels.len(),
            bytes@ == le32(count) + records(voxels@, k as int),
        decreases voxels.len() - k,
    {
        let voxel = voxels[k];
        let ghost earlier = bytes@;
        push_le16(&mut bytes, voxel.x);
        push_le16(&mut bytes, voxel.y);
        push_le16(&mut bytes, voxel.z);
        k += 1;
        assert(bytes@ =~= le32(count) + (records(voxels@, k - 1) + record(voxel)));
    }
    Some(bytes)
}

/// The voxels of a record stream, unless the stream is shorter than its
/// count announces.
pub fn parse_binary_map(bytes: &Vec<u8>) -> (voxels: Option<Vec<Voxel>>)
    ensures
        voxels is Some <==> is_stream(bytes@),
        voxels matches Some(list) ==> list@ == voxels_in(bytes@),
{
    if bytes.len() < COUNT_BYTES {
        return None;
    }
    let count: u64 = bytes[0] as u64 + 256 * (bytes[1] as u64) + 65536 * (bytes[2] as u64)
        + 16777216 * (bytes[3] as u64);
    assert(RECORD_BYTES * count == 6 * count);
    if COUNT_BYTES as u64 + RECORD_BYTES as u64 * count > bytes.len() as u64 {
        return None;
    }
    let mut voxels: Vec<Voxel> = Vec::new();
    let mut i: usize = 0;
    while i < count as usize
        invariant
            count == announced(bytes@),
            is_stream(bytes@),
            4 + 6 * count <= bytes.len(),
            i <= count,
            voxels.len() == i,
            forall|j: int| 0 <= j < i ==> #[trigger] voxels[j] == record_at(bytes@, j),
        decreases count - i,
    {
        assert(RECORD_BYTES * i == 6 * i);
        let start: usize = COUNT_BYTES + RECORD_BYTES * i;
        let x: u16 = bytes[start] as u16 + 256 * (bytes[start + 1] as u16);
        let y: u16 = bytes[start + 2] as u16 + 256 * (bytes[start + 3] as u16);
        let z: u16 = bytes[start + 4] as u16 + 256 * (bytes[start + 5] as u16);
        voxels.push(Voxel { x, y, z });
        i += 1;
    }
    assert(voxels@ =~= voxels_in(bytes@));
    Some(voxels)
}

/// The records of `count` voxels take six bytes each, and the record of
/// voxel `i` stands at place `6 * i`.
proof fn lemma_records_layout(voxels: Seq<Voxel>, count: int, i: int, offset: int)
    requires
        0 <= i < count <= voxels.len(),
        0 <= offset < RECORD_BYTES,
    ensures
        records(voxels, count).len() == RECORD_BYTES * count,
        records(voxels, count)[RECORD_BYTES * i + offset] == record(voxels[i])[offset],
    decreases count,
{
    lemma_records_len(voxels, count - 1);
    if i < count - 1 {
        lemma_records_layout(voxels, count - 1, i, offset);
    }
}

proof fn lemma_records_len(voxels: Seq<Voxel>, count: int)
    requires
        0 <= count <= voxels.len(),
    ensures
        records(voxels, count).len() == RECORD_BYTES * count,
    decreases count,
{
    if count > 0 {
        lemma_records_len(voxels, count - 1);
    }
}

/// Reading a record stream gives back the voxels that it was written from.
pub proof fn stream_round_trips(voxels: Seq<Voxel>)
    requires
        voxels.len() <= u32::MAX,
    ensures
        is_stream(stream_of(voxels)),
        voxels_in(stream_of(voxels)) == voxels,
{
    let bytes = stream_of(voxels);
    let count = voxels.len() as int;
    lemma_records_len(voxels, count);
    assert(announced(bytes) == count);
    assert forall|i: int| 0 <= i < count implies record_at(bytes, i) == voxels[i] by {
        lemma_records_layout(voxels, count, i, 0);
        lemma_records_layout(voxels, count, i, 1);
        lemma_records_layout(voxels, count, i, 2);
        lemma_records_layout(voxels, count, i, 3);
        lemma_records_layout(voxels, count, i, 4);
        lemma_records_layout(voxels, count, i, 5);
    }
    assert(voxels_in(bytes) =~= voxels);
}

} // verus!
