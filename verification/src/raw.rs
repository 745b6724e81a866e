//! The three on-disk encodings of the allocation table: where the value of
//! an entry lies in the bytes of a table, and how it is read and written.
//!
//! A 12-bit table packs two entries into three bytes, little-endian, the even
//! entry in the low twelve bits. A 16-bit table holds each entry in two
//! bytes, little-endian. A 32-bit table holds each entry in four bytes,
//! little-endian; only the low 28 bits are the entry's value, and a write
//! leaves the upper four bits as they were.
use crate::entry::FatType;
use vstd::prelude::*;

verus! {

/// The index of the first byte that holds a part of the entry of `cluster`.
pub open spec fn entry_offset(kind: FatType, cluster: int) -> int {
    match kind {
        FatType::Fat12 => cluster + cluster / 2,
        FatType::Fat16 => 2 * cluster,
        FatType::Fat32 => 4 * cluster,
    }
}

/// The index behind the last byte that holds a part of the entry of `cluster`.
pub open spec fn entry_end(kind: FatType, cluster: int) -> int {
    match kind {
        FatType::Fat12 => entry_offset(kind, cluster) + 2,
        FatType::Fat16 => entry_offset(kind, cluster) + 2,
        FatType::Fat32 => entry_offset(kind, cluster) + 4,
    }
}

/// The value of the entry of `cluster` in the table bytes `bytes`.
pub open spec fn raw_at(kind: FatType, bytes: Seq<u8>, cluster: int) -> u32 {
    let o = entry_offset(kind, cluster);
    match kind {
        FatType::Fat12 => if cluster % 2 == 0 {
            (bytes[o] + 256 * (bytes[o + 1] % 16)) as u32
        } else {
            (bytes[o] / 16 + 16 * bytes[o + 1]) as u32
        },
        FatType::Fat16 => (bytes[o] + 256 * bytes[o + 1]) as u32,
        FatType::Fat32 => ((bytes[o] + 256 * bytes[o + 1] + 65536 * bytes[o + 2] + 16777216
            * bytes[o + 3]) % 0x1000_0000) as u32,
    }
}

/// The table bytes after the value `raw` has been written to the entry of
/// `cluster`.
pub open spec fn with_raw(kind: FatType, bytes: Seq<u8>, cluster: int, raw: u32) -> Seq<u8> {
    let o = entry_offset(kind, cluster);
    match kind {
        FatType::Fat12 => if cluster % 2 == 0 {
            bytes.update(o, (raw % 256) as u8).update(
                o + 1,
                ((bytes[o + 1] / 16) * 16 + raw / 256) as u8,
            )
        } else {
            bytes.update(o, (bytes[o] % 16 + 16 * (raw % 16)) as u8).update(
                o + 1,
                (raw / 16) as u8,
            )
        },
        FatType::Fat16 => bytes.update(o, (raw % 256) as u8).update(o + 1, (raw / 256) as u8),
        FatType::Fat32 => bytes.update(o, (raw % 256) as u8).update(
            o + 1,
            (raw / 256 % 256) as u8,
        ).update(o + 2, (raw / 65536 % 256) as u8).update(
            o + 3,
            ((bytes[o + 3] / 16) * 16 + raw / 16777216) as u8,
        ),
    }
}

/// Reads the value of the entry of `cluster`.
pub fn read_raw(kind: FatType, bytes: &[u8], cluster: u32) -> (raw: u32)
    requires
        entry_end(kind, cluster as int) <= bytes.len(),
    ensures
        raw == raw_at(kind, bytes@, cluster as int),
        raw <= kind.spec_end_mark(),
{
    let c = cluster as usize;
    match kind {
        FatType::Fat12 => {
            let o = c + c / 2;
            let lo = bytes[o] as u32;
            let hi = bytes[o + 1] as u32;
            if c % 2 == 0 {
                lo + 256 * (hi % 16)
            } else {
                lo / 16 + 16 * hi
            }
        },
        FatType::Fat16 => {
            let o = 2 * c;
            bytes[o] as u32 + 256 * (bytes[o + 1] as u32)
        },
        FatType::Fat32 => {
            let o = 4 * c;
            bytes[o] as u32 + 256 * (bytes[o + 1] as u32) + 65536 * (bytes[o + 2] as u32)
                + 16777216 * ((bytes[o + 3] as u32) % 16)
        },
    }
}

/// Writes the value `raw` to the entry of `cluster`.
pub fn write_raw(kind: FatType, bytes: &mut Vec<u8>, cluster: u32, raw: u32)
    requires
        entry_end(kind, cluster as int) <= old(bytes).len(),
        raw <= kind.spec_end_mark(),
    ensures
        final(bytes)@ == with_raw(kind, old(bytes)@, cluster as int, raw),
{
    let c = cluster as usize;
    match kind {
        FatType::Fat12 => {
            let o = c + c / 2;
            if c % 2 == 0 {
                let keep = bytes[o + 1] / 16;
                bytes[o] = (raw % 256) as u8;
                bytes[o + 1] = keep * 16 + (raw / 256) as u8;
            } else {
                let keep = bytes[o] % 16;
                bytes[o] = keep + 16 * ((raw % 16) as u8);
                bytes[o + 1] = (raw / 16) as u8;
            }
        },
        FatType::Fat16 => {
            let o = 2 * c;
            bytes[o] = (raw % 256) as u8;
            bytes[o + 1] = (raw / 256) as u8;
        },
        FatType::Fat32 => {
            let o = 4 * c;
            let keep = bytes[o + 3] / 16;
            bytes[o] = (raw % 256) as u8;
            bytes[o + 1] = (raw / 256 % 256) as u8;
            bytes[o + 2] = (raw / 65536 % 256) as u8;
            bytes[o + 3] = keep * 16 + (raw / 16777216) as u8;
        },
    }
}

/// A write changes no byte outside of the entry, nor the length of the table.
pub proof fn lemma_write_is_local(kind: FatType, bytes: Seq<u8>, cluster: int, raw: u32, i: int)
    requires
        0 <= cluster,
        entry_end(kind, cluster) <= bytes.len(),
        0 <= i < bytes.len(),
        i < entry_offset(kind, cluster) || entry_end(kind, cluster) <= i,
    ensures
        with_raw(kind, bytes, cluster, raw).len() == bytes.len(),
        with_raw(kind, bytes, cluster, raw)[i] == bytes[i],
{
}

/// What was written to an entry is what is read from it.
pub proof fn lemma_read_written(kind: FatType, bytes: Seq<u8>, cluster: int, raw: u32)
    requires
        0 <= cluster,
        entry_end(kind, cluster) <= bytes.len(),
        raw <= kind.spec_end_mark(),
    ensures
        raw_at(kind, with_raw(kind, bytes, cluster, raw), cluster) == raw,
{
    let o = entry_offset(kind, cluster);
    let after = with_raw(kind, bytes, cluster, raw);
    match kind {
        FatType::Fat12 => {
            if cluster % 2 == 0 {
                assert(after[o] == raw % 256);
                assert(after[o + 1] == (bytes[o + 1] / 16) * 16 + raw / 256);
            } else {
                assert(after[o] == bytes[o] % 16 + 16 * (raw % 16));
                assert(after[o + 1] == raw / 16);
            }
        },
        FatType::Fat16 => {
            assert(after[o] == raw % 256);
            assert(after[o + 1] == raw / 256);
        },
        FatType::Fat32 => {
            let keep = bytes[o + 3] / 16;
            assert(after[o] == raw % 256);
            assert(after[o + 1] == raw / 256 % 256);
            assert(after[o + 2] == raw / 65536 % 256);
            assert(after[o + 3] == keep * 16 + raw / 16777216);
            lemma_four_bytes(raw, keep);
        },
    }
}

proof fn lemma_four_bytes(raw: u32, keep: u8)
    requires
        raw <= 0x0FFF_FFFF,
        keep < 16,
    ensures
        (raw % 256 + 256 * (raw / 256 % 256) + 65536 * (raw / 65536 % 256) + 16777216 * (keep * 16
            + raw / 16777216)) % 0x1000_0000 == raw,
{
    let q1 = raw / 256;
    let q2 = q1 / 256;
    let q3 = q2 / 256;
    assert(raw == 256 * q1 + raw % 256);
    assert(q1 == 256 * q2 + q1 % 256);
    assert(q2 == 256 * q3 + q2 % 256);
    assert(q2 == raw / 65536);
    assert(q3 == raw / 16777216);
    let sum = raw % 256 + 256 * (raw / 256 % 256) + 65536 * (raw / 65536 % 256) + 16777216 * (keep
        * 16 + raw / 16777216);
    assert(sum == raw + 0x1000_0000 * keep);
}

/// A write to one entry leaves the value of every other entry as it was,
/// also that of a 12-bit neighbour that shares a byte with it.
pub proof fn lemma_read_other(kind: FatType, bytes: Seq<u8>, cluster: int, raw: u32, other: int)
    requires
        0 <= cluster,
        0 <= other,
        other != cluster,
        entry_end(kind, cluster) <= bytes.len(),
        entry_end(kind, other) <= bytes.len(),
        raw <= kind.spec_end_mark(),
    ensures
        raw_at(kind, with_raw(kind, bytes, cluster, raw), other) == raw_at(kind, bytes, other),
{
}

/// A write to a 32-bit entry keeps the upper four bits of its last byte.
pub proof fn lemma_write_keeps_upper_bits(bytes: Seq<u8>, cluster: int, raw: u32)
    requires
        0 <= cluster,
        entry_end(FatType::Fat32, cluster) <= bytes.len(),
        raw <= FatType::Fat32.spec_end_mark(),
    ensures
        with_raw(FatType::Fat32, bytes, cluster, raw)[4 * cluster + 3] / 16 == bytes[4 * cluster
            + 3] / 16,
{
}

} // verus!
