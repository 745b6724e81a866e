//! The directory layer: the 32-byte slots of a directory, the entries that
//! they hold, and how entries are listed, created and removed.
//!
//! A directory is a run of slots. A slot whose first byte is 0x00 ends the
//! directory: neither it nor any slot behind it holds an entry. A slot whose
//! first byte is 0xE5 is deleted. Of the other slots, those with the
//! attribute 0x0F carry a part of a long name, and the rest are short
//! entries, one for each file. The slots of a long name stand directly in
//! front of their short entry, the one with the ordinal 1 nearest to it, and
//! each carries the checksum of the short name. Slots of a long name that do
//! not lead up to a short entry in this way belong to no entry.
use crate::boot::{le16, le32, read_le16, read_le32};
use crate::error::Error;
use crate::name::{
    alias, check_name, checksum, fits_short, is_lfn_slot, is_long_name, lemma_alias_begins,
    lemma_long_round_trip, lemma_short_begins, lemma_short_round_trip, long_name, make_alias,
    MAX_ALIAS_NUMBER, names_match, read_unit, run_units, same_name, short_of, short_to_units,
    short_units, slot_unit, slots_for, spec_checksum, to_short, valid_name, write_lfn_slot,
};
use vstd::prelude::*;

verus! {

/// The length of a slot in bytes.
pub const SLOT_LEN: usize = 32;

/// The attribute byte of a slot that carries a part of a long name.
pub const ATTR_LONG_NAME: u8 = 0x0F;

/// The attribute bit of a directory.
pub const ATTR_DIRECTORY: u8 = 0x10;

/// The attribute bit of a volume label.
pub const ATTR_VOLUME_ID: u8 = 0x08;

/// The first byte of a deleted slot.
pub const DELETED: u8 = 0xE5;

/// The number of slots of the directory `bytes`.
pub open spec fn slot_count(bytes: Seq<u8>) -> int {
    bytes.len() as int / 32
}

/// Whether the slot `i` ends the directory.
pub open spec fn is_end(bytes: Seq<u8>, i: int) -> bool {
    bytes[32 * i] == 0
}

/// Whether the slot `i` is deleted.
pub open spec fn is_deleted(bytes: Seq<u8>, i: int) -> bool {
    bytes[32 * i] == DELETED
}

/// Whether the slot `i` carries a part of a long name.
pub open spec fn is_long(bytes: Seq<u8>, i: int) -> bool {
    !is_end(bytes, i) && !is_deleted(bytes, i) && bytes[32 * i + 11] == ATTR_LONG_NAME
}

/// Whether the slot `i` is a short entry.
pub open spec fn is_short(bytes: Seq<u8>, i: int) -> bool {
    !is_end(bytes, i) && !is_deleted(bytes, i) && bytes[32 * i + 11] != ATTR_LONG_NAME
}

/// The first slot at or behind `from` that ends the directory, or the number
/// of slots where there is none.
pub open spec fn end_from(bytes: Seq<u8>, from: int) -> int
    decreases slot_count(bytes) - from,
{
    if from >= slot_count(bytes) {
        slot_count(bytes)
    } else if is_end(bytes, from) {
        from
    } else {
        end_from(bytes, from + 1)
    }
}

/// The slot that ends the directory, or the number of slots where none does.
pub open spec fn end_index(bytes: Seq<u8>) -> int {
    end_from(bytes, 0)
}

/// Whether the slot `i` holds an entry of the directory: it is a short entry
/// in front of the end.
pub open spec fn listed(bytes: Seq<u8>, i: int) -> bool {
    0 <= i < end_index(bytes) && is_short(bytes, i)
}

/// Whether the slot `i` can take a new entry: it is deleted, or lies at or
/// behind the end of the directory.
pub open spec fn is_vacant(bytes: Seq<u8>, i: int) -> bool {
    i >= end_index(bytes) || is_deleted(bytes, i)
}

/// What `end_from` finds: the first slot that ends the directory.
pub proof fn lemma_end_from(bytes: Seq<u8>, from: int)
    requires
        0 <= from <= slot_count(bytes),
    ensures
        from <= end_from(bytes, from) <= slot_count(bytes),
        end_from(bytes, from) < slot_count(bytes) ==> is_end(bytes, end_from(bytes, from)),
        forall|i: int| from <= i < end_from(bytes, from) ==> !is_end(bytes, i),
    decreases slot_count(bytes) - from,
{
    if from < slot_count(bytes) && !is_end(bytes, from) {
        lemma_end_from(bytes, from + 1);
    }
}

/// The directory ends at the first slot that ends it.
pub proof fn lemma_end_is(bytes: Seq<u8>, from: int, end: int)
    requires
        0 <= from <= end <= slot_count(bytes),
        end < slot_count(bytes) ==> is_end(bytes, end),
        forall|i: int| from <= i < end ==> !is_end(bytes, i),
    ensures
        end_from(bytes, from) == end,
    decreases end - from,
{
    if from < end {
        lemma_end_is(bytes, from + 1, end);
    }
}

/// The index of the first byte of the slot `i`.
pub fn slot_offset(bytes: &[u8], i: usize) -> (at: usize)
    requires
        i < slot_count(bytes@),
    ensures
        at == 32 * i,
        at + 32 <= bytes@.len(),
{
    let len = bytes.len();
    assert(32 * (len as int / 32) <= len);
    32 * i
}

/// Finds the end of the directory.
pub fn find_end(bytes: &[u8]) -> (end: usize)
    ensures
        end == end_index(bytes@),
        end <= slot_count(bytes@),
{
    let count = bytes.len() / 32;
    let mut i: usize = 0;
    while i < count && bytes[slot_offset(bytes, i)] != 0
        invariant
            count == slot_count(bytes@),
            i <= count,
            end_from(bytes@, i as int) == end_index(bytes@),
        decreases count - i,
    {
        i += 1;
    }
    proof {
        lemma_end_from(bytes@, 0);
    }
    i
}

/// What a short entry says of its file besides the name.
#[derive(Debug, PartialEq, Eq, Clone, Copy, Structural)]
pub struct Meta {
    /// The attribute bits: read-only, hidden, system, volume label,
    /// directory, archive.
    pub attributes: u8,
    /// The case flags of base and extension.
    pub case_flags: u8,
    /// The tenths of a second of the creation time.
    pub created_tenths: u8,
    /// The creation time.
    pub created_time: u16,
    /// The creation date.
    pub created_date: u16,
    /// The date of the last access.
    pub accessed_date: u16,
    /// The time of the last modification.
    pub modified_time: u16,
    /// The date of the last modification.
    pub modified_date: u16,
    /// The first cluster of the file, 0 where it has none.
    pub first_cluster: u32,
    /// The size of the file in bytes; 0 for a directory.
    pub size: u32,
}

impl Meta {
    /// The content as it counts on a volume of the variant `kind`: only
    /// FAT32 has the upper half of the first cluster, so that on the other
    /// variants the first cluster is its lower half alone.
    pub open spec fn spec_narrowed(self, kind: crate::entry::FatType) -> Meta {
        if kind == crate::entry::FatType::Fat32 {
            self
        } else {
            Meta { first_cluster: (self.first_cluster % 65536) as u32, ..self }
        }
    }

    /// The content as it counts on a volume of the variant `kind`.
    #[verifier::when_used_as_spec(spec_narrowed)]
    pub fn narrowed(self, kind: crate::entry::FatType) -> (meta: Meta)
        ensures
            meta == self.spec_narrowed(kind),
    {
        match kind {
            crate::entry::FatType::Fat32 => self,
            _ => Meta { first_cluster: self.first_cluster % 65536, ..self },
        }
    }
}

/// The 11 bytes of the short name of the slot `i`.
pub open spec fn short_bytes(bytes: Seq<u8>, i: int) -> Seq<u8> {
    bytes.subrange(32 * i, 32 * i + 11)
}

/// What the short entry in the slot `i` says of its file, as the slot holds
/// it: the first cluster is made of both of its halves, whatever the variant
/// of the volume (see [`Meta::spec_narrowed`]).
pub open spec fn meta_at(bytes: Seq<u8>, i: int) -> Meta {
    let at = 32 * i;
    Meta {
        attributes: bytes[at + 11],
        case_flags: bytes[at + 12],
        created_tenths: bytes[at + 13],
        created_time: le16(bytes, at + 14) as u16,
        created_date: le16(bytes, at + 16) as u16,
        accessed_date: le16(bytes, at + 18) as u16,
        modified_time: le16(bytes, at + 22) as u16,
        modified_date: le16(bytes, at + 24) as u16,
        first_cluster: (le16(bytes, at + 26) + 65536 * le16(bytes, at + 20)) as u32,
        size: le32(bytes, at + 28) as u32,
    }
}

/// The number of slots of a long name that lead up to the short entry in the
/// slot `i`, told by going back from it: the slot `k` steps in front of the
/// entry must carry a part of a long name, the checksum `sum` and the ordinal
/// `k`, and the last of them the ordinal with 0x40 added. Where the slots in
/// front of the entry do not do so, the entry has no long name.
pub open spec fn run_from(bytes: Seq<u8>, i: int, k: int, sum: int) -> int
    decreases 21 - k,
{
    if k > 20 || i - k < 0 || !is_long(bytes, i - k) || bytes[32 * (i - k) + 13] != sum {
        0
    } else if bytes[32 * (i - k)] == k + 0x40 {
        k
    } else if bytes[32 * (i - k)] == k {
        run_from(bytes, i, k + 1, sum)
    } else {
        0
    }
}

/// The number of slots of the long name of the entry in the slot `i`; 0
/// where it has none.
pub open spec fn run_len(bytes: Seq<u8>, i: int) -> int {
    run_from(bytes, i, 1, spec_checksum(short_bytes(bytes, i)))
}

/// The name of the entry in the slot `i`: its long name where it has one,
/// else what its short name stands for.
pub open spec fn entry_name(bytes: Seq<u8>, i: int) -> Seq<u16> {
    if run_len(bytes, i) > 0 {
        long_name(run_units(bytes, 32 * i, run_len(bytes, i)))
    } else {
        short_units(short_bytes(bytes, i))
    }
}

/// A run of slots is no longer than 20 and does not reach in front of the
/// directory.
pub proof fn lemma_run_bounds(bytes: Seq<u8>, i: int, k: int, sum: int)
    requires
        1 <= k,
        0 <= i,
    ensures
        0 <= run_from(bytes, i, k, sum) <= 20,
        run_from(bytes, i, k, sum) <= i,
        run_from(bytes, i, k, sum) > 0 ==> run_from(bytes, i, k, sum) >= k,
    decreases 21 - k,
{
    if !(k > 20 || i - k < 0 || !is_long(bytes, i - k) || bytes[32 * (i - k) + 13] != sum) {
        if bytes[32 * (i - k)] != k + 0x40 && bytes[32 * (i - k)] == k {
            lemma_run_bounds(bytes, i, k + 1, sum);
        }
    }
}

/// An entry of a directory, as a listing gives it.
pub struct DirEntry {
    /// The name of the entry: the long name where it has one.
    pub name: Vec<u16>,
    /// The 11 bytes of the short name.
    pub short_name: [u8; 11],
    /// What the entry says of its file.
    pub meta: Meta,
    /// The slot of the short entry.
    pub slot: usize,
    /// The number of slots of the long name, which lie in front of `slot`.
    pub long_slots: usize,
}

impl DirEntry {
    /// Whether this is the entry in the slot `i` of the directory `bytes`.
    pub open spec fn is_entry_of(&self, bytes: Seq<u8>, i: int) -> bool {
        &&& self.slot == i
        &&& self.name@ == entry_name(bytes, i)
        &&& self.short_name@ == short_bytes(bytes, i)
        &&& self.meta == meta_at(bytes, i)
        &&& self.long_slots == run_len(bytes, i)
    }

    /// Whether the entry is a directory.
    pub fn is_dir(&self) -> (yes: bool)
        ensures
            yes == (self.meta.attributes / 16 % 2 == 1),
    {
        self.meta.attributes / 16 % 2 == 1
    }
}

/// Reads what the short entry in the slot `i` says of its file.
pub fn read_meta(bytes: &[u8], i: usize) -> (meta: Meta)
    requires
        i < slot_count(bytes@),
    ensures
        meta == meta_at(bytes@, i as int),
{
    let at = slot_offset(bytes, i);
    Meta {
        attributes: bytes[at + 11],
        case_flags: bytes[at + 12],
        created_tenths: bytes[at + 13],
        created_time: read_le16(bytes, at + 14),
        created_date: read_le16(bytes, at + 16),
        accessed_date: read_le16(bytes, at + 18),
        modified_time: read_le16(bytes, at + 22),
        modified_date: read_le16(bytes, at + 24),
        first_cluster: read_le16(bytes, at + 26) as u32 + 65536 * (read_le16(bytes, at + 20) as u32),
        size: read_le32(bytes, at + 28),
    }
}

/// Reads the 11 bytes of the short name of the slot `i`.
pub fn read_short(bytes: &[u8], i: usize) -> (short: [u8; 11])
    requires
        i < slot_count(bytes@),
    ensures
        short@ == short_bytes(bytes@, i as int),
{
    let at = slot_offset(bytes, i);
    let mut short = [0u8;11];
    let mut k: usize = 0;
    while k < 11
        invariant
            k <= 11,
            at == 32 * i,
            at + 32 <= bytes@.len(),
            forall|j: int| 0 <= j < k ==> #[trigger] short@[j] == bytes@[32 * i + j],
        decreases 11 - k,
    {
        short[k] = bytes[at + k];
        k += 1;
    }
    assert(short@ =~= short_bytes(bytes@, i as int));
    short
}

/// Counts the slots of the long name that lead up to the slot `i`.
pub fn count_run(bytes: &[u8], i: usize, sum: u8) -> (n: usize)
    requires
        i < slot_count(bytes@),
    ensures
        n == run_from(bytes@, i as int, 1, sum as int),
        n <= 20,
        n <= i,
{
    let mut k: usize = 1;
    loop
        invariant
            1 <= k <= 21,
            i < slot_count(bytes@),
            run_from(bytes@, i as int, k as int, sum as int) == run_from(
                bytes@,
                i as int,
                1,
                sum as int,
            ),
        decreases 21 - k,
    {
        if k > 20 || i < k {
            return 0;
        }
        let at = slot_offset(bytes, i - k);
        let first = bytes[at];
        if first == 0 || first == DELETED || bytes[at + 11] != ATTR_LONG_NAME || bytes[at + 13]
            != sum {
            return 0;
        }
        if first as usize == k + 0x40 {
            return k;
        }
        if first as usize != k {
            return 0;
        }
        k += 1;
    }
}

/// Reads the entry in the slot `i`, which is a short entry.
pub fn entry_at(bytes: &[u8], i: usize) -> (entry: DirEntry)
    requires
        i < slot_count(bytes@),
    ensures
        entry.is_entry_of(bytes@, i as int),
{
    let short = read_short(bytes, i);
    let sum = checksum(&short);
    let n = count_run(bytes, i, sum);
    let name = if n > 0 {
        let ghost units = run_units(bytes@, 32 * i, n as int);
        let mut name: Vec<u16> = Vec::new();
        let mut j: usize = 0;
        let mut done = false;
        while j < 13 * n && !done
            invariant
                n <= 20,
                n <= i < slot_count(bytes@),
                j <= 13 * n,
                units == run_units(bytes@, 32 * i, n as int),
                !done ==> crate::name::find_unit(units, 0, j as int) == crate::name::find_unit(
                    units,
                    0,
                    0,
                ) && name@ == units.take(j as int),
                done ==> name@ == long_name(units),
            decreases 13 * n - j + (if done { 0int } else { 1int }),
        {
            let at = slot_offset(bytes, i - (j / 13 + 1));
            let unit = read_unit(bytes, at, j % 13);
            assert(unit == units[j as int]);
            if unit == 0 {
                done = true;
            } else {
                name.push(unit);
                assert(name@ =~= units.take(j + 1));
                j += 1;
            }
        }
        assert(name@ =~= long_name(units));
        name
    } else {
        short_to_units(&short)
    };
    DirEntry { name, short_name: short, meta: read_meta(bytes, i), slot: i, long_slots: n }
}

/// Lists the entries of the directory in the order of their slots: one for
/// each short entry in front of the end of the directory.
pub fn list(bytes: &[u8]) -> (entries: Vec<DirEntry>)
    ensures
        forall|k: int|
            0 <= k < entries@.len() ==> listed(bytes@, (#[trigger] entries@[k]).slot as int)
                && entries@[k].is_entry_of(bytes@, entries@[k].slot as int),
        forall|k: int, l: int|
            0 <= k < l < entries@.len() ==> entries@[k].slot < entries@[l].slot,
        forall|i: int|
            listed(bytes@, i) ==> exists|k: int|
                0 <= k < entries@.len() && (#[trigger] entries@[k]).slot == i,
{
    let end = find_end(bytes);
    let mut entries: Vec<DirEntry> = Vec::new();
    let mut i: usize = 0;
    while i < end
        invariant
            i <= end,
            end == end_index(bytes@),
            end <= slot_count(bytes@),
            forall|k: int|
                0 <= k < entries@.len() ==> listed(bytes@, (#[trigger] entries@[k]).slot as int)
                    && entries@[k].is_entry_of(bytes@, entries@[k].slot as int) && entries@[k].slot
                    < i,
            forall|k: int, l: int|
                0 <= k < l < entries@.len() ==> entries@[k].slot < entries@[l].slot,
            forall|j: int|
                listed(bytes@, j) && j < i ==> exists|k: int|
                    0 <= k < entries@.len() && (#[trigger] entries@[k]).slot == j,
        decreases end - i,
    {
        let at = slot_offset(bytes, i);
        let first = bytes[at];
        if first != 0 && first != DELETED && bytes[at + 11] != ATTR_LONG_NAME {
            let ghost before = entries@;
            let entry = entry_at(bytes, i);
            entries.push(entry);
            assert forall|j: int| listed(bytes@, j) && j < i + 1 implies exists|k: int|
                0 <= k < entries@.len() && (#[trigger] entries@[k]).slot == j by {
                if j < i {
                    let k = choose|k: int| 0 <= k < before.len() && (#[trigger] before[k]).slot == j;
                    assert(entries@[k].slot == j);
                } else {
                    assert(entries@[before.len() as int].slot == j);
                }
            }
        }
        i += 1;
    }
    entries
}

/// The slots of a run that was found all carry a part of a long name.
pub proof fn lemma_run_is_long(bytes: Seq<u8>, i: int, k: int, sum: int, m: int)
    requires
        1 <= k <= m <= run_from(bytes, i, k, sum),
    ensures
        is_long(bytes, i - m),
    decreases 21 - k,
{
    if !(k > 20 || i - k < 0 || !is_long(bytes, i - k) || bytes[32 * (i - k) + 13] != sum) {
        if bytes[32 * (i - k)] != k + 0x40 && bytes[32 * (i - k)] == k {
            if m > k {
                lemma_run_is_long(bytes, i, k + 1, sum, m);
            }
        }
    }
}

/// The run in front of an entry depends only on the slots between the entry
/// and the nearest slot in front of it that carries no part of a long name.
pub proof fn lemma_run_same(a: Seq<u8>, b: Seq<u8>, i: int, barrier: int, k: int, sum: int)
    requires
        -1 <= barrier < i,
        i < slot_count(a),
        i < slot_count(b),
        1 <= k,
        i - k >= barrier,
        forall|x: int| 32 * (barrier + 1) <= x < 32 * i ==> a[x] == b[x],
        barrier >= 0 ==> !is_long(a, barrier) && !is_long(b, barrier),
    ensures
        run_from(a, i, k, sum) == run_from(b, i, k, sum),
    decreases 21 - k,
{
    if k <= 20 && i - k >= 0 && i - k > barrier {
        assert(a[32 * (i - k)] == b[32 * (i - k)]);
        assert(a[32 * (i - k) + 11] == b[32 * (i - k) + 11]);
        assert(a[32 * (i - k) + 13] == b[32 * (i - k) + 13]);
        if is_long(a, i - k) && a[32 * (i - k) + 13] == sum && a[32 * (i - k)] != k + 0x40 && a[32
            * (i - k)] == k {
            lemma_run_same(a, b, i, barrier, k + 1, sum);
        }
    }
}

/// An entry is the same in two directories that agree from the nearest slot
/// in front of it that carries no part of a long name up to the entry.
pub proof fn lemma_entry_same(a: Seq<u8>, b: Seq<u8>, i: int, barrier: int)
    requires
        -1 <= barrier < i,
        i < slot_count(a),
        i < slot_count(b),
        forall|x: int| 32 * (barrier + 1) <= x < 32 * (i + 1) ==> a[x] == b[x],
        barrier >= 0 ==> !is_long(a, barrier) && !is_long(b, barrier),
    ensures
        is_short(a, i) == is_short(b, i),
        short_bytes(a, i) == short_bytes(b, i),
        meta_at(a, i) == meta_at(b, i),
        run_len(a, i) == run_len(b, i),
        entry_name(a, i) == entry_name(b, i),
{
    assert(32 * (a.len() as int / 32) <= a.len());
    assert(32 * (b.len() as int / 32) <= b.len());
    assert(short_bytes(a, i) =~= short_bytes(b, i));
    let sum = spec_checksum(short_bytes(a, i));
    lemma_run_same(a, b, i, barrier, 1, sum);
    let n = run_len(a, i);
    lemma_run_bounds(a, i, 1, sum);
    if n > 0 {
        if barrier >= 0 && i - n <= barrier {
            lemma_run_is_long(a, i, 1, sum, i - barrier);
        }
        assert(run_units(a, 32 * i, n) =~= run_units(b, 32 * i, n)) by {
            assert forall|j: int| 0 <= j < 13 * n implies #[trigger] run_units(a, 32 * i, n)[j]
                == run_units(b, 32 * i, n)[j] by {
                let at = 32 * i - 32 * (j / 13 + 1);
                assert(32 * (barrier + 1) <= at);
                assert(at + 32 <= 32 * i);
            }
        }
    }
}

/// The slots of a long name that were written lead up to their short entry.
pub proof fn lemma_run_of_slots(bytes: Seq<u8>, t: int, name: Seq<u16>, sum: u8, k: int)
    requires
        1 <= k <= slots_for(name.len() as int) <= 20,
        slots_for(name.len() as int) <= t,
        forall|o: int|
            1 <= o <= slots_for(name.len() as int) ==> #[trigger] is_lfn_slot(
                bytes,
                32 * t - 32 * o,
                name,
                o,
                sum,
            ),
    ensures
        run_from(bytes, t, k, sum as int) == slots_for(name.len() as int),
    decreases slots_for(name.len() as int) - k,
{
    let n = slots_for(name.len() as int);
    assert(is_lfn_slot(bytes, 32 * t - 32 * k, name, k, sum));
    assert(32 * (t - k) == 32 * t - 32 * k);
    if k < n {
        lemma_run_of_slots(bytes, t, name, sum, k + 1);
    }
}

/// Whether `new` is the directory `old` after an entry has been put into
/// the slots from `s` on: `n` slots of the long name `name`, in descending
/// order of their ordinals, and behind them the short entry with the name
/// `short` and the content `meta`. Where the slot in front of `s` carried a
/// part of a long name, which then belonged to no entry, it has become a
/// deleted slot. Where the entry reaches the end of the directory, the slot
/// behind it ends the directory. No other byte has changed.
pub open spec fn placed(
    old: Seq<u8>,
    new: Seq<u8>,
    s: int,
    n: int,
    name: Seq<u16>,
    short: Seq<u8>,
    meta: Meta,
) -> bool {
    let t = s + n;
    &&& new.len() == old.len()
    &&& forall|o: int|
        1 <= o <= n ==> #[trigger] is_lfn_slot(
            new,
            32 * t - 32 * o,
            name,
            o,
            spec_checksum(short) as u8,
        )
    &&& short_bytes(new, t) == short
    &&& meta_at(new, t) == meta
    &&& forall|x: int| 0 <= x < 32 * s && x != 32 * (s - 1) ==> new[x] == old[x]
    &&& s > 0 ==> new[32 * (s - 1)] == if is_long(old, s - 1) {
        DELETED
    } else {
        old[32 * (s - 1)]
    }
    &&& forall|x: int| 32 * (t + 1) < x < old.len() ==> new[x] == old[x]
    &&& 32 * (t + 1) < old.len() ==> new[32 * (t + 1)] == if t >= end_index(old) && t + 1
        < slot_count(old) {
        0
    } else {
        old[32 * (t + 1)]
    }
}

/// Where the directory ends after an entry has been put into it.
proof fn lemma_placed_end(
    old: Seq<u8>,
    new: Seq<u8>,
    s: int,
    n: int,
    name: Seq<u16>,
    short: Seq<u8>,
    meta: Meta,
)
    requires
        placed(old, new, s, n, name, short, meta),
        0 <= s <= end_index(old),
        0 <= n <= 20,
        s + n < slot_count(old),
        forall|i: int| s <= i <= s + n ==> is_vacant(old, i),
        short.len() == 11,
        short[0] != 0,
    ensures
        end_index(new) == if s + n >= end_index(old) {
            s + n + 1
        } else {
            end_index(old)
        },
        forall|i: int| s <= i < s + n ==> is_long(new, i),
{
    let t = s + n;
    let end = end_index(old);
    lemma_end_from(old, 0);
    assert(32 * (old.len() as int / 32) <= old.len());
    assert(new[32 * t] == short_bytes(new, t)[0]);
    assert forall|i: int| s <= i < t implies is_long(new, i) by {
        let o = t - i;
        assert(is_lfn_slot(new, 32 * t - 32 * o, name, o, spec_checksum(short) as u8));
        assert(32 * t - 32 * o == 32 * i);
    }
    let target = if t >= end {
        t + 1
    } else {
        end
    };
    assert forall|i: int| 0 <= i < target implies !is_end(new, i) by {
        if i < s - 1 {
            assert(!is_end(old, i));
            assert(new[32 * i] == old[32 * i]);
        } else if i == s - 1 {
            assert(!is_end(old, i));
        } else if i < t {
            assert(is_long(new, i));
        } else if i == t {
        } else {
            assert(!is_end(old, i));
            assert(32 * i + 32 <= old.len());
            if i == t + 1 {
                assert(new[32 * (t + 1)] == old[32 * (t + 1)]);
            } else {
                assert(new[32 * i] == old[32 * i]);
            }
        }
    }
    if target < slot_count(old) {
        if t >= end {
            assert(is_end(new, t + 1));
        } else {
            assert(new[32 * end] == old[32 * end]);
        }
    }
    lemma_end_is(new, 0, target);
}

/// After an entry has been put into a directory, a listing gives the entry
/// with the name under which it was created, long or short, and every entry
/// that was listed before, unchanged; it gives no other entry.
pub proof fn lemma_created(
    old: Seq<u8>,
    new: Seq<u8>,
    s: int,
    n: int,
    name: Seq<u16>,
    short: Seq<u8>,
    meta: Meta,
)
    requires
        placed(old, new, s, n, name, short, meta),
        0 <= s <= end_index(old),
        s + n < slot_count(old),
        forall|i: int| s <= i <= s + n ==> is_vacant(old, i),
        short.len() == 11,
        short[0] != 0,
        short[0] != DELETED,
        meta.attributes != ATTR_LONG_NAME,
        n == 0 ==> fits_short(name) && short == short_of(name),
        n != 0 ==> is_long_name(name) && n == slots_for(name.len() as int),
    ensures
        listed(new, s + n),
        entry_name(new, s + n) == name,
        run_len(new, s + n) == n,
        forall|j: int| j != s + n ==> listed(new, j) == listed(old, j),
        forall|j: int|
            listed(old, j) ==> entry_name(new, j) == entry_name(old, j) && short_bytes(new, j)
                == short_bytes(old, j) && meta_at(new, j) == meta_at(old, j) && run_len(new, j)
                == run_len(old, j),
{
    let t = s + n;
    let end = end_index(old);
    let sum = spec_checksum(short);
    assert(0 <= n <= 20) by {
        if n != 0 {
            assert(n == (name.len() + 12) / 13);
        }
    }
    lemma_placed_end(old, new, s, n, name, short, meta);
    lemma_end_from(old, 0);
    assert(32 * (old.len() as int / 32) <= old.len());
    assert(new[32 * t] == short_bytes(new, t)[0]);
    assert(is_short(new, t));
    // The new entry and its name.
    if n > 0 {
        lemma_run_of_slots(new, t, name, sum as u8, 1);
        lemma_long_round_trip(new, 32 * t, name, sum as u8);
    } else {
        if s > 0 {
            assert(!is_long(new, s - 1)) by {
                if !is_long(old, s - 1) {
                    assert(new[32 * (s - 1) + 11] == old[32 * (s - 1) + 11]);
                }
            }
        }
        lemma_short_round_trip(name);
    }
    // The entries in front of the new one.
    assert forall|j: int| 0 <= j < s implies listed(new, j) == listed(old, j) && (listed(old, j)
        ==> entry_name(new, j) == entry_name(old, j) && short_bytes(new, j) == short_bytes(old, j)
        && meta_at(new, j) == meta_at(old, j) && run_len(new, j) == run_len(old, j)) by {
        assert(new[32 * j + 11] == old[32 * j + 11]);
        if j < s - 1 || !is_long(old, j) {
            assert(new[32 * j] == old[32 * j]);
        }
        if listed(old, j) {
            lemma_entry_same(old, new, j, -1);
        }
    }
    // The slots of the new entry's long name.
    assert forall|j: int| s <= j < t implies !listed(new, j) && !listed(old, j) by {
        assert(is_long(new, j));
        assert(is_vacant(old, j));
    }
    // The entries behind the new one.
    assert forall|j: int| t < j implies listed(new, j) == listed(old, j) && (listed(old, j)
        ==> entry_name(new, j) == entry_name(old, j) && short_bytes(new, j) == short_bytes(old, j)
        && meta_at(new, j) == meta_at(old, j) && run_len(new, j) == run_len(old, j)) by {
        if t < end && j < end {
            assert(is_vacant(old, t));
            assert(!is_long(old, t));
            assert(!is_long(new, t));
            lemma_entry_same(old, new, j, t);
        }
    }
    assert forall|j: int| j != t implies listed(new, j) == listed(old, j) by {
        if j < 0 {
        } else if j < s {
        } else if j < t {
        } else {
        }
    }
    assert forall|j: int| listed(old, j) implies entry_name(new, j) == entry_name(old, j)
        && short_bytes(new, j) == short_bytes(old, j) && meta_at(new, j) == meta_at(old, j)
        && run_len(new, j) == run_len(old, j) by {
        if j < s {
        } else if j <= t {
            assert(is_vacant(old, j));
        } else {
        }
    }
}

/// Whether the entry in the slot `j` goes by the name `name`: its name or
/// what its short name stands for is `name`, but for the case of letters.
pub open spec fn answers_to(bytes: Seq<u8>, j: int, name: Seq<u16>) -> bool {
    same_name(entry_name(bytes, j), name) || same_name(short_units(short_bytes(bytes, j)), name)
}

/// Whether the directory has an entry that goes by the name `name`.
pub open spec fn name_taken(bytes: Seq<u8>, name: Seq<u16>) -> bool {
    exists|j: int| listed(bytes, j) && #[trigger] answers_to(bytes, j, name)
}

/// Whether the directory has an entry with the short name `short`.
pub open spec fn short_taken(bytes: Seq<u8>, short: Seq<u8>) -> bool {
    exists|j: int| #[trigger] listed(bytes, j) && short_bytes(bytes, j) == short
}

/// Whether the slot `i` holds an entry of the directory.
pub fn is_listed(bytes: &[u8], i: usize, end: usize) -> (yes: bool)
    requires
        end == end_index(bytes@),
    ensures
        yes == listed(bytes@, i as int),
{
    proof {
        lemma_end_from(bytes@, 0);
    }
    if i >= end {
        return false;
    }
    let at = slot_offset(bytes, i);
    bytes[at] != 0 && bytes[at] != DELETED && bytes[at + 11] != ATTR_LONG_NAME
}

/// Looks up the entry that goes by the name `name`: the first in the order
/// of the slots.
pub fn find_entry(bytes: &[u8], name: &[u16]) -> (found: Option<DirEntry>)
    ensures
        found is Some <==> name_taken(bytes@, name@),
        found matches Some(entry) ==> {
            &&& listed(bytes@, entry.slot as int)
            &&& entry.is_entry_of(bytes@, entry.slot as int)
            &&& answers_to(bytes@, entry.slot as int, name@)
            &&& forall|j: int|
                0 <= j < entry.slot && listed(bytes@, j) ==> !answers_to(bytes@, j, name@)
        },
{
    let end = find_end(bytes);
    let mut i: usize = 0;
    while i < end
        invariant
            i <= end <= slot_count(bytes@),
            end == end_index(bytes@),
            forall|j: int| 0 <= j < i && listed(bytes@, j) ==> !answers_to(bytes@, j, name@),
        decreases end - i,
    {
        if is_listed(bytes, i, end) {
            let entry = entry_at(bytes, i);
            let short_name = short_to_units(&entry.short_name);
            if names_match(entry.name.as_slice(), name) || names_match(
                short_name.as_slice(),
                name,
            ) {
                assert(answers_to(bytes@, i as int, name@));
                return Some(entry);
            }
        }
        i += 1;
    }
    assert(!name_taken(bytes@, name@)) by {
        if name_taken(bytes@, name@) {
            let j = choose|j: int| listed(bytes@, j) && #[trigger] answers_to(bytes@, j, name@);
            assert(0 <= j < i);
        }
    }
    None
}

/// Tells whether the directory has an entry with the short name `short`.
pub fn short_in_use(bytes: &[u8], short: &[u8; 11]) -> (used: bool)
    ensures
        used == short_taken(bytes@, short@),
{
    let end = find_end(bytes);
    let mut i: usize = 0;
    while i < end
        invariant
            i <= end <= slot_count(bytes@),
            end == end_index(bytes@),
            forall|j: int| 0 <= j < i && #[trigger] listed(bytes@, j) ==> short_bytes(bytes@, j)
                != short@,
        decreases end - i,
    {
        if is_listed(bytes, i, end) {
            let at = slot_offset(bytes, i);
            let mut k: usize = 0;
            while k < 11 && bytes[at + k] == short[k]
                invariant
                    k <= 11,
                    at == 32 * i,
                    at + 32 <= bytes@.len(),
                    forall|m: int| 0 <= m < k ==> bytes@[at + m] == #[trigger] short@[m],
                decreases 11 - k,
            {
                k += 1;
            }
            if k == 11 {
                assert(short_bytes(bytes@, i as int) =~= short@);
                return true;
            }
            assert(short_bytes(bytes@, i as int)[k as int] != short@[k as int]);
        }
        i += 1;
    }
    assert(!short_taken(bytes@, short@)) by {
        if short_taken(bytes@, short@) {
            let j = choose|j: int| #[trigger] listed(bytes@, j) && short_bytes(bytes@, j) == short@;
            assert(0 <= j < i);
        }
    }
    false
}

/// The least number from `n` on whose generated short name for `name` no
/// entry of the directory has, or 0 where every number up to the greatest
/// is in use.
pub open spec fn alias_from(bytes: Seq<u8>, name: Seq<u16>, n: int) -> int
    decreases MAX_ALIAS_NUMBER + 1 - n,
{
    if n > MAX_ALIAS_NUMBER {
        0
    } else if !short_taken(bytes, alias(name, n)) {
        n
    } else {
        alias_from(bytes, name, n + 1)
    }
}

/// The short name under which `name` is entered into the directory: the
/// name itself where it is a short name as it stands, else the generated
/// short name with the least number that is not in use.
pub open spec fn chosen_short(bytes: Seq<u8>, name: Seq<u16>) -> Option<Seq<u8>> {
    if fits_short(name) {
        Some(short_of(name))
    } else if alias_from(bytes, name, 1) == 0 {
        None
    } else {
        Some(alias(name, alias_from(bytes, name, 1)))
    }
}

/// The number of slots that the long name of a new entry takes: none where
/// the name is a short name as it stands.
pub open spec fn long_slots(name: Seq<u16>) -> int {
    if fits_short(name) {
        0
    } else {
        slots_for(name.len() as int)
    }
}

/// Chooses the short name under which `name` is entered.
pub fn choose_short(bytes: &[u8], name: &[u16]) -> (short: Option<[u8; 11]>)
    ensures
        short is Some <==> chosen_short(bytes@, name@) is Some,
        short matches Some(chosen) ==> chosen_short(bytes@, name@) == Some(chosen@)
            && chosen@.len() == 11 && 0x21 <= chosen@[0] <= 0x7E,
{
    match to_short(name) {
        Some(short) => {
            proof {
                lemma_short_begins(name@);
            }
            return Some(short);
        },
        None => {},
    }
    let mut n: u32 = 1;
    while n <= MAX_ALIAS_NUMBER
        invariant
            1 <= n <= MAX_ALIAS_NUMBER + 1,
            !fits_short(name@),
            alias_from(bytes@, name@, n as int) == alias_from(bytes@, name@, 1),
        decreases MAX_ALIAS_NUMBER + 1 - n,
    {
        let candidate = make_alias(name, n);
        if !short_in_use(bytes, &candidate) {
            proof {
                lemma_alias_begins(name@, n as int);
            }
            return Some(candidate);
        }
        n += 1;
    }
    None
}

/// Whether the `m` slots from `s` on can take a new entry.
pub open spec fn vacant_run(bytes: Seq<u8>, s: int, m: int) -> bool {
    &&& 0 <= s
    &&& s + m <= slot_count(bytes)
    &&& forall|i: int| s <= i < s + m ==> is_vacant(bytes, i)
}

/// The first slot from `s` on at which a run of `m` slots can take a new
/// entry, or -1 where the directory has no such run.
pub open spec fn fit_from(bytes: Seq<u8>, m: int, s: int) -> int
    decreases slot_count(bytes) - s,
{
    if s < 0 || s + m > slot_count(bytes) {
        -1
    } else if vacant_run(bytes, s, m) {
        s
    } else {
        fit_from(bytes, m, s + 1)
    }
}

/// The first fit is the first slot at which the run is vacant.
pub proof fn lemma_fit_is(bytes: Seq<u8>, m: int, from: int, s: int)
    requires
        0 <= from <= s,
        m >= 1,
        forall|x: int| from <= x < s ==> !vacant_run(bytes, x, m),
        vacant_run(bytes, s, m) || s + m > slot_count(bytes),
    ensures
        fit_from(bytes, m, from) == if vacant_run(bytes, s, m) {
            s
        } else {
            -1
        },
    decreases s - from,
{
    if from < s {
        lemma_fit_is(bytes, m, from + 1, s);
    }
}

/// Finds the first run of `m` slots that can take a new entry.
pub fn first_fit(bytes: &[u8], m: usize) -> (start: Option<usize>)
    requires
        1 <= m <= 21,
    ensures
        start matches Some(s) ==> fit_from(bytes@, m as int, 0) == s && vacant_run(
            bytes@,
            s as int,
            m as int,
        ) && s <= end_index(bytes@),
        start is None ==> fit_from(bytes@, m as int, 0) == -1,
{
    let count = bytes.len() / 32;
    let end = find_end(bytes);
    let mut i: usize = 0;
    let mut run: usize = 0;
    proof {
        lemma_end_from(bytes@, 0);
    }
    while i < count
        invariant
            count == slot_count(bytes@),
            end == end_index(bytes@),
            end <= count,
            1 <= m <= 21,
            run <= i <= count,
            run < m,
            i - run <= end,
            forall|x: int| i - run <= x < i ==> is_vacant(bytes@, x),
            forall|x: int| 0 <= x < i - run ==> !vacant_run(bytes@, x, m as int),
        decreases count - i,
    {
        let vacant = i >= end || bytes[slot_offset(bytes, i)] == DELETED;
        if vacant {
            run += 1;
            if run == m {
                let s = i + 1 - m;
                proof {
                    lemma_fit_is(bytes@, m as int, 0, s as int);
                }
                return Some(s);
            }
        } else {
            assert forall|x: int| 0 <= x < i + 1 implies !vacant_run(bytes@, x, m as int) by {
                if x >= i - run {
                    if vacant_run(bytes@, x, m as int) {
                        assert(is_vacant(bytes@, i as int));
                    }
                }
            }
            run = 0;
        }
        i += 1;
    }
    proof {
        if count + 1 >= m {
            lemma_fit_is(bytes@, m as int, 0, count as int + 1 - m as int);
        }
    }
    None
}

/// Whether a slot of a long name is what it is depends on its 32 bytes only.
pub proof fn lemma_lfn_slot_same(
    a: Seq<u8>,
    b: Seq<u8>,
    at: int,
    name: Seq<u16>,
    ordinal: int,
    sum: u8,
)
    requires
        is_lfn_slot(a, at, name, ordinal, sum),
        forall|x: int| at <= x < at + 32 ==> a[x] == b[x],
    ensures
        is_lfn_slot(b, at, name, ordinal, sum),
{
    assert forall|k: int| 0 <= k < 13 implies #[trigger] slot_unit(b, at, k) == crate::name::padded_unit(
        name,
        (ordinal - 1) * 13 + k,
    ) by {
        assert(slot_unit(a, at, k) == crate::name::padded_unit(name, (ordinal - 1) * 13 + k));
    }
}

/// The 32 bytes of the short entry with the name `short` and the content
/// `meta`.
pub open spec fn short_slot(short: Seq<u8>, meta: Meta) -> Seq<u8> {
    Seq::new(
        32,
        |k: int|
            if k < 11 {
                short[k]
            } else if k == 11 {
                meta.attributes
            } else if k == 12 {
                meta.case_flags
            } else if k == 13 {
                meta.created_tenths
            } else if k == 14 {
                (meta.created_time % 256) as u8
            } else if k == 15 {
                (meta.created_time / 256) as u8
            } else if k == 16 {
                (meta.created_date % 256) as u8
            } else if k == 17 {
                (meta.created_date / 256) as u8
            } else if k == 18 {
                (meta.accessed_date % 256) as u8
            } else if k == 19 {
                (meta.accessed_date / 256) as u8
            } else if k == 20 {
                (meta.first_cluster / 65536 % 256) as u8
            } else if k == 21 {
                (meta.first_cluster / 16777216) as u8
            } else if k == 22 {
                (meta.modified_time % 256) as u8
            } else if k == 23 {
                (meta.modified_time / 256) as u8
            } else if k == 24 {
                (meta.modified_date % 256) as u8
            } else if k == 25 {
                (meta.modified_date / 256) as u8
            } else if k == 26 {
                (meta.first_cluster % 256) as u8
            } else if k == 27 {
                (meta.first_cluster / 256 % 256) as u8
            } else if k == 28 {
                (meta.size % 256) as u8
            } else if k == 29 {
                (meta.size / 256 % 256) as u8
            } else if k == 30 {
                (meta.size / 65536 % 256) as u8
            } else {
                (meta.size / 16777216) as u8
            },
    )
}

/// Two bytes that hold the halves of a number hold the number.
proof fn lemma_pair(bytes: Seq<u8>, at: int, value: u16)
    requires
        bytes[at] == value % 256,
        bytes[at + 1] == value / 256,
    ensures
        le16(bytes, at) == value,
{
}

/// Four bytes that hold the parts of a number hold the number.
proof fn lemma_quad(bytes: Seq<u8>, at: int, value: u32)
    requires
        bytes[at] == value % 256,
        bytes[at + 1] == value / 256 % 256,
        bytes[at + 2] == value / 65536 % 256,
        bytes[at + 3] == value / 16777216,
    ensures
        le32(bytes, at) == value,
{
    let q1 = value / 256;
    let q2 = q1 / 256;
    let q3 = q2 / 256;
    assert(value == 256 * q1 + value % 256);
    assert(q1 == 256 * q2 + q1 % 256);
    assert(q2 == 256 * q3 + q2 % 256);
    assert(q2 == value / 65536);
    assert(q3 == value / 16777216);
}

/// The two halves of a cluster number, as a short entry holds them, make
/// the number.
proof fn lemma_halves(bytes: Seq<u8>, at: int, cluster: u32)
    requires
        bytes[at + 20] == cluster / 65536 % 256,
        bytes[at + 21] == cluster / 16777216,
        bytes[at + 26] == cluster % 256,
        bytes[at + 27] == cluster / 256 % 256,
    ensures
        le16(bytes, at + 26) + 65536 * le16(bytes, at + 20) == cluster,
{
    let q1 = cluster / 256;
    let q2 = q1 / 256;
    let q3 = q2 / 256;
    assert(cluster == 256 * q1 + cluster % 256);
    assert(q1 == 256 * q2 + q1 % 256);
    assert(q2 == 256 * q3 + q2 % 256);
    assert(q2 == cluster / 65536);
    assert(q3 == cluster / 16777216);
}

/// A slot that holds the bytes of a short entry is read as that entry.
#[verifier::rlimit(50)]
pub proof fn lemma_short_slot_read(bytes: Seq<u8>, i: int, short: Seq<u8>, meta: Meta)
    requires
        0 <= i < slot_count(bytes),
        short.len() == 11,
        forall|k: int| 0 <= k < 32 ==> bytes[32 * i + k] == #[trigger] short_slot(short, meta)[k],
    ensures
        short_bytes(bytes, i) == short,
        meta_at(bytes, i) == meta,
{
    let slot = short_slot(short, meta);
    let at = 32 * i;
    assert(32 * (bytes.len() as int / 32) <= bytes.len());
    assert(short_bytes(bytes, i) =~= short) by {
        assert forall|k: int| 0 <= k < 11 implies short_bytes(bytes, i)[k] == short[k] by {
            assert(bytes[at + k] == slot[k]);
        }
    }
    assert(bytes[at + 11] == slot[11]);
    assert(bytes[at + 12] == slot[12]);
    assert(bytes[at + 13] == slot[13]);
    assert(bytes[at + 14] == slot[14] && bytes[at + 15] == slot[15]);
    assert(bytes[at + 16] == slot[16] && bytes[at + 17] == slot[17]);
    assert(bytes[at + 18] == slot[18] && bytes[at + 19] == slot[19]);
    assert(bytes[at + 20] == slot[20] && bytes[at + 21] == slot[21]);
    assert(bytes[at + 22] == slot[22] && bytes[at + 23] == slot[23]);
    assert(bytes[at + 24] == slot[24] && bytes[at + 25] == slot[25]);
    assert(bytes[at + 26] == slot[26] && bytes[at + 27] == slot[27]);
    assert(bytes[at + 28] == slot[28] && bytes[at + 29] == slot[29]);
    assert(bytes[at + 30] == slot[30] && bytes[at + 31] == slot[31]);
    lemma_pair(bytes, at + 14, meta.created_time);
    lemma_pair(bytes, at + 16, meta.created_date);
    lemma_pair(bytes, at + 18, meta.accessed_date);
    lemma_pair(bytes, at + 22, meta.modified_time);
    lemma_pair(bytes, at + 24, meta.modified_date);
    lemma_halves(bytes, at, meta.first_cluster);
    lemma_quad(bytes, at + 28, meta.size);
}

/// Lays out the 32 bytes of a short entry.
fn encode_short(short: &[u8; 11], meta: Meta) -> (slot: [u8; 32])
    ensures
        slot@ == short_slot(short@, meta),
{
    let mut slot = [0u8;32];
    let mut k: usize = 0;
    while k < 11
        invariant
            k <= 11,
            forall|j: int| 0 <= j < k ==> slot@[j] == #[trigger] short@[j],
        decreases 11 - k,
    {
        slot[k] = short[k];
        k += 1;
    }
    let fc = meta.first_cluster;
    slot[11] = meta.attributes;
    slot[12] = meta.case_flags;
    slot[13] = meta.created_tenths;
    slot[14] = (meta.created_time % 256) as u8;
    slot[15] = (meta.created_time / 256) as u8;
    slot[16] = (meta.created_date % 256) as u8;
    slot[17] = (meta.created_date / 256) as u8;
    slot[18] = (meta.accessed_date % 256) as u8;
    slot[19] = (meta.accessed_date / 256) as u8;
    slot[20] = (fc / 65536 % 256) as u8;
    slot[21] = (fc / 16777216) as u8;
    slot[22] = (meta.modified_time % 256) as u8;
    slot[23] = (meta.modified_time / 256) as u8;
    slot[24] = (meta.modified_date % 256) as u8;
    slot[25] = (meta.modified_date / 256) as u8;
    slot[26] = (fc % 256) as u8;
    slot[27] = (fc / 256 % 256) as u8;
    slot[28] = (meta.size % 256) as u8;
    slot[29] = (meta.size / 256 % 256) as u8;
    slot[30] = (meta.size / 65536 % 256) as u8;
    slot[31] = (meta.size / 16777216) as u8;
    assert(slot@ =~= short_slot(short@, meta));
    slot
}

/// Writes the short entry with the name `short` and the content `meta`
/// into the slot `i`. No byte outside of the slot changes.
pub fn write_short_slot(bytes: &mut Vec<u8>, i: usize, short: &[u8; 11], meta: Meta)
    requires
        i < slot_count(old(bytes)@),
    ensures
        final(bytes)@.len() == old(bytes)@.len(),
        short_bytes(final(bytes)@, i as int) == short@,
        meta_at(final(bytes)@, i as int) == meta,
        forall|k: int|
            0 <= k < 32 ==> final(bytes)@[32 * i + k] == #[trigger] short_slot(short@, meta)[k],
        forall|x: int|
            0 <= x < old(bytes)@.len() && !(32 * i <= x < 32 * i + 32) ==> final(bytes)@[x] == old(
                bytes,
            )@[x],
{
    let at = slot_offset(bytes.as_slice(), i);
    let slot = encode_short(short, meta);
    let mut k: usize = 0;
    while k < 32
        invariant
            k <= 32,
            at == 32 * i,
            at + 32 <= bytes@.len(),
            bytes@.len() == old(bytes)@.len(),
            forall|j: int| 0 <= j < k ==> bytes@[at + j] == #[trigger] slot@[j],
            forall|x: int|
                0 <= x < bytes@.len() && !(at <= x < at + 32) ==> bytes@[x] == old(bytes)@[x],
        decreases 32 - k,
    {
        bytes[at + k] = slot[k];
        k += 1;
    }
    proof {
        lemma_short_slot_read(bytes@, i as int, short@, meta);
    }
}

/// Puts an entry into the slots from `s` on.
fn place(
    bytes: &mut Vec<u8>,
    s: usize,
    n: usize,
    name: &[u16],
    short: &[u8; 11],
    meta: Meta,
    end: usize,
)
    requires
        s + n < slot_count(old(bytes)@),
        n <= 20,
        n != 0 ==> 1 <= name@.len() <= 255 && n == slots_for(name@.len() as int),
        end == end_index(old(bytes)@),
    ensures
        placed(old(bytes)@, final(bytes)@, s as int, n as int, name@, short@, meta),
{
    let count = bytes.len() / 32;
    let t = s + n;
    let sum = checksum(short);
    if s > 0 {
        let at = slot_offset(bytes.as_slice(), s - 1);
        if bytes[at] != 0 && bytes[at] != DELETED && bytes[at + 11] == ATTR_LONG_NAME {
            bytes[at] = DELETED;
        }
    }
    let ghost cleaned = bytes@;
    let mut o: usize = n;
    while o > 0
        invariant
            o <= n <= 20,
            t == s + n,
            t < slot_count(bytes@),
            n != 0 ==> 1 <= name@.len() <= 255 && n == slots_for(name@.len() as int),
            bytes@.len() == cleaned.len(),
            forall|p: int|
                o < p <= n ==> #[trigger] is_lfn_slot(bytes@, 32 * t - 32 * p, name@, p, sum),
            forall|x: int|
                0 <= x < bytes@.len() && !(32 * s <= x < 32 * t - 32 * o) ==> bytes@[x]
                    == cleaned[x],
        decreases o,
    {
        let at = slot_offset(bytes.as_slice(), t - o);
        let ghost before = bytes@;
        write_lfn_slot(bytes, at, name, o, sum);
        proof {
            assert forall|p: int| o < p <= n implies #[trigger] is_lfn_slot(
                bytes@,
                32 * t - 32 * p,
                name@,
                p,
                sum,
            ) by {
                assert(is_lfn_slot(before, 32 * t - 32 * p, name@, p, sum));
                lemma_lfn_slot_same(before, bytes@, 32 * t - 32 * p, name@, p, sum);
            }
        }
        o -= 1;
    }
    let ghost named = bytes@;
    write_short_slot(bytes, t, short, meta);
    proof {
        assert forall|p: int| 1 <= p <= n implies #[trigger] is_lfn_slot(
            bytes@,
            32 * t - 32 * p,
            name@,
            p,
            sum,
        ) by {
            assert(is_lfn_slot(named, 32 * t - 32 * p, name@, p, sum));
            lemma_lfn_slot_same(named, bytes@, 32 * t - 32 * p, name@, p, sum);
        }
    }
    let ghost written = bytes@;
    if t >= end && t + 1 < count {
        let at = slot_offset(bytes.as_slice(), t + 1);
        bytes[at] = 0;
    }
    proof {
        assert forall|p: int| 1 <= p <= n implies #[trigger] is_lfn_slot(
            bytes@,
            32 * t - 32 * p,
            name@,
            p,
            sum,
        ) by {
            assert(is_lfn_slot(written, 32 * t - 32 * p, name@, p, sum));
            lemma_lfn_slot_same(written, bytes@, 32 * t - 32 * p, name@, p, sum);
        }
        assert(32 * (bytes@.len() as int / 32) <= bytes@.len());
        assert(short_bytes(bytes@, t as int) =~= short_bytes(written, t as int));
        assert(meta_at(bytes@, t as int) == meta_at(written, t as int));
        let old_bytes = old(bytes)@;
        assert forall|x: int| 0 <= x < 32 * s && x != 32 * (s - 1) implies bytes@[x]
            == old_bytes[x] by {
            assert(bytes@[x] == written[x]);
            assert(written[x] == named[x]);
            assert(named[x] == cleaned[x]);
        }
        if s > 0 {
            assert(bytes@[32 * (s - 1)] == cleaned[32 * (s - 1)]) by {
                assert(bytes@[32 * (s - 1)] == written[32 * (s - 1)]);
                assert(written[32 * (s - 1)] == named[32 * (s - 1)]);
            }
        }
        assert forall|x: int| 32 * (t + 1) < x < old_bytes.len() implies bytes@[x]
            == old_bytes[x] by {
            assert(bytes@[x] == written[x]);
            assert(written[x] == named[x]);
            assert(named[x] == cleaned[x]);
        }
        if 32 * (t + 1) < old_bytes.len() {
            assert(written[32 * (t + 1)] == named[32 * (t + 1)]);
            assert(named[32 * (t + 1)] == cleaned[32 * (t + 1)]);
        }
    }
}

/// Creates an entry with the name `name` and the content `meta`, and gives
/// back the slot of its short entry.
///
/// A name that is a short name as it stands is entered as such. Any other
/// name gets a generated short name, with the least number that is not in
/// use, and slots that carry the name itself. The entry takes the first run
/// of slots that is large enough and vacant; the slots of the long name are
/// written first, the short entry last.
///
/// A name that cannot be the name of an entry, and the attribute of a slot
/// of a long name, are refused. A name by which an entry goes already, and
/// a name for which every generated short name is in use, give
/// `AlreadyExists`. A directory without a run of vacant slots that is large
/// enough gives `NotEnoughSpace`.
pub fn create(bytes: &mut Vec<u8>, name: &[u16], meta: Meta) -> (result: Result<usize, Error>)
    ensures
        final(bytes)@.len() == old(bytes)@.len(),
        result is Err ==> final(bytes)@ == old(bytes)@,
        !valid_name(name@) || meta.attributes == ATTR_LONG_NAME ==> result == Err::<usize, Error>(
            Error::InvalidInput,
        ),
        valid_name(name@) && meta.attributes != ATTR_LONG_NAME ==> {
            &&& name_taken(old(bytes)@, name@) || chosen_short(old(bytes)@, name@) is None
                ==> result == Err::<usize, Error>(Error::AlreadyExists)
            &&& !name_taken(old(bytes)@, name@) && chosen_short(old(bytes)@, name@) is Some ==> {
                let n = long_slots(name@);
                let s = fit_from(old(bytes)@, n + 1, 0);
                &&& s < 0 ==> result == Err::<usize, Error>(Error::NotEnoughSpace)
                &&& s >= 0 ==> {
                    &&& result == Ok::<usize, Error>((s + n) as usize)
                    &&& placed(
                        old(bytes)@,
                        final(bytes)@,
                        s,
                        n,
                        name@,
                        chosen_short(old(bytes)@, name@).unwrap(),
                        meta,
                    )
                    &&& listed(final(bytes)@, s + n)
                    &&& !listed(old(bytes)@, s + n)
                    &&& entry_name(final(bytes)@, s + n) == name@
                    &&& forall|j: int|
                        j != s + n ==> listed(final(bytes)@, j) == listed(old(bytes)@, j)
                    &&& forall|j: int|
                        listed(old(bytes)@, j) ==> entry_name(final(bytes)@, j) == entry_name(
                            old(bytes)@,
                            j,
                        ) && short_bytes(final(bytes)@, j) == short_bytes(old(bytes)@, j)
                            && meta_at(final(bytes)@, j) == meta_at(old(bytes)@, j)
                }
            }
        },
{
    if !check_name(name) || meta.attributes == ATTR_LONG_NAME {
        return Err(Error::InvalidInput);
    }
    if find_entry(bytes.as_slice(), name).is_some() {
        return Err(Error::AlreadyExists);
    }
    let short = match choose_short(bytes.as_slice(), name) {
        Some(short) => short,
        None => {
            return Err(Error::AlreadyExists);
        },
    };
    let fits = to_short(name).is_some();
    let n = if fits {
        0
    } else {
        (name.len() + 12) / 13
    };
    let s = match first_fit(bytes.as_slice(), n + 1) {
        Some(s) => s,
        None => {
            return Err(Error::NotEnoughSpace);
        },
    };
    let end = find_end(bytes.as_slice());
    let count = bytes.len() / 32;
    assert(s + n < count);
    assert(is_vacant(bytes@, s + n));
    let slot = s + n;
    place(bytes, s, n, name, &short, meta, end);
    proof {
        lemma_created(old(bytes)@, bytes@, s as int, n as int, name@, short@, meta);
    }
    Ok(slot)
}

/// Whether `new` is the directory `old` after the entry in the slot `slot`
/// with `n` slots of a long name has been removed: the first byte of each of
/// its slots marks a deleted slot, and no other byte has changed.
pub open spec fn removed(old: Seq<u8>, new: Seq<u8>, slot: int, n: int) -> bool {
    &&& new.len() == old.len()
    &&& forall|x: int|
        0 <= x < old.len() ==> #[trigger] new[x] == if x % 32 == 0 && slot - n <= x / 32 <= slot {
            DELETED
        } else {
            old[x]
        }
}

/// After an entry has been removed, a listing gives every other entry as
/// before, and not the one removed.
pub proof fn lemma_removed(old: Seq<u8>, new: Seq<u8>, slot: int)
    requires
        listed(old, slot),
        removed(old, new, slot, run_len(old, slot)),
    ensures
        !listed(new, slot),
        forall|j: int| j != slot ==> listed(new, j) == listed(old, j),
        forall|j: int|
            listed(old, j) && j != slot ==> entry_name(new, j) == entry_name(old, j)
                && short_bytes(new, j) == short_bytes(old, j) && meta_at(new, j) == meta_at(old, j),
{
    let n = run_len(old, slot);
    let sum = spec_checksum(short_bytes(old, slot));
    let end = end_index(old);
    lemma_end_from(old, 0);
    lemma_run_bounds(old, slot, 1, sum);
    assert(32 * (old.len() as int / 32) <= old.len());
    assert forall|i: int| 0 <= i < slot_count(old) implies is_end(new, i) == is_end(old, i) by {
        if slot - n <= i <= slot {
            if i < slot {
                lemma_run_is_long(old, slot, 1, sum, slot - i);
            }
        }
    }
    lemma_end_is(new, 0, end);
    assert(is_deleted(new, slot));
    assert forall|j: int| j != slot implies listed(new, j) == listed(old, j) && (listed(old, j)
        ==> entry_name(new, j) == entry_name(old, j) && short_bytes(new, j) == short_bytes(old, j)
        && meta_at(new, j) == meta_at(old, j)) by {
        if 0 <= j < end {
            if j < slot - n {
                lemma_entry_same(old, new, j, -1);
            } else if j < slot {
                lemma_run_is_long(old, slot, 1, sum, slot - j);
                assert(is_deleted(new, j));
            } else {
                assert(!is_long(old, slot));
                assert(!is_long(new, slot));
                lemma_entry_same(old, new, j, slot);
            }
        }
    }
}

/// Removes the entry in the slot `slot`: its short entry and the slots of
/// its long name become deleted slots. A slot that holds no entry gives
/// `NotFound`.
pub fn remove(bytes: &mut Vec<u8>, slot: usize) -> (result: Result<(), Error>)
    ensures
        final(bytes)@.len() == old(bytes)@.len(),
        !listed(old(bytes)@, slot as int) ==> result == Err::<(), Error>(Error::NotFound) && final(bytes)@ == old(bytes)@,
        listed(old(bytes)@, slot as int) ==> {
            &&& result == Ok::<(), Error>(())
            &&& removed(
                old(bytes)@,
                final(bytes)@,
                slot as int,
                run_len(old(bytes)@, slot as int),
            )
            &&& !listed(final(bytes)@, slot as int)
            &&& forall|j: int| j != slot ==> listed(final(bytes)@, j) == listed(old(bytes)@, j)
            &&& forall|j: int|
                listed(old(bytes)@, j) && j != slot ==> entry_name(final(bytes)@, j) == entry_name(
                    old(bytes)@,
                    j,
                ) && short_bytes(final(bytes)@, j) == short_bytes(old(bytes)@, j) && meta_at(
                    final(bytes)@,
                    j,
                ) == meta_at(old(bytes)@, j)
        },
{
    let end = find_end(bytes.as_slice());
    if !is_listed(bytes.as_slice(), slot, end) {
        return Err(Error::NotFound);
    }
    let short = read_short(bytes.as_slice(), slot);
    let n = count_run(bytes.as_slice(), slot, checksum(&short));
    let mut k: usize = 0;
    while k <= n
        invariant
            k <= n + 1,
            n <= 20,
            n <= slot,
            slot < slot_count(bytes@),
            bytes@.len() == old(bytes)@.len(),
            forall|x: int|
                0 <= x < bytes@.len() ==> #[trigger] bytes@[x] == if x % 32 == 0 && slot - k < x
                    / 32 <= slot {
                    DELETED
                } else {
                    old(bytes)@[x]
                },
        decreases n + 1 - k,
    {
        let at = slot_offset(bytes.as_slice(), slot - k);
        bytes[at] = DELETED;
        k += 1;
    }
    proof {
        lemma_removed(old(bytes)@, bytes@, slot as int);
    }
    Ok(())
}

/// After the content of an entry has been rewritten, a listing gives the
/// entry under its name with the new content, and every other entry as
/// before.
pub proof fn lemma_meta_updated(old: Seq<u8>, new: Seq<u8>, slot: int, meta: Meta)
    requires
        listed(old, slot),
        new.len() == old.len(),
        meta.attributes != ATTR_LONG_NAME,
        short_bytes(new, slot) == short_bytes(old, slot),
        meta_at(new, slot) == meta,
        forall|x: int| 0 <= x < old.len() && !(32 * slot <= x < 32 * slot + 32) ==> new[x] == old[x],
    ensures
        forall|j: int| listed(new, j) == listed(old, j),
        entry_name(new, slot) == entry_name(old, slot),
        forall|j: int|
            listed(old, j) && j != slot ==> entry_name(new, j) == entry_name(old, j)
                && short_bytes(new, j) == short_bytes(old, j) && meta_at(new, j) == meta_at(old, j),
{
    let end = end_index(old);
    let sum = spec_checksum(short_bytes(old, slot));
    lemma_end_from(old, 0);
    assert(32 * (old.len() as int / 32) <= old.len());
    assert(new[32 * slot] == short_bytes(new, slot)[0]);
    assert(old[32 * slot] == short_bytes(old, slot)[0]);
    assert forall|i: int| 0 <= i < slot_count(old) implies is_end(new, i) == is_end(old, i) by {}
    lemma_end_is(new, 0, end);
    assert(is_short(new, slot));
    lemma_run_same(old, new, slot, -1, 1, sum);
    lemma_run_bounds(old, slot, 1, sum);
    let n = run_len(old, slot);
    if n > 0 {
        assert(run_units(old, 32 * slot, n) =~= run_units(new, 32 * slot, n));
    }
    assert forall|j: int| j != slot implies listed(new, j) == listed(old, j) && (listed(old, j)
        ==> entry_name(new, j) == entry_name(old, j) && short_bytes(new, j) == short_bytes(old, j)
        && meta_at(new, j) == meta_at(old, j)) by {
        if 0 <= j < end {
            if j < slot {
                lemma_entry_same(old, new, j, -1);
            } else {
                lemma_entry_same(old, new, j, slot);
            }
        }
    }
}

/// Rewrites the content of the entry in the slot `slot`, as a flush of its
/// file does; the name stays. A slot that holds no entry gives `NotFound`;
/// the attribute of a slot of a long name is refused.
pub fn update_meta(bytes: &mut Vec<u8>, slot: usize, meta: Meta) -> (result: Result<(), Error>)
    ensures
        final(bytes)@.len() == old(bytes)@.len(),
        result is Err ==> final(bytes)@ == old(bytes)@,
        !listed(old(bytes)@, slot as int) ==> result == Err::<(), Error>(Error::NotFound),
        listed(old(bytes)@, slot as int) && meta.attributes == ATTR_LONG_NAME ==> result
            == Err::<(), Error>(Error::InvalidInput),
        listed(old(bytes)@, slot as int) && meta.attributes != ATTR_LONG_NAME ==> {
            &&& result == Ok::<(), Error>(())
            &&& meta_at(final(bytes)@, slot as int) == meta
            &&& short_bytes(final(bytes)@, slot as int) == short_bytes(old(bytes)@, slot as int)
            &&& entry_name(final(bytes)@, slot as int) == entry_name(old(bytes)@, slot as int)
            &&& forall|x: int|
                0 <= x < old(bytes)@.len() && !(32 * slot <= x < 32 * slot + 32) ==> final(bytes)@[x] == old(bytes)@[x]
            &&& forall|j: int| listed(final(bytes)@, j) == listed(old(bytes)@, j)
            &&& forall|j: int|
                listed(old(bytes)@, j) && j != slot ==> entry_name(final(bytes)@, j) == entry_name(
                    old(bytes)@,
                    j,
                ) && short_bytes(final(bytes)@, j) == short_bytes(old(bytes)@, j) && meta_at(
                    final(bytes)@,
                    j,
                ) == meta_at(old(bytes)@, j)
        },
{
    let end = find_end(bytes.as_slice());
    if !is_listed(bytes.as_slice(), slot, end) {
        return Err(Error::NotFound);
    }
    if meta.attributes == ATTR_LONG_NAME {
        return Err(Error::InvalidInput);
    }
    let short = read_short(bytes.as_slice(), slot);
    write_short_slot(bytes, slot, &short, meta);
    proof {
        lemma_meta_updated(old(bytes)@, bytes@, slot as int, meta);
    }
    Ok(())
}

/// A directory that has been made longer by zeros lists what it listed
/// before.
pub proof fn lemma_dir_grown(before: Seq<u8>, more: Seq<u8>)
    requires
        before.len() % 32 == 0,
        more.len() % 32 == 0,
        forall|i: int| 0 <= i < more.len() ==> more[i] == 0,
    ensures
        end_index(before + more) == end_index(before),
        forall|j: int| listed(before + more, j) == listed(before, j),
        forall|j: int|
            listed(before, j) ==> entry_name(before + more, j) == entry_name(before, j)
                && short_bytes(before + more, j) == short_bytes(before, j) && meta_at(
                before + more,
                j,
            ) == meta_at(before, j) && run_len(before + more, j) == run_len(before, j),
        forall|j: int| end_index(before) <= j < slot_count(before + more) ==> is_vacant(before + more, j),
{
    let after = before + more;
    let end = end_index(before);
    lemma_end_from(before, 0);
    assert(slot_count(after) == slot_count(before) + slot_count(more));
    assert forall|i: int| 0 <= i < end implies !is_end(after, i) by {
        assert(!is_end(before, i));
        assert(after[32 * i] == before[32 * i]);
    }
    if end < slot_count(after) {
        if end < slot_count(before) {
            assert(after[32 * end] == before[32 * end]);
        } else {
            assert(after[32 * end] == more[32 * end - before.len()]);
        }
    }
    lemma_end_is(after, 0, end);
    assert forall|j: int| 0 <= j < end implies is_short(after, j) == is_short(before, j) && (
    listed(before, j) ==> entry_name(after, j) == entry_name(before, j) && short_bytes(after, j)
        == short_bytes(before, j) && meta_at(after, j) == meta_at(before, j) && run_len(after, j)
        == run_len(before, j)) by {
        assert(after[32 * j] == before[32 * j]);
        assert(after[32 * j + 11] == before[32 * j + 11]);
        if listed(before, j) {
            lemma_entry_same(before, after, j, -1);
        }
    }
    assert forall|j: int| listed(after, j) == listed(before, j) by {
        if 0 <= j < end {
            assert(is_short(after, j) == is_short(before, j));
        }
    }
}

/// The generated short names that are in use are the same in two
/// directories whose entries have the same short names.
pub proof fn lemma_alias_same(before: Seq<u8>, after: Seq<u8>, name: Seq<u16>, n: int)
    requires
        forall|short: Seq<u8>| #[trigger] short_taken(after, short) == short_taken(before, short),
    ensures
        alias_from(after, name, n) == alias_from(before, name, n),
    decreases MAX_ALIAS_NUMBER + 1 - n,
{
    if n <= MAX_ALIAS_NUMBER {
        assert(short_taken(after, alias(name, n)) == short_taken(before, alias(name, n)));
        if short_taken(before, alias(name, n)) {
            lemma_alias_same(before, after, name, n + 1);
        }
    }
}

/// A directory that has been made longer by zeros has the names that it
/// had: the same names are taken, and a new entry gets the same short name.
pub proof fn lemma_grown_names(before: Seq<u8>, more: Seq<u8>, name: Seq<u16>)
    requires
        before.len() % 32 == 0,
        more.len() % 32 == 0,
        forall|i: int| 0 <= i < more.len() ==> more[i] == 0,
    ensures
        name_taken(before + more, name) == name_taken(before, name),
        chosen_short(before + more, name) == chosen_short(before, name),
{
    let after = before + more;
    lemma_dir_grown(before, more);
    assert(name_taken(after, name) == name_taken(before, name)) by {
        if name_taken(before, name) {
            let j = choose|j: int| listed(before, j) && #[trigger] answers_to(before, j, name);
            assert(listed(after, j) && answers_to(after, j, name));
        }
        if name_taken(after, name) {
            let j = choose|j: int| listed(after, j) && #[trigger] answers_to(after, j, name);
            assert(listed(before, j) && answers_to(before, j, name));
        }
    }
    assert forall|short: Seq<u8>| #[trigger]
        short_taken(after, short) == short_taken(before, short) by {
        if short_taken(before, short) {
            let j = choose|j: int| #[trigger] listed(before, j) && short_bytes(before, j) == short;
            assert(listed(after, j) && short_bytes(after, j) == short);
        }
        if short_taken(after, short) {
            let j = choose|j: int| #[trigger] listed(after, j) && short_bytes(after, j) == short;
            assert(listed(before, j) && short_bytes(before, j) == short);
        }
    }
    lemma_alias_same(before, after, name, 1);
}

} // verus!
