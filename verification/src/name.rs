//! File names: the 8.3 short name of a directory entry, and the long name
//! carried by the slots in front of it.
//!
//! A name is a sequence of UCS-2 code units. A short name is 11 bytes: eight
//! for the base and three for the extension, each padded with spaces.
use vstd::prelude::*;

verus! {

/// The code unit of the dot between base and extension.
pub const DOT: u16 = 0x2E;

/// The byte that pads a short name.
pub const SPACE: u8 = 0x20;

/// The index of the first `unit` in `name` at or behind `from`, or the
/// length of `name` where there is none.
pub open spec fn find_unit(name: Seq<u16>, unit: u16, from: int) -> int
    decreases name.len() - from,
{
    if from >= name.len() {
        name.len() as int
    } else if name[from] == unit {
        from
    } else {
        find_unit(name, unit, from + 1)
    }
}

/// What `find_unit` finds: the first place of the unit, with none before it.
pub proof fn lemma_find_unit(name: Seq<u16>, unit: u16, from: int)
    requires
        0 <= from <= name.len(),
    ensures
        from <= find_unit(name, unit, from) <= name.len(),
        find_unit(name, unit, from) < name.len() ==> name[find_unit(name, unit, from)] == unit,
        forall|i: int| from <= i < find_unit(name, unit, from) ==> name[i] != unit,
    decreases name.len() - from,
{
    if from < name.len() && name[from] != unit {
        lemma_find_unit(name, unit, from + 1);
    }
}

/// The first place of a unit is the place where it stands with none before.
pub proof fn lemma_find_unit_is(name: Seq<u16>, unit: u16, from: int, at: int)
    requires
        0 <= from <= at <= name.len(),
        at < name.len() ==> name[at] == unit,
        forall|i: int| from <= i < at ==> name[i] != unit,
    ensures
        find_unit(name, unit, from) == at,
    decreases at - from,
{
    if from < at {
        lemma_find_unit_is(name, unit, from + 1, at);
    }
}

/// Finds the first `unit` in `name` at or behind `from`.
pub fn find(name: &[u16], unit: u16, from: usize) -> (at: usize)
    requires
        from <= name.len(),
    ensures
        at == find_unit(name@, unit, from as int),
        from <= at <= name.len(),
{
    let mut at = from;
    while at < name.len() && name[at] != unit
        invariant
            from <= at <= name.len(),
            find_unit(name@, unit, at as int) == find_unit(name@, unit, from as int),
        decreases name.len() - at,
    {
        at += 1;
    }
    proof {
        lemma_find_unit(name@, unit, from as int);
    }
    at
}

/// Whether `unit` can stand in a short name as it is: an upper-case letter,
/// a digit, or one of the signs that a short name admits.
pub open spec fn spec_is_short_char(unit: u16) -> bool {
    ||| 0x41 <= unit <= 0x5A
    ||| 0x30 <= unit <= 0x39
    ||| unit == 0x21
    ||| 0x23 <= unit <= 0x29
    ||| unit == 0x2D
    ||| unit == 0x40
    ||| 0x5E <= unit <= 0x60
    ||| unit == 0x7B
    ||| unit == 0x7D
    ||| unit == 0x7E
}

/// Whether `unit` can stand in a short name as it is.
#[verifier::when_used_as_spec(spec_is_short_char)]
pub fn is_short_char(unit: u16) -> (yes: bool)
    ensures
        yes == spec_is_short_char(unit),
{
    (0x41 <= unit && unit <= 0x5A) || (0x30 <= unit && unit <= 0x39) || unit == 0x21 || (0x23
        <= unit && unit <= 0x29) || unit == 0x2D || unit == 0x40 || (0x5E <= unit && unit <= 0x60)
        || unit == 0x7B || unit == 0x7D || unit == 0x7E
}

/// Whether `name` is a short name as it stands: a base of one to eight
/// short-name characters, and after a dot, if there is one, an extension of
/// one to three.
pub open spec fn fits_short(name: Seq<u16>) -> bool {
    let dot = find_unit(name, DOT, 0);
    &&& 1 <= dot <= 8
    &&& dot == name.len() || 1 <= name.len() - dot - 1 <= 3
    &&& forall|i: int| 0 <= i < name.len() && i != dot ==> spec_is_short_char(#[trigger] name[i])
}

/// The 11 bytes of the short name `name`: base and extension, each padded
/// with spaces.
pub open spec fn short_of(name: Seq<u16>) -> Seq<u8> {
    let dot = find_unit(name, DOT, 0);
    Seq::new(
        11,
        |i: int|
            if i < 8 {
                if i < dot {
                    name[i] as u8
                } else {
                    SPACE
                }
            } else if dot + 1 + (i - 8) < name.len() {
                name[dot + 1 + (i - 8)] as u8
            } else {
                SPACE
            },
    )
}

/// Writes `name` as a short name, where it is one as it stands.
pub fn to_short(name: &[u16]) -> (short: Option<[u8; 11]>)
    ensures
        short is Some <==> fits_short(name@),
        short matches Some(bytes) ==> bytes@ == short_of(name@),
{
    let dot = find(name, DOT, 0);
    let len = name.len();
    if dot < 1 || dot > 8 {
        return None;
    }
    if dot != len && (len - dot - 1 < 1 || len - dot - 1 > 3) {
        return None;
    }
    let mut bytes = [SPACE;11];
    let mut i: usize = 0;
    while i < len
        invariant
            len == name@.len(),
            dot == find_unit(name@, DOT, 0),
            1 <= dot <= 8,
            dot == len || 1 <= len - dot - 1 <= 3,
            i <= len,
            forall|j: int| 0 <= j < i && j != dot ==> spec_is_short_char(#[trigger] name@[j]),
            forall|k: int|
                0 <= k < 11 ==> #[trigger] bytes@[k] == if k < 8 {
                    if k < dot && k < i {
                        name@[k] as u8
                    } else {
                        SPACE
                    }
                } else if dot + 1 + (k - 8) < i {
                    name@[dot + 1 + (k - 8)] as u8
                } else {
                    SPACE
                },
        decreases len - i,
    {
        if i != dot {
            if !is_short_char(name[i]) {
                return None;
            }
            if i < dot {
                bytes[i] = name[i] as u8;
            } else {
                bytes[8 + (i - dot - 1)] = name[i] as u8;
            }
        }
        i += 1;
    }
    assert(bytes@ =~= short_of(name@));
    Some(bytes)
}

/// The length of `bytes[lo..hi]` without the spaces at its end.
pub open spec fn trimmed(bytes: Seq<u8>, lo: int, hi: int) -> int
    decreases hi - lo,
{
    if hi <= lo {
        0
    } else if bytes[hi - 1] != SPACE {
        hi - lo
    } else {
        trimmed(bytes, lo, hi - 1)
    }
}

/// The code unit that the byte `byte` of a short name stands for: itself
/// for ASCII, the replacement character for everything else.
pub open spec fn unit_of(byte: u8) -> u16 {
    if byte < 0x80 {
        byte as u16
    } else {
        0xFFFD
    }
}

/// The name that the 11 bytes `short` of a short name stand for: the base
/// without its padding, and, where there is an extension, a dot and the
/// extension without its padding.
pub open spec fn short_units(short: Seq<u8>) -> Seq<u16> {
    let base = trimmed(short, 0, 8);
    let ext = trimmed(short, 8, 11);
    let front = Seq::new(base as nat, |i: int| unit_of(short[i]));
    if ext == 0 {
        front
    } else {
        front.push(DOT) + Seq::new(ext as nat, |i: int| unit_of(short[8 + i]))
    }
}

/// Trims `bytes[lo..hi]`.
fn trim(bytes: &[u8; 11], lo: usize, hi: usize) -> (len: usize)
    requires
        lo <= hi <= 11,
    ensures
        len == trimmed(bytes@, lo as int, hi as int),
        len <= hi - lo,
{
    let mut end = hi;
    while end > lo && bytes[end - 1] == SPACE
        invariant
            lo <= end <= hi <= 11,
            trimmed(bytes@, lo as int, end as int) == trimmed(bytes@, lo as int, hi as int),
        decreases end,
    {
        end -= 1;
    }
    end - lo
}

/// Reads the name that a short name stands for.
pub fn short_to_units(short: &[u8; 11]) -> (name: Vec<u16>)
    ensures
        name@ == short_units(short@),
{
    let base = trim(short, 0, 8);
    let ext = trim(short, 8, 11);
    let mut name: Vec<u16> = Vec::new();
    let mut i: usize = 0;
    while i < base
        invariant
            i <= base <= 8,
            name@ == Seq::new(i as nat, |k: int| unit_of(short@[k])),
        decreases base - i,
    {
        let byte = short[i];
        name.push(if byte < 0x80 {
            byte as u16
        } else {
            0xFFFD
        });
        assert(name@ =~= Seq::new((i + 1) as nat, |k: int| unit_of(short@[k])));
        i += 1;
    }
    if ext > 0 {
        name.push(DOT);
        let ghost front = name@;
        let mut j: usize = 0;
        while j < ext
            invariant
                j <= ext <= 3,
                name@ == front + Seq::new(j as nat, |k: int| unit_of(short@[8 + k])),
            decreases ext - j,
        {
            let byte = short[8 + j];
            name.push(if byte < 0x80 {
                byte as u16
            } else {
                0xFFFD
            });
            assert(name@ =~= front + Seq::new((j + 1) as nat, |k: int| unit_of(short@[8 + k])));
            j += 1;
        }
    }
    name
}

/// A run of spaces at the end is what trimming takes away.
pub proof fn lemma_trimmed(bytes: Seq<u8>, lo: int, keep: int, hi: int)
    requires
        lo <= keep <= hi,
        keep > lo ==> bytes[keep - 1] != SPACE,
        forall|i: int| keep <= i < hi ==> bytes[i] == SPACE,
    ensures
        trimmed(bytes, lo, hi) == keep - lo,
    decreases hi - keep,
{
    if keep < hi {
        lemma_trimmed(bytes, lo, keep, hi - 1);
    }
}

/// A name that is a short name as it stands is read back from its 11 bytes
/// unchanged.
pub proof fn lemma_short_round_trip(name: Seq<u16>)
    requires
        fits_short(name),
    ensures
        short_units(short_of(name)) == name,
{
    let dot = find_unit(name, DOT, 0);
    let short = short_of(name);
    lemma_find_unit(name, DOT, 0);
    assert(spec_is_short_char(name[dot - 1]));
    lemma_trimmed(short, 0, dot, 8);
    if dot == name.len() {
        lemma_trimmed(short, 8, 8, 11);
        assert(short_units(short) =~= name) by {
            assert forall|i: int| 0 <= i < name.len() implies unit_of(short[i]) == name[i] by {
                assert(spec_is_short_char(name[i]));
            }
        }
    } else {
        let ext = name.len() - dot - 1;
        assert(spec_is_short_char(name[name.len() - 1]));
        lemma_trimmed(short, 8, 8 + ext, 11);
        assert(short_units(short) =~= name) by {
            assert forall|i: int| 0 <= i < name.len() && i != dot implies (if i < dot {
                unit_of(short[i])
            } else {
                unit_of(short[8 + (i - dot - 1)])
            }) == name[i] by {
                assert(spec_is_short_char(name[i]));
            }
        }
    }
}

/// The checksum of the first `n` bytes of a short name: each step rotates
/// the sum right by one bit and adds the next byte, in eight bits.
pub open spec fn checksum_upto(short: Seq<u8>, n: int) -> int
    decreases n,
{
    if n <= 0 {
        0
    } else {
        let sum = checksum_upto(short, n - 1);
        ((sum % 2) * 128 + sum / 2 + short[n - 1]) % 256
    }
}

/// The checksum that ties the slots of a long name to their short name.
pub open spec fn spec_checksum(short: Seq<u8>) -> int {
    checksum_upto(short, 11)
}

/// Computes the checksum of a short name.
pub fn checksum(short: &[u8; 11]) -> (sum: u8)
    ensures
        sum == spec_checksum(short@),
{
    let mut sum: u8 = 0;
    let mut i: usize = 0;
    while i < 11
        invariant
            i <= 11,
            sum == checksum_upto(short@, i as int),
        decreases 11 - i,
    {
        sum = (((sum % 2) as u16 * 128 + (sum / 2) as u16 + short[i] as u16) % 256) as u8;
        i += 1;
    }
    sum
}

/// The number of code units that one slot of a long name holds.
pub const UNITS_PER_SLOT: usize = 13;

/// The greatest length of a name, in code units.
pub const MAX_NAME_LEN: usize = 255;

/// The number of slots that a long name of `len` code units takes.
pub open spec fn slots_for(len: int) -> int {
    (len + 12) / 13
}

/// Where the code unit `k` of a slot lies in its 32 bytes.
pub open spec fn unit_offset(k: int) -> int {
    if k < 5 {
        1 + 2 * k
    } else if k < 11 {
        14 + 2 * (k - 5)
    } else {
        28 + 2 * (k - 11)
    }
}

/// The code unit at the place `j` of the slots of `name`: the name itself, a
/// zero behind it, and 0xFFFF from there on.
pub open spec fn padded_unit(name: Seq<u16>, j: int) -> u16 {
    if j < name.len() {
        name[j]
    } else if j == name.len() {
        0
    } else {
        0xFFFF
    }
}

/// The code unit `k` of the 32-byte slot that begins at `at` in `bytes`.
pub open spec fn slot_unit(bytes: Seq<u8>, at: int, k: int) -> u16 {
    (bytes[at + unit_offset(k)] + 256 * bytes[at + unit_offset(k) + 1]) as u16
}

/// Whether the 32 bytes at `at` in `bytes` are the slot with the ordinal
/// `ordinal` of the long name `name`: the ordinal, with 0x40 added on the
/// last slot of the name; the attribute 0x0F; the checksum of the short
/// name; zeros where a short entry has its type and its cluster; and the 13
/// code units of the name that belong to the ordinal.
pub open spec fn is_lfn_slot(
    bytes: Seq<u8>,
    at: int,
    name: Seq<u16>,
    ordinal: int,
    sum: u8,
) -> bool {
    &&& bytes[at] == ordinal + if ordinal == slots_for(name.len() as int) {
        0x40int
    } else {
        0int
    }
    &&& bytes[at + 11] == 0x0F
    &&& bytes[at + 12] == 0
    &&& bytes[at + 13] == sum
    &&& bytes[at + 26] == 0
    &&& bytes[at + 27] == 0
    &&& forall|k: int|
        0 <= k < 13 ==> #[trigger] slot_unit(bytes, at, k) == padded_unit(name, (ordinal - 1) * 13 + k)
}

/// Reads the code unit `k` of the slot at `at`.
pub fn read_unit(bytes: &[u8], at: usize, k: usize) -> (unit: u16)
    requires
        k < 13,
        at + 32 <= bytes.len(),
    ensures
        unit == slot_unit(bytes@, at as int, k as int),
{
    let offset = if k < 5 {
        1 + 2 * k
    } else if k < 11 {
        14 + 2 * (k - 5)
    } else {
        28 + 2 * (k - 11)
    };
    bytes[at + offset] as u16 + 256 * (bytes[at + offset + 1] as u16)
}

/// Writes the slot with the ordinal `ordinal` of the long name `name` at
/// `at`. No byte outside of the slot changes.
pub fn write_lfn_slot(bytes: &mut Vec<u8>, at: usize, name: &[u16], ordinal: usize, sum: u8)
    requires
        at + 32 <= old(bytes).len(),
        1 <= name@.len() <= MAX_NAME_LEN,
        1 <= ordinal <= slots_for(name@.len() as int),
    ensures
        final(bytes)@.len() == old(bytes)@.len(),
        is_lfn_slot(final(bytes)@, at as int, name@, ordinal as int, sum),
        forall|i: int|
            0 <= i < old(bytes)@.len() && !(at <= i < at + 32) ==> final(bytes)@[i] == old(
                bytes,
            )@[i],
{
    let total = (name.len() + 12) / 13;
    let whole = bytes.len();
    bytes[at] = if ordinal == total {
        (ordinal + 0x40) as u8
    } else {
        ordinal as u8
    };
    bytes[at + 11] = 0x0F;
    bytes[at + 12] = 0;
    bytes[at + 13] = sum;
    bytes[at + 26] = 0;
    bytes[at + 27] = 0;
    let mut k: usize = 0;
    while k < 13
        invariant
            k <= 13,
            at + 32 <= whole,
            whole == bytes@.len(),
            bytes@.len() == old(bytes)@.len(),
            1 <= ordinal <= 20,
            name@.len() <= MAX_NAME_LEN,
            bytes@[at as int] == ordinal + if ordinal == slots_for(name@.len() as int) {
                0x40int
            } else {
                0int
            },
            bytes@[at + 11] == 0x0F,
            bytes@[at + 12] == 0,
            bytes@[at + 13] == sum,
            bytes@[at + 26] == 0,
            bytes@[at + 27] == 0,
            forall|j: int|
                0 <= j < k ==> #[trigger] slot_unit(bytes@, at as int, j) == padded_unit(
                    name@,
                    (ordinal - 1) * 13 + j,
                ),
            forall|i: int|
                0 <= i < bytes@.len() && !(at <= i < at + 32) ==> bytes@[i] == old(bytes)@[i],
        decreases 13 - k,
    {
        let j = (ordinal - 1) * 13 + k;
        let unit: u16 = if j < name.len() {
            name[j]
        } else if j == name.len() {
            0
        } else {
            0xFFFF
        };
        let offset = if k < 5 {
            1 + 2 * k
        } else if k < 11 {
            14 + 2 * (k - 5)
        } else {
            28 + 2 * (k - 11)
        };
        let ghost before = bytes@;
        bytes[at + offset] = (unit % 256) as u8;
        bytes[at + offset + 1] = (unit / 256) as u8;
        proof {
            assert(offset == unit_offset(k as int));
            assert forall|j2: int| 0 <= j2 < k implies #[trigger] slot_unit(bytes@, at as int, j2)
                == slot_unit(before, at as int, j2) by {
                assert(unit_offset(j2) != offset && unit_offset(j2) + 1 != offset && unit_offset(j2)
                    != offset + 1);
            }
            assert(slot_unit(bytes@, at as int, k as int) == unit);
        }
        k += 1;
    }
}

/// The code units of the `n` slots of a long name that lie in front of the
/// byte offset `at`, the nearest slot first.
pub open spec fn run_units(bytes: Seq<u8>, at: int, n: int) -> Seq<u16> {
    Seq::new((13 * n) as nat, |j: int| slot_unit(bytes, at - 32 * (j / 13 + 1), j % 13))
}

/// The name that code units of slots stand for: those in front of the first
/// zero.
pub open spec fn long_name(units: Seq<u16>) -> Seq<u16> {
    units.take(find_unit(units, 0, 0))
}

/// Whether `name` can be carried by slots: it has between 1 and 255 code
/// units, none of them zero.
pub open spec fn is_long_name(name: Seq<u16>) -> bool {
    &&& 1 <= name.len() <= MAX_NAME_LEN
    &&& forall|i: int| 0 <= i < name.len() ==> #[trigger] name[i] != 0
}

/// A name that has been written to slots is read back from them unchanged.
pub proof fn lemma_long_round_trip(bytes: Seq<u8>, at: int, name: Seq<u16>, sum: u8)
    requires
        is_long_name(name),
        forall|ordinal: int|
            1 <= ordinal <= slots_for(name.len() as int) ==> #[trigger] is_lfn_slot(
                bytes,
                at - 32 * ordinal,
                name,
                ordinal,
                sum,
            ),
    ensures
        long_name(run_units(bytes, at, slots_for(name.len() as int))) == name,
{
    let n = slots_for(name.len() as int);
    let units = run_units(bytes, at, n);
    assert forall|j: int| 0 <= j < units.len() implies units[j] == padded_unit(name, j) by {
        let ordinal = j / 13 + 1;
        assert(is_lfn_slot(bytes, at - 32 * ordinal, name, ordinal, sum));
        assert(slot_unit(bytes, at - 32 * ordinal, j % 13) == padded_unit(
            name,
            (ordinal - 1) * 13 + j % 13,
        ));
    }
    let len = name.len() as int;
    if len < units.len() {
        assert(units[len] == 0);
    }
    assert forall|i: int| 0 <= i < len implies units[i] != 0 by {
        assert(units[i] == name[i]);
    }
    lemma_find_unit_is(units, 0, 0, len);
    assert(long_name(units) =~= name);
}

/// The byte that stands for `unit` in a generated short name: a short-name
/// character stands for itself, a lower-case letter for its upper-case
/// twin, and every other unit is left out.
pub open spec fn alias_byte(unit: u16) -> Option<u8> {
    if spec_is_short_char(unit) {
        Some(unit as u8)
    } else if 0x61 <= unit <= 0x7A {
        Some((unit - 0x20) as u8)
    } else {
        None
    }
}

/// The bytes that stand for `name[from..to]` in a generated short name.
pub open spec fn alias_chars(name: Seq<u16>, from: int, to: int) -> Seq<u8>
    decreases to - from,
{
    if to <= from {
        Seq::empty()
    } else {
        let before = alias_chars(name, from, to - 1);
        match alias_byte(name[to - 1]) {
            Some(byte) => before.push(byte),
            None => before,
        }
    }
}

/// The index of the last dot of `name` before `upto`, or -1 without one.
pub open spec fn last_dot(name: Seq<u16>, upto: int) -> int
    decreases upto,
{
    if upto <= 0 {
        -1
    } else if name[upto - 1] == DOT {
        upto - 1
    } else {
        last_dot(name, upto - 1)
    }
}

/// The greatest number that a generated short name can carry.
pub const MAX_ALIAS_NUMBER: u32 = 999_999;

/// The number of decimal digits of `n`, for `n` up to 999999.
pub open spec fn digit_count(n: int) -> int {
    if n < 10 {
        1
    } else if n < 100 {
        2
    } else if n < 1000 {
        3
    } else if n < 10000 {
        4
    } else if n < 100000 {
        5
    } else {
        6
    }
}

/// Ten to the power of `place`, for `place` up to 5.
pub open spec fn ten_to(place: int) -> int {
    if place <= 0 {
        1
    } else if place == 1 {
        10
    } else if place == 2 {
        100
    } else if place == 3 {
        1000
    } else if place == 4 {
        10000
    } else {
        100000
    }
}

/// The tail of a generated short name: a tilde and the decimal digits of `n`.
pub open spec fn alias_tail(n: int) -> Seq<u8> {
    Seq::new(
        (1 + digit_count(n)) as nat,
        |i: int|
            if i == 0 {
                0x7Eu8
            } else {
                (0x30 + (n / ten_to(digit_count(n) - i)) % 10) as u8
            },
    )
}

/// The beginning of `bytes`, at most `limit` long.
pub open spec fn cut(bytes: Seq<u8>, limit: int) -> Seq<u8> {
    bytes.take(
        if bytes.len() <= limit {
            bytes.len() as int
        } else {
            limit
        },
    )
}

/// The 11 bytes of a short name with the base `stem` and the extension
/// `ext`, each padded with spaces.
pub open spec fn assembled(stem: Seq<u8>, ext: Seq<u8>) -> Seq<u8> {
    Seq::new(
        11,
        |i: int|
            if i < 8 {
                if i < stem.len() {
                    stem[i]
                } else {
                    SPACE
                }
            } else if i - 8 < ext.len() {
                ext[i - 8]
            } else {
                SPACE
            },
    )
}

/// The generated short name with the number `n` for `name`: of the name in
/// front of its last dot, what can stand in a short name, cut down so that
/// the tail `~n` fits into the eight bytes of the base; and of the name
/// behind that dot, the first three bytes that can stand in a short name.
pub open spec fn alias(name: Seq<u16>, n: int) -> Seq<u8> {
    let dot = last_dot(name, name.len() as int);
    let base = if dot < 0 {
        alias_chars(name, 0, name.len() as int)
    } else {
        alias_chars(name, 0, dot)
    };
    let ext = if dot < 0 {
        Seq::<u8>::empty()
    } else {
        alias_chars(name, dot + 1, name.len() as int)
    };
    assembled(cut(base, 8 - alias_tail(n).len()) + alias_tail(n), cut(ext, 3))
}

/// Finds the last dot of `name`.
fn find_last_dot(name: &[u16]) -> (dot: Option<usize>)
    ensures
        dot matches Some(at) ==> at == last_dot(name@, name@.len() as int) && at < name@.len(),
        dot is None ==> last_dot(name@, name@.len() as int) == -1,
{
    let mut upto = name.len();
    while upto > 0
        invariant
            upto <= name@.len(),
            last_dot(name@, upto as int) == last_dot(name@, name@.len() as int),
        decreases upto,
    {
        if name[upto - 1] == DOT {
            return Some(upto - 1);
        }
        upto -= 1;
    }
    None
}

/// Collects up to `limit` of the bytes that stand for `name[from..to]`.
fn alias_part(name: &[u16], from: usize, to: usize, limit: usize) -> (part: Vec<u8>)
    requires
        from <= to <= name@.len(),
    ensures
        part@ == cut(alias_chars(name@, from as int, to as int), limit as int),
{
    let mut part: Vec<u8> = Vec::new();
    let mut i = from;
    while i < to
        invariant
            from <= i <= to <= name@.len(),
            part@ == cut(alias_chars(name@, from as int, i as int), limit as int),
        decreases to - i,
    {
        let unit = name[i];
        let ghost before = alias_chars(name@, from as int, i as int);
        if is_short_char(unit) {
            if part.len() < limit {
                part.push(unit as u8);
            }
        } else if 0x61 <= unit && unit <= 0x7A {
            if part.len() < limit {
                part.push((unit - 0x20) as u8);
            }
        }
        assert(part@ =~= cut(alias_chars(name@, from as int, i + 1), limit as int));
        i += 1;
    }
    part
}

/// Ten to the power of `place`.
fn power_of_ten(place: usize) -> (power: u32)
    requires
        place <= 5,
    ensures
        power == ten_to(place as int),
{
    if place == 0 {
        1
    } else if place == 1 {
        10
    } else if place == 2 {
        100
    } else if place == 3 {
        1000
    } else if place == 4 {
        10000
    } else {
        100000
    }
}

/// Appends the tail `~n` to `stem`.
fn push_tail(stem: &mut Vec<u8>, n: u32)
    requires
        1 <= n <= MAX_ALIAS_NUMBER,
    ensures
        final(stem)@ == old(stem)@ + alias_tail(n as int),
{
    let digits: usize = if n < 10 {
        1
    } else if n < 100 {
        2
    } else if n < 1000 {
        3
    } else if n < 10000 {
        4
    } else if n < 100000 {
        5
    } else {
        6
    };
    stem.push(0x7E);
    let mut i: usize = 1;
    while i <= digits
        invariant
            1 <= i <= digits + 1,
            digits == digit_count(n as int),
            stem@ == old(stem)@ + alias_tail(n as int).take(i as int),
        decreases digits + 1 - i,
    {
        let power = power_of_ten(digits - i);
        stem.push((0x30 + (n / power) % 10) as u8);
        assert(stem@ =~= old(stem)@ + alias_tail(n as int).take(i + 1));
        i += 1;
    }
    assert(alias_tail(n as int).take(digits + 1) =~= alias_tail(n as int));
}

/// Puts a short name together from its base and its extension.
fn assemble(stem: &Vec<u8>, ext: &Vec<u8>) -> (short: [u8; 11])
    requires
        stem@.len() <= 8,
        ext@.len() <= 3,
    ensures
        short@ == assembled(stem@, ext@),
{
    let mut short = [SPACE;11];
    let mut i: usize = 0;
    while i < stem.len()
        invariant
            i <= stem@.len() <= 8,
            forall|k: int| 0 <= k < i ==> #[trigger] short@[k] == stem@[k],
            forall|k: int| i <= k < 11 ==> #[trigger] short@[k] == SPACE,
        decreases stem@.len() - i,
    {
        short[i] = stem[i];
        i += 1;
    }
    let mut j: usize = 0;
    while j < ext.len()
        invariant
            j <= ext@.len() <= 3,
            stem@.len() <= 8,
            forall|k: int| 0 <= k < stem@.len() ==> #[trigger] short@[k] == stem@[k],
            forall|k: int| stem@.len() <= k < 8 ==> #[trigger] short@[k] == SPACE,
            forall|k: int| 0 <= k < j ==> #[trigger] short@[8 + k] == ext@[k],
            forall|k: int| 8 + j <= k < 11 ==> #[trigger] short@[k] == SPACE,
        decreases ext@.len() - j,
    {
        short[8 + j] = ext[j];
        j += 1;
    }
    assert(short@ =~= assembled(stem@, ext@)) by {
        assert forall|k: int| 0 <= k < 11 implies short@[k] == assembled(stem@, ext@)[k] by {
            if k >= 8 && k - 8 < ext@.len() {
                assert(short@[8 + (k - 8)] == ext@[k - 8]);
            }
        }
    }
    short
}

/// Generates the short name with the number `n` for `name`.
pub fn make_alias(name: &[u16], n: u32) -> (short: [u8; 11])
    requires
        1 <= n <= MAX_ALIAS_NUMBER,
    ensures
        short@ == alias(name@, n as int),
{
    let dot = find_last_dot(name);
    let room: usize = if n < 10 {
        6
    } else if n < 100 {
        5
    } else if n < 1000 {
        4
    } else if n < 10000 {
        3
    } else if n < 100000 {
        2
    } else {
        1
    };
    let len = name.len();
    let (mut stem, ext) = match dot {
        Some(at) => (alias_part(name, 0, at, room), alias_part(name, at + 1, len, 3)),
        None => (alias_part(name, 0, len, room), Vec::new()),
    };
    assert(ext@ =~= cut(
        if last_dot(name@, name@.len() as int) < 0 {
            Seq::<u8>::empty()
        } else {
            alias_chars(name@, last_dot(name@, name@.len() as int) + 1, name@.len() as int)
        },
        3,
    ));
    push_tail(&mut stem, n);
    assemble(&stem, &ext)
}

/// Whether `unit` can stand in a name: it is no control character and none
/// of the signs `" * / : < > ? \ |`.
pub open spec fn spec_is_name_char(unit: u16) -> bool {
    &&& unit >= 0x20
    &&& unit != 0x7F
    &&& unit != 0x22
    &&& unit != 0x2A
    &&& unit != 0x2F
    &&& unit != 0x3A
    &&& unit != 0x3C
    &&& unit != 0x3E
    &&& unit != 0x3F
    &&& unit != 0x5C
    &&& unit != 0x7C
}

/// Whether `unit` can stand in a name.
#[verifier::when_used_as_spec(spec_is_name_char)]
pub fn is_name_char(unit: u16) -> (yes: bool)
    ensures
        yes == spec_is_name_char(unit),
{
    unit >= 0x20 && unit != 0x7F && unit != 0x22 && unit != 0x2A && unit != 0x2F && unit != 0x3A
        && unit != 0x3C && unit != 0x3E && unit != 0x3F && unit != 0x5C && unit != 0x7C
}

/// Whether `name` can be the name of an entry: it has between 1 and 255
/// code units, all of which can stand in a name.
pub open spec fn valid_name(name: Seq<u16>) -> bool {
    &&& 1 <= name.len() <= MAX_NAME_LEN
    &&& forall|i: int| 0 <= i < name.len() ==> spec_is_name_char(#[trigger] name[i])
}

/// Tells whether `name` can be the name of an entry.
pub fn check_name(name: &[u16]) -> (ok: bool)
    ensures
        ok == valid_name(name@),
{
    if name.len() < 1 || name.len() > MAX_NAME_LEN {
        return false;
    }
    let mut i: usize = 0;
    while i < name.len()
        invariant
            i <= name@.len(),
            forall|j: int| 0 <= j < i ==> spec_is_name_char(#[trigger] name@[j]),
        decreases name@.len() - i,
    {
        if !is_name_char(name[i]) {
            return false;
        }
        i += 1;
    }
    true
}

/// The code unit with a lower-case ASCII letter made upper-case.
pub open spec fn spec_fold(unit: u16) -> u16 {
    if 0x61 <= unit <= 0x7A {
        (unit - 0x20) as u16
    } else {
        unit
    }
}

/// Makes a lower-case ASCII letter upper-case.
#[verifier::when_used_as_spec(spec_fold)]
pub fn fold(unit: u16) -> (folded: u16)
    ensures
        folded == spec_fold(unit),
{
    if 0x61 <= unit && unit <= 0x7A {
        unit - 0x20
    } else {
        unit
    }
}

/// Whether two names are the same but for the case of ASCII letters.
pub open spec fn same_name(a: Seq<u16>, b: Seq<u16>) -> bool {
    &&& a.len() == b.len()
    &&& forall|i: int| 0 <= i < a.len() ==> spec_fold(#[trigger] a[i]) == spec_fold(b[i])
}

/// Compares two names without regard to the case of ASCII letters.
pub fn names_match(a: &[u16], b: &[u16]) -> (same: bool)
    ensures
        same == same_name(a@, b@),
{
    if a.len() != b.len() {
        return false;
    }
    let mut i: usize = 0;
    while i < a.len()
        invariant
            i <= a@.len(),
            a@.len() == b@.len(),
            forall|j: int| 0 <= j < i ==> spec_fold(#[trigger] a@[j]) == spec_fold(b@[j]),
        decreases a@.len() - i,
    {
        if fold(a[i]) != fold(b[i]) {
            return false;
        }
        i += 1;
    }
    true
}

/// The bytes that stand for a part of a name in a generated short name are
/// printable ASCII and no spaces.
pub proof fn lemma_alias_chars(name: Seq<u16>, from: int, to: int)
    ensures
        forall|i: int|
            0 <= i < alias_chars(name, from, to).len() ==> 0x21 <= #[trigger] alias_chars(
                name,
                from,
                to,
            )[i] <= 0x7E,
    decreases to - from,
{
    if to > from {
        lemma_alias_chars(name, from, to - 1);
        let before = alias_chars(name, from, to - 1);
        let all = alias_chars(name, from, to);
        assert forall|i: int| 0 <= i < all.len() implies 0x21 <= #[trigger] all[i] <= 0x7E by {
            if i < before.len() {
                assert(all[i] == before[i]);
            }
        }
    }
}

/// A generated short name has 11 bytes and begins with a byte that marks
/// neither a deleted slot nor the end of a directory.
pub proof fn lemma_alias_begins(name: Seq<u16>, n: int)
    requires
        1 <= n <= MAX_ALIAS_NUMBER,
    ensures
        alias(name, n).len() == 11,
        0x21 <= alias(name, n)[0] <= 0x7E,
{
    let dot = last_dot(name, name.len() as int);
    if dot < 0 {
        lemma_alias_chars(name, 0, name.len() as int);
    } else {
        lemma_alias_chars(name, 0, dot);
    }
}

/// A short name as it stands has 11 bytes and begins with a byte that marks
/// neither a deleted slot nor the end of a directory.
pub proof fn lemma_short_begins(name: Seq<u16>)
    requires
        fits_short(name),
    ensures
        short_of(name).len() == 11,
        0x21 <= short_of(name)[0] <= 0x7E,
{
    lemma_find_unit(name, DOT, 0);
    assert(spec_is_short_char(name[0]));
}

} // verus!
