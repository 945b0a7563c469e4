//! Binary framing of a log record.
//!
//! A record is `BEGIN(1) record_id(8 LE)`, then typed entries, then
//! `END(4) crc32(4 LE)`.  Entry types:
//! `INSERT_INDEX(2) table(2 LE) slot(8 LE) mask(8 LE)` followed by one
//! `ENTRY_BYTES`-sized sub-entry per set mask bit, in ascending bit order;
//! `INSERT_VALUE(3) table(2 LE) slot(8 LE)` followed by the raw payload
//! (its length is known to the consumer, not stored);
//! `DROP_TABLE(5) table(2 LE)`.
//! The CRC32 covers every byte from the `BEGIN` byte up to but not
//! including the checksum itself.

use vstd::bytes::*;
use vstd::prelude::*;

verus! {

/// Size in bytes of one sub-entry of an index chunk.
pub const ENTRY_BYTES: usize = 8;

/// Number of sub-entries in an index chunk; one mask bit each.
pub const CHUNK_ENTRIES: usize = 64;

/// Size in bytes of a whole index chunk.
pub const CHUNK_BYTES: usize = 512;

/// Entry type tags on disk.
pub const TAG_BEGIN: u8 = 1;

pub const TAG_INSERT_INDEX: u8 = 2;

pub const TAG_INSERT_VALUE: u8 = 3;

pub const TAG_END: u8 = 4;

pub const TAG_DROP_TABLE: u8 = 5;

/// The IEEE CRC32 of a byte sequence, as `crc32fast` computes it;
/// a function of the bytes alone.
pub uninterp spec fn crc32_of(bytes: Seq<u8>) -> u32;

/// Relies on `crc32fast::hash`: the IEEE CRC32 of the bytes, depending on
/// the bytes alone.
#[verifier::external_body]
pub(crate) fn crc32(bytes: &Vec<u8>) -> (r: u32)
    ensures
        r == crc32_of(bytes@),
{
    crc32fast::hash(bytes.as_slice())
}

/// How many of the mask's bits at positions `i` and above are set.
pub open spec fn mask_bits_from(mask: u64, i: int) -> nat
    decreases 64 - i,
{
    if i < 0 || i >= 64 {
        0
    } else {
        (if mask & (1u64 << i) != 0 {
            1nat
        } else {
            0nat
        }) + mask_bits_from(mask, i + 1)
    }
}

/// The sub-entries selected by the mask's bits at positions `i` and above,
/// in ascending bit order: 8 bytes of the chunk per set bit.
pub open spec fn sub_entries_from(mask: u64, chunk: Seq<u8>, i: int) -> Seq<u8>
    decreases 64 - i,
{
    if i < 0 || i >= 64 {
        Seq::empty()
    } else {
        (if mask & (1u64 << i) != 0 {
            chunk.subrange(i * 8, i * 8 + 8)
        } else {
            Seq::empty()
        }) + sub_entries_from(mask, chunk, i + 1)
    }
}

/// All sub-entries the mask selects, in ascending bit order.
pub open spec fn sub_entries(mask: u64, chunk: Seq<u8>) -> Seq<u8> {
    sub_entries_from(mask, chunk, 0)
}

pub proof fn lemma_sub_entries_len(mask: u64, chunk: Seq<u8>, i: int)
    requires
        chunk.len() == CHUNK_BYTES,
    ensures
        sub_entries_from(mask, chunk, i).len() == 8 * mask_bits_from(mask, i),
    decreases 64 - i,
{
    if 0 <= i < 64 {
        lemma_sub_entries_len(mask, chunk, i + 1);
    }
}

/// One index mutation as a record carries it.
pub struct IndexEntrySpec {
    pub table: u16,
    pub slot: u64,
    pub mask: u64,
    pub chunk: Seq<u8>,
}

/// One value mutation as a record carries it.
pub struct ValueEntrySpec {
    pub table: u16,
    pub slot: u64,
    pub value: Seq<u8>,
}

/// The whole content of one record, in serialization order.
pub struct ChangeSpec {
    pub record_id: u64,
    pub index: Seq<IndexEntrySpec>,
    pub values: Seq<ValueEntrySpec>,
    pub dropped: Seq<u16>,
}

pub open spec fn index_entry_wf(e: IndexEntrySpec) -> bool {
    e.chunk.len() == CHUNK_BYTES
}

pub open spec fn change_spec_wf(c: ChangeSpec) -> bool {
    forall|i: int| 0 <= i < c.index.len() ==> index_entry_wf(#[trigger] c.index[i])
}

pub open spec fn encode_index_entry(e: IndexEntrySpec) -> Seq<u8> {
    seq![TAG_INSERT_INDEX] + spec_u16_to_le_bytes(e.table) + spec_u64_to_le_bytes(e.slot)
        + spec_u64_to_le_bytes(e.mask) + sub_entries(e.mask, e.chunk)
}

pub open spec fn encode_value_entry(e: ValueEntrySpec) -> Seq<u8> {
    seq![TAG_INSERT_VALUE] + spec_u16_to_le_bytes(e.table) + spec_u64_to_le_bytes(e.slot) + e.value
}

pub open spec fn encode_drop_entry(table: u16) -> Seq<u8> {
    seq![TAG_DROP_TABLE] + spec_u16_to_le_bytes(table)
}

/// The index entries from position `i` on, serialized in order.
pub open spec fn encode_index_from(s: Seq<IndexEntrySpec>, i: int) -> Seq<u8>
    decreases s.len() - i,
{
    if i < 0 || i >= s.len() {
        Seq::empty()
    } else {
        encode_index_entry(s[i]) + encode_index_from(s, i + 1)
    }
}

pub open spec fn encode_index_seq(s: Seq<IndexEntrySpec>) -> Seq<u8> {
    encode_index_from(s, 0)
}

/// The value entries from position `i` on, serialized in order.
pub open spec fn encode_value_from(s: Seq<ValueEntrySpec>, i: int) -> Seq<u8>
    decreases s.len() - i,
{
    if i < 0 || i >= s.len() {
        Seq::empty()
    } else {
        encode_value_entry(s[i]) + encode_value_from(s, i + 1)
    }
}

pub open spec fn encode_value_seq(s: Seq<ValueEntrySpec>) -> Seq<u8> {
    encode_value_from(s, 0)
}

/// The dropped-table entries from position `i` on, serialized in order.
pub open spec fn encode_drop_from(s: Seq<u16>, i: int) -> Seq<u8>
    decreases s.len() - i,
{
    if i < 0 || i >= s.len() {
        Seq::empty()
    } else {
        encode_drop_entry(s[i]) + encode_drop_from(s, i + 1)
    }
}

pub open spec fn encode_drop_seq(s: Seq<u16>) -> Seq<u8> {
    encode_drop_from(s, 0)
}

/// Everything the CRC32 covers: from the `BEGIN` byte through the `END`
/// type byte.
pub open spec fn record_body(c: ChangeSpec) -> Seq<u8> {
    seq![TAG_BEGIN] + spec_u64_to_le_bytes(c.record_id) + encode_index_seq(c.index)
        + encode_value_seq(c.values) + encode_drop_seq(c.dropped) + seq![TAG_END]
}

/// The full on-disk record: body followed by its CRC32, little-endian.
pub open spec fn encode_record(c: ChangeSpec) -> Seq<u8> {
    record_body(c) + spec_u32_to_le_bytes(crc32_of(record_body(c)))
}

/// A record body is its two markers, the record id, and the entries.
pub proof fn lemma_record_body_len(c: ChangeSpec)
    ensures
        record_body(c).len() == 10 + encode_index_seq(c.index).len() + encode_value_seq(
            c.values,
        ).len() + encode_drop_seq(c.dropped).len(),
        encode_record(c).len() == record_body(c).len() + 4,
{
    lemma_auto_spec_u64_to_from_le_bytes();
    lemma_auto_spec_u32_to_from_le_bytes();
}

/// Append all of `src` to `out`.
pub fn append_bytes(out: &mut Vec<u8>, src: &Vec<u8>)
    ensures
        final(out)@ == old(out)@ + src@,
{
    let n = src.len();
    let ghost base = out@;
    let mut i: usize = 0;
    while i < n
        invariant
            n == src@.len(),
            i <= n,
            out@ == base + src@.take(i as int),
        decreases n - i,
    {
        out.push(src[i]);
        proof {
            assert(base + src@.take(i as int) + seq![src@[i as int]] =~= base + src@.take(
                i + 1 as int,
            ));
        }
        i += 1;
    }
    proof {
        assert(base + src@.take(n as int) =~= base + src@);
    }
}

/// Append the sub-entries the mask selects, in ascending bit order.
pub fn push_sub_entries(out: &mut Vec<u8>, mask: u64, chunk: &Vec<u8>)
    requires
        chunk@.len() == CHUNK_BYTES,
    ensures
        final(out)@ == old(out)@ + sub_entries(mask, chunk@),
{
    let ghost base = out@;
    let ghost full = sub_entries(mask, chunk@);
    let mut b: usize = 0;
    while b < 64
        invariant
            b <= 64,
            chunk@.len() == CHUNK_BYTES,
            out@ + sub_entries_from(mask, chunk@, b as int) == base + full,
        decreases 64 - b,
    {
        if mask & (1u64 << (b as u64)) != 0 {
            let ghost before = out@;
            let start = b * 8;
            let mut j: usize = 0;
            while j < 8
                invariant
                    j <= 8,
                    start == b * 8,
                    b < 64,
                    chunk@.len() == CHUNK_BYTES,
                    out@ == before + chunk@.subrange(start as int, start + j as int),
                decreases 8 - j,
            {
                out.push(chunk[start + j]);
                proof {
                    assert(before + chunk@.subrange(start as int, start + j as int) + seq![
                        chunk@[start + j as int]
                    ] =~= before + chunk@.subrange(start as int, start + (j + 1) as int));
                }
                j += 1;
            }
            proof {
                assert((1u64 << (b as u64)) == (1u64 << (b as int))) by (bit_vector)
                    requires
                        b < 64,
                ;
                assert(out@ + sub_entries_from(mask, chunk@, b + 1 as int) =~= base + full);
            }
        } else {
            proof {
                assert((1u64 << (b as u64)) == (1u64 << (b as int))) by (bit_vector)
                    requires
                        b < 64,
                ;
                assert(sub_entries_from(mask, chunk@, b as int) =~= sub_entries_from(
                    mask,
                    chunk@,
                    b + 1 as int,
                ));
            }
        }
        b += 1;
    }
}

/// One decoded action header, as the reading cursor returns it.
pub enum SpecAction {
    Begin(u64),
    Index(u16, u64),
    Value(u16, u64),
    End(u32),
    DropTable(u16),
}

/// The outcome of parsing one action header at a position.
pub enum ParseOutcome {
    /// The action and the position just past its header.
    Parsed(SpecAction, int),
    /// The bytes end before the header is complete.
    Eof,
    /// The type byte is none of the known tags.
    BadType,
}

/// Parse one action header at `pos`.  Index and value entries carry a
/// payload after the header which this does not consume: the reader's
/// caller knows its length and pulls it separately.
pub open spec fn parse_action(bytes: Seq<u8>, pos: int) -> ParseOutcome {
    if pos < 0 || pos >= bytes.len() {
        ParseOutcome::Eof
    } else if bytes[pos] == TAG_BEGIN {
        if pos + 9 <= bytes.len() {
            ParseOutcome::Parsed(
                SpecAction::Begin(spec_u64_from_le_bytes(bytes.subrange(pos + 1, pos + 9))),
                pos + 9,
            )
        } else {
            ParseOutcome::Eof
        }
    } else if bytes[pos] == TAG_INSERT_INDEX {
        if pos + 11 <= bytes.len() {
            ParseOutcome::Parsed(
                SpecAction::Index(
                    spec_u16_from_le_bytes(bytes.subrange(pos + 1, pos + 3)),
                    spec_u64_from_le_bytes(bytes.subrange(pos + 3, pos + 11)),
                ),
                pos + 11,
            )
        } else {
            ParseOutcome::Eof
        }
    } else if bytes[pos] == TAG_INSERT_VALUE {
        if pos + 11 <= bytes.len() {
            ParseOutcome::Parsed(
                SpecAction::Value(
                    spec_u16_from_le_bytes(bytes.subrange(pos + 1, pos + 3)),
                    spec_u64_from_le_bytes(bytes.subrange(pos + 3, pos + 11)),
                ),
                pos + 11,
            )
        } else {
            ParseOutcome::Eof
        }
    } else if bytes[pos] == TAG_END {
        if pos + 5 <= bytes.len() {
            ParseOutcome::Parsed(
                SpecAction::End(spec_u32_from_le_bytes(bytes.subrange(pos + 1, pos + 5))),
                pos + 5,
            )
        } else {
            ParseOutcome::Eof
        }
    } else if bytes[pos] == TAG_DROP_TABLE {
        if pos + 3 <= bytes.len() {
            ParseOutcome::Parsed(
                SpecAction::DropTable(spec_u16_from_le_bytes(bytes.subrange(pos + 1, pos + 3))),
                pos + 3,
            )
        } else {
            ParseOutcome::Eof
        }
    } else {
        ParseOutcome::BadType
    }
}

/// One fully read entry: header plus the payload the reader's caller
/// pulls after it.
pub enum SpecEntry {
    /// table, slot, mask, and the sub-entries the mask selects.
    EIndex(u16, u64, u64, Seq<u8>),
    /// table, slot, payload.
    EValue(u16, u64, Seq<u8>),
    EDrop(u16),
}

/// Parse an index entry's payload: the mask, then 8 bytes per set bit.
pub open spec fn parse_index_payload(bytes: Seq<u8>, pos: int) -> Option<(u64, Seq<u8>, int)> {
    if 0 <= pos && pos + 8 <= bytes.len() {
        let mask = spec_u64_from_le_bytes(bytes.subrange(pos, pos + 8));
        let cnt = mask_bits_from(mask, 0);
        if pos + 8 + 8 * cnt <= bytes.len() {
            Some((mask, bytes.subrange(pos + 8, pos + 8 + 8 * cnt), pos + 8 + 8 * cnt))
        } else {
            None
        }
    } else {
        None
    }
}

/// Parse entries up to the end marker, pulling each value payload with
/// the length its consumer knows (`vlens[vi]` onward).  Returns the
/// entries, the position of the end marker's tag byte, and the stored
/// checksum.
pub open spec fn parse_entries(
    bytes: Seq<u8>,
    pos: int,
    vlens: Seq<int>,
    vi: int,
    fuel: nat,
) -> Option<(Seq<SpecEntry>, int, u32)>
    decreases fuel,
{
    if fuel == 0 {
        None
    } else {
        match parse_action(bytes, pos) {
            ParseOutcome::Parsed(a, p2) => match a {
                SpecAction::End(crc) => Some((Seq::empty(), pos, crc)),
                SpecAction::Index(t, s) => match parse_index_payload(bytes, p2) {
                    Some((mask, subs, p3)) => match parse_entries(
                        bytes,
                        p3,
                        vlens,
                        vi,
                        (fuel - 1) as nat,
                    ) {
                        Some((rest, endpos, crc)) => Some(
                            (seq![SpecEntry::EIndex(t, s, mask, subs)] + rest, endpos, crc),
                        ),
                        None => None,
                    },
                    None => None,
                },
                SpecAction::Value(t, s) => if 0 <= vi < vlens.len() && vlens[vi] >= 0 && p2
                    + vlens[vi] <= bytes.len() {
                    match parse_entries(bytes, p2 + vlens[vi], vlens, vi + 1, (fuel - 1) as nat) {
                        Some((rest, endpos, crc)) => Some(
                            (
                                seq![
                                    SpecEntry::EValue(t, s, bytes.subrange(p2, p2 + vlens[vi]))
                                ] + rest,
                                endpos,
                                crc,
                            ),
                        ),
                        None => None,
                    }
                } else {
                    None
                },
                SpecAction::DropTable(t) => match parse_entries(
                    bytes,
                    p2,
                    vlens,
                    vi,
                    (fuel - 1) as nat,
                ) {
                    Some((rest, endpos, crc)) => Some(
                        (seq![SpecEntry::EDrop(t)] + rest, endpos, crc),
                    ),
                    None => None,
                },
                SpecAction::Begin(_) => None,
            },
            _ => None,
        }
    }
}

/// Parse a whole record: the begin marker with the record id, the
/// entries, and the end marker with the stored checksum.  Returns the
/// record id, the entries, the stored checksum and the position of the
/// end marker's tag byte.
pub open spec fn parse_record(bytes: Seq<u8>, vlens: Seq<int>) -> Option<
    (u64, Seq<SpecEntry>, u32, int),
> {
    match parse_action(bytes, 0) {
        ParseOutcome::Parsed(a, p1) => match a {
            SpecAction::Begin(rid) => match parse_entries(bytes, p1, vlens, 0, bytes.len()) {
                Some((es, endpos, crc)) => Some((rid, es, crc, endpos)),
                None => None,
            },
            _ => None,
        },
        _ => None,
    }
}

/// What reading back the given entries must yield, entry by entry.
pub open spec fn expected_parts(
    idx: Seq<IndexEntrySpec>,
    vals: Seq<ValueEntrySpec>,
    drops: Seq<u16>,
) -> Seq<SpecEntry> {
    idx.map_values(
        |e: IndexEntrySpec| SpecEntry::EIndex(e.table, e.slot, e.mask, sub_entries(e.mask, e.chunk)),
    ) + vals.map_values(|e: ValueEntrySpec| SpecEntry::EValue(e.table, e.slot, e.value))
        + drops.map_values(|t: u16| SpecEntry::EDrop(t))
}

/// What reading back a change's record must yield, entry by entry.
pub open spec fn expected_entries(c: ChangeSpec) -> Seq<SpecEntry> {
    expected_parts(c.index, c.values, c.dropped)
}

/// The payload lengths the record's consumer knows, in entry order.
pub open spec fn value_lens(c: ChangeSpec) -> Seq<int> {
    c.values.map_values(|e: ValueEntrySpec| e.value.len() as int)
}

/// `encode_index_from` depends only on the remaining entries.
proof fn lemma_encode_index_align(s: Seq<IndexEntrySpec>, t: Seq<IndexEntrySpec>, i: int, j: int)
    requires
        0 <= i <= s.len(),
        0 <= j <= t.len(),
        s.skip(i) == t.skip(j),
    ensures
        encode_index_from(s, i) == encode_index_from(t, j),
    decreases s.len() - i,
{
    if i < s.len() {
        assert(s.skip(i).len() == s.len() - i);
        assert(t.skip(j).len() == t.len() - j);
        assert(j < t.len());
        assert(s.skip(i)[0] == s[i]);
        assert(t.skip(j)[0] == t[j]);
        assert(s[i] == t[j]);
        assert(s.skip(i + 1) =~= t.skip(j + 1)) by {
            assert(s.skip(i + 1) =~= s.skip(i).skip(1));
            assert(t.skip(j + 1) =~= t.skip(j).skip(1));
        }
        lemma_encode_index_align(s, t, i + 1, j + 1);
    } else {
        assert(t.skip(j).len() == 0);
    }
}

proof fn lemma_encode_value_align(s: Seq<ValueEntrySpec>, t: Seq<ValueEntrySpec>, i: int, j: int)
    requires
        0 <= i <= s.len(),
        0 <= j <= t.len(),
        s.skip(i) == t.skip(j),
    ensures
        encode_value_from(s, i) == encode_value_from(t, j),
    decreases s.len() - i,
{
    if i < s.len() {
        assert(s.skip(i).len() == s.len() - i);
        assert(t.skip(j).len() == t.len() - j);
        assert(j < t.len());
        assert(s.skip(i)[0] == s[i]);
        assert(t.skip(j)[0] == t[j]);
        assert(s[i] == t[j]);
        assert(s.skip(i + 1) =~= t.skip(j + 1)) by {
            assert(s.skip(i + 1) =~= s.skip(i).skip(1));
            assert(t.skip(j + 1) =~= t.skip(j).skip(1));
        }
        lemma_encode_value_align(s, t, i + 1, j + 1);
    } else {
        assert(t.skip(j).len() == 0);
    }
}

proof fn lemma_encode_drop_align(s: Seq<u16>, t: Seq<u16>, i: int, j: int)
    requires
        0 <= i <= s.len(),
        0 <= j <= t.len(),
        s.skip(i) == t.skip(j),
    ensures
        encode_drop_from(s, i) == encode_drop_from(t, j),
    decreases s.len() - i,
{
    if i < s.len() {
        assert(s.skip(i).len() == s.len() - i);
        assert(t.skip(j).len() == t.len() - j);
        assert(j < t.len());
        assert(s.skip(i)[0] == s[i]);
        assert(t.skip(j)[0] == t[j]);
        assert(s[i] == t[j]);
        assert(s.skip(i + 1) =~= t.skip(j + 1)) by {
            assert(s.skip(i + 1) =~= s.skip(i).skip(1));
            assert(t.skip(j + 1) =~= t.skip(j).skip(1));
        }
        lemma_encode_drop_align(s, t, i + 1, j + 1);
    } else {
        assert(t.skip(j).len() == 0);
    }
}

/// Splitting an encoded entry sequence at its first entry.
proof fn lemma_encode_index_head(s: Seq<IndexEntrySpec>)
    requires
        s.len() > 0,
    ensures
        encode_index_seq(s) == encode_index_entry(s[0]) + encode_index_seq(s.drop_first()),
{
    assert(s.skip(1) =~= s.drop_first().skip(0));
    lemma_encode_index_align(s, s.drop_first(), 1, 0);
}

proof fn lemma_encode_value_head(s: Seq<ValueEntrySpec>)
    requires
        s.len() > 0,
    ensures
        encode_value_seq(s) == encode_value_entry(s[0]) + encode_value_seq(s.drop_first()),
{
    assert(s.skip(1) =~= s.drop_first().skip(0));
    lemma_encode_value_align(s, s.drop_first(), 1, 0);
}

proof fn lemma_encode_drop_head(s: Seq<u16>)
    requires
        s.len() > 0,
    ensures
        encode_drop_seq(s) == encode_drop_entry(s[0]) + encode_drop_seq(s.drop_first()),
{
    assert(s.skip(1) =~= s.drop_first().skip(0));
    lemma_encode_drop_align(s, s.drop_first(), 1, 0);
}

/// Each encoded section is at least one byte per entry long.
proof fn lemma_encode_index_min_len(s: Seq<IndexEntrySpec>, i: int)
    requires
        0 <= i,
    ensures
        encode_index_from(s, i).len() >= s.len() - i,
    decreases s.len() - i,
{
    if 0 <= i < s.len() {
        lemma_encode_index_min_len(s, i + 1);
    }
}

proof fn lemma_encode_value_min_len(s: Seq<ValueEntrySpec>, i: int)
    requires
        0 <= i,
    ensures
        encode_value_from(s, i).len() >= s.len() - i,
    decreases s.len() - i,
{
    if 0 <= i < s.len() {
        lemma_encode_value_min_len(s, i + 1);
    }
}

proof fn lemma_encode_drop_min_len(s: Seq<u16>, i: int)
    requires
        0 <= i,
    ensures
        encode_drop_from(s, i).len() >= s.len() - i,
    decreases s.len() - i,
{
    if 0 <= i < s.len() {
        lemma_encode_drop_min_len(s, i + 1);
    }
}

/// A window of `bytes` at `pos + a .. pos + b` equals the same window of
/// the suffix starting at `pos`.
proof fn lemma_subrange_at(bytes: Seq<u8>, pos: int, a: int, b: int, t: Seq<u8>)
    requires
        0 <= pos <= bytes.len(),
        t == bytes.subrange(pos, bytes.len() as int),
        0 <= a <= b <= t.len(),
    ensures
        bytes.subrange(pos + a, pos + b) == t.subrange(a, b),
{
    assert(bytes.subrange(pos + a, pos + b) =~= t.subrange(a, b));
}

/// Parsing an encoded entry section yields exactly the entries that were
/// encoded, leaving the cursor at the end marker's tag byte.
#[verifier::rlimit(60)]
#[verifier::spinoff_prover]
proof fn lemma_parse_entries_round(
    bytes: Seq<u8>,
    pos: int,
    idx: Seq<IndexEntrySpec>,
    vals: Seq<ValueEntrySpec>,
    drops: Seq<u16>,
    crc: u32,
    vlens: Seq<int>,
    vi: int,
    fuel: nat,
)
    requires
        forall|i: int| 0 <= i < idx.len() ==> index_entry_wf(#[trigger] idx[i]),
        0 <= pos <= bytes.len(),
        bytes.subrange(pos, bytes.len() as int) == encode_index_seq(idx) + encode_value_seq(vals)
            + encode_drop_seq(drops) + seq![TAG_END] + spec_u32_to_le_bytes(crc),
        0 <= vi,
        vi + vals.len() <= vlens.len(),
        forall|j: int| 0 <= j < vals.len() ==> vlens[vi + j] == (#[trigger] vals[j]).value.len(),
        fuel >= idx.len() + vals.len() + drops.len() + 1,
    ensures
        parse_entries(bytes, pos, vlens, vi, fuel) == Some(
            (expected_parts(idx, vals, drops), bytes.len() - 5, crc),
        ),
    decreases idx.len() + vals.len() + drops.len(),
{
    lemma_auto_spec_u16_to_from_le_bytes();
    lemma_auto_spec_u32_to_from_le_bytes();
    lemma_auto_spec_u64_to_from_le_bytes();
    let t = bytes.subrange(pos, bytes.len() as int);
    assert(forall|m: int| 0 <= m < t.len() ==> #[trigger] t[m] == bytes[pos + m]);
    if idx.len() > 0 {
        let e = idx[0];
        lemma_encode_index_head(idx);
        let ee = encode_index_entry(e);
        let subs = sub_entries(e.mask, e.chunk);
        lemma_sub_entries_len(e.mask, e.chunk, 0);
        let cnt = mask_bits_from(e.mask, 0);
        assert(ee.len() == 19 + 8 * cnt);
        let rest = encode_index_seq(idx.drop_first()) + encode_value_seq(vals) + encode_drop_seq(
            drops,
        ) + seq![TAG_END] + spec_u32_to_le_bytes(crc);
        assert(t =~= ee + rest);
        assert(spec_u16_to_le_bytes(e.table).len() == 2);
        assert(spec_u64_to_le_bytes(e.slot).len() == 8);
        assert(spec_u64_to_le_bytes(e.mask).len() == 8);
        assert(ee == seq![TAG_INSERT_INDEX] + spec_u16_to_le_bytes(e.table) + spec_u64_to_le_bytes(
            e.slot,
        ) + spec_u64_to_le_bytes(e.mask) + subs);
        assert(forall|m: int| 0 <= m < ee.len() ==> #[trigger] t[m] == ee[m]);
        assert(t[0] == TAG_INSERT_INDEX);
        assert(bytes[pos] == TAG_INSERT_INDEX);
        assert(pos + 11 <= bytes.len());
        lemma_subrange_at(bytes, pos, 1, 3, t);
        assert(t.subrange(1, 3) =~= spec_u16_to_le_bytes(e.table));
        lemma_subrange_at(bytes, pos, 3, 11, t);
        assert(t.subrange(3, 11) =~= spec_u64_to_le_bytes(e.slot));
        assert(parse_action(bytes, pos) == ParseOutcome::Parsed(
            SpecAction::Index(e.table, e.slot),
            pos + 11,
        ));
        assert(pos + 19 <= bytes.len());
        lemma_subrange_at(bytes, pos, 11, 19, t);
        assert(t.subrange(11, 19) =~= spec_u64_to_le_bytes(e.mask));
        assert(pos + 19 + 8 * cnt <= bytes.len());
        lemma_subrange_at(bytes, pos, 19, 19 + 8 * (cnt as int), t);
        assert(t.subrange(19, 19 + 8 * (cnt as int)) =~= subs);
        assert(parse_index_payload(bytes, pos + 11) == Some(
            (e.mask, subs, pos + 19 + 8 * cnt),
        ));
        let p3 = pos + 19 + 8 * cnt;
        lemma_subrange_at(bytes, pos, ee.len() as int, t.len() as int, t);
        assert(t.subrange(ee.len() as int, t.len() as int) =~= rest);
        assert(bytes.subrange(p3, bytes.len() as int) =~= rest);
        assert(forall|j: int|
            0 <= j < idx.drop_first().len() ==> index_entry_wf(#[trigger] idx.drop_first()[j]));
        lemma_parse_entries_round(
            bytes,
            p3,
            idx.drop_first(),
            vals,
            drops,
            crc,
            vlens,
            vi,
            (fuel - 1) as nat,
        );
        assert(seq![SpecEntry::EIndex(e.table, e.slot, e.mask, subs)] + expected_parts(
            idx.drop_first(),
            vals,
            drops,
        ) =~= expected_parts(idx, vals, drops));
    } else if vals.len() > 0 {
        let e = vals[0];
        lemma_encode_value_head(vals);
        let ee = encode_value_entry(e);
        assert(ee.len() == 11 + e.value.len());
        let rest = encode_value_seq(vals.drop_first()) + encode_drop_seq(drops) + seq![TAG_END]
            + spec_u32_to_le_bytes(crc);
        assert(encode_index_seq(idx) =~= Seq::<u8>::empty());
        assert(t =~= ee + rest);
        assert(spec_u16_to_le_bytes(e.table).len() == 2);
        assert(spec_u64_to_le_bytes(e.slot).len() == 8);
        assert(ee == seq![TAG_INSERT_VALUE] + spec_u16_to_le_bytes(e.table) + spec_u64_to_le_bytes(
            e.slot,
        ) + e.value);
        assert(forall|m: int| 0 <= m < ee.len() ==> #[trigger] t[m] == ee[m]);
        assert(t[0] == TAG_INSERT_VALUE);
        assert(bytes[pos] == TAG_INSERT_VALUE);
        assert(pos + 11 <= bytes.len());
        lemma_subrange_at(bytes, pos, 1, 3, t);
        assert(t.subrange(1, 3) =~= spec_u16_to_le_bytes(e.table));
        lemma_subrange_at(bytes, pos, 3, 11, t);
        assert(t.subrange(3, 11) =~= spec_u64_to_le_bytes(e.slot));
        assert(parse_action(bytes, pos) == ParseOutcome::Parsed(
            SpecAction::Value(e.table, e.slot),
            pos + 11,
        ));
        assert(vlens[vi] == e.value.len());
        let vl = e.value.len() as int;
        assert(pos + 11 + vl <= bytes.len());
        lemma_subrange_at(bytes, pos, 11, 11 + vl, t);
        assert(t.subrange(11, 11 + vl) =~= e.value);
        let p3 = pos + 11 + vl;
        lemma_subrange_at(bytes, pos, ee.len() as int, t.len() as int, t);
        assert(t.subrange(ee.len() as int, t.len() as int) =~= rest);
        assert(bytes.subrange(p3, bytes.len() as int) =~= rest);
        assert(forall|j: int|
            0 <= j < vals.drop_first().len() ==> vlens[vi + 1 + j] == (
            #[trigger] vals.drop_first()[j]).value.len());
        lemma_parse_entries_round(
            bytes,
            p3,
            idx,
            vals.drop_first(),
            drops,
            crc,
            vlens,
            vi + 1,
            (fuel - 1) as nat,
        );
        assert(seq![SpecEntry::EValue(e.table, e.slot, e.value)] + expected_parts(
            idx,
            vals.drop_first(),
            drops,
        ) =~= expected_parts(idx, vals, drops));
    } else if drops.len() > 0 {
        let d = drops[0];
        lemma_encode_drop_head(drops);
        let ee = encode_drop_entry(d);
        assert(ee.len() == 3);
        let rest = encode_drop_seq(drops.drop_first()) + seq![TAG_END] + spec_u32_to_le_bytes(crc);
        assert(encode_index_seq(idx) =~= Seq::<u8>::empty());
        assert(encode_value_seq(vals) =~= Seq::<u8>::empty());
        assert(t =~= ee + rest);
        assert(spec_u16_to_le_bytes(d).len() == 2);
        assert(ee == seq![TAG_DROP_TABLE] + spec_u16_to_le_bytes(d));
        assert(forall|m: int| 0 <= m < ee.len() ==> #[trigger] t[m] == ee[m]);
        assert(t[0] == TAG_DROP_TABLE);
        assert(bytes[pos] == TAG_DROP_TABLE);
        assert(pos + 3 <= bytes.len());
        lemma_subrange_at(bytes, pos, 1, 3, t);
        assert(t.subrange(1, 3) =~= spec_u16_to_le_bytes(d));
        assert(parse_action(bytes, pos) == ParseOutcome::Parsed(
            SpecAction::DropTable(d),
            pos + 3,
        ));
        let p3 = pos + 3;
        lemma_subrange_at(bytes, pos, ee.len() as int, t.len() as int, t);
        assert(t.subrange(ee.len() as int, t.len() as int) =~= rest);
        assert(bytes.subrange(p3, bytes.len() as int) =~= rest);
        lemma_parse_entries_round(
            bytes,
            p3,
            idx,
            vals,
            drops.drop_first(),
            crc,
            vlens,
            vi,
            (fuel - 1) as nat,
        );
        assert(seq![SpecEntry::EDrop(d)] + expected_parts(idx, vals, drops.drop_first())
            =~= expected_parts(idx, vals, drops));
    } else {
        assert(encode_index_seq(idx) =~= Seq::<u8>::empty());
        assert(encode_value_seq(vals) =~= Seq::<u8>::empty());
        assert(encode_drop_seq(drops) =~= Seq::<u8>::empty());
        assert(t =~= seq![TAG_END] + spec_u32_to_le_bytes(crc));
        assert(t.len() == 5);
        assert(t[0] == TAG_END);
        assert(bytes[pos] == TAG_END);
        assert(pos + 5 <= bytes.len());
        lemma_subrange_at(bytes, pos, 1, 5, t);
        assert(t.subrange(1, 5) =~= spec_u32_to_le_bytes(crc));
        assert(parse_action(bytes, pos) == ParseOutcome::Parsed(SpecAction::End(crc), pos + 5));
        assert(pos == bytes.len() - 5);
        assert(expected_parts(idx, vals, drops) =~= Seq::<SpecEntry>::empty());
    }
}

/// CRC round trip: decoding an encoded record with the payload lengths
/// its consumer knows yields exactly the record id and entries that were
/// written, and the stored checksum is the checksum of every byte before
/// it -- so a validating reader accepts the record, and any record whose
/// stored checksum does not match the bytes read is rejected (see the
/// reading cursor's contract).
pub proof fn lemma_record_round_trip(c: ChangeSpec)
    requires
        change_spec_wf(c),
    ensures
        ({
            let bytes = encode_record(c);
            let body = record_body(c);
            &&& bytes.len() == body.len() + 4
            &&& bytes.subrange(0, body.len() as int) == body
            &&& parse_record(bytes, value_lens(c)) == Some(
                (c.record_id, expected_entries(c), crc32_of(body), body.len() - 1),
            )
            &&& spec_u32_from_le_bytes(bytes.subrange(body.len() as int, bytes.len() as int))
                == crc32_of(bytes.subrange(0, body.len() as int))
        }),
{
    lemma_auto_spec_u32_to_from_le_bytes();
    lemma_auto_spec_u64_to_from_le_bytes();
    let bytes = encode_record(c);
    let body = record_body(c);
    let crc = crc32_of(body);
    assert(bytes.len() == body.len() + 4);
    assert(bytes.subrange(0, body.len() as int) =~= body);
    assert(bytes.subrange(body.len() as int, bytes.len() as int) =~= spec_u32_to_le_bytes(crc));
    // the begin marker
    assert(bytes[0] == TAG_BEGIN);
    assert(bytes.subrange(1, 9) =~= spec_u64_to_le_bytes(c.record_id));
    assert(9 <= bytes.len());
    assert(parse_action(bytes, 0) == ParseOutcome::Parsed(
        SpecAction::Begin(c.record_id),
        9int,
    ));
    // the entries
    assert(bytes.subrange(9, bytes.len() as int) =~= encode_index_seq(c.index) + encode_value_seq(
        c.values,
    ) + encode_drop_seq(c.dropped) + seq![TAG_END] + spec_u32_to_le_bytes(crc));
    lemma_encode_index_min_len(c.index, 0);
    lemma_encode_value_min_len(c.values, 0);
    lemma_encode_drop_min_len(c.dropped, 0);
    assert(bytes.len() >= c.index.len() + c.values.len() + c.dropped.len() + 1);
    assert(forall|j: int|
        0 <= j < c.values.len() ==> value_lens(c)[0 + j] == (#[trigger] c.values[j]).value.len());
    lemma_parse_entries_round(
        bytes,
        9,
        c.index,
        c.values,
        c.dropped,
        crc,
        value_lens(c),
        0,
        bytes.len(),
    );
    assert(bytes.len() - 5 == body.len() - 1);
}

} // verus!
