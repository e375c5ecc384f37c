//! The index of a pack.

use vstd::prelude::*;

use crate::bytes::{
    be32, be64, lemma_be32_read_back, lemma_be64_read_back, push_be64, push_bytes, read_be32,
    read_be64, to_be32,
};
use crate::lex::{lemma_lex_asymmetric, lemma_lex_transitive, lex_before, stands_before};
use crate::object::{sha1_of, Checksum};
use crate::sort::{
    is_sorted, lemma_stable_sort_map, lemma_stable_sort_permutes, lemma_stable_sorted, sort,
    stable_sorted, Rank, Ranked,
};

verus! {

/// One entry in the pack index.
#[derive(Debug, Clone, Copy)]
pub struct IdxEntry {
    /// Object id of the packed object.
    pub sha: [u8; 20],
    /// CRC-32 of the raw pack entry bytes.
    pub crc32: u32,
    /// Byte offset of the entry within the pack file.
    pub offset: u64,
}

/// What an [`IdxEntry`] stands for.
pub struct IndexEntry {
    pub id: Seq<u8>,
    pub crc: u32,
    pub offset: nat,
}

impl View for IdxEntry {
    type V = IndexEntry;

    open spec fn view(&self) -> IndexEntry {
        IndexEntry { id: self.sha@, crc: self.crc32, offset: self.offset as nat }
    }
}

/// The views of a sequence of index entries.
pub open spec fn index_views(entries: Seq<IdxEntry>) -> Seq<IndexEntry> {
    entries.map_values(|e: IdxEntry| e@)
}

impl Rank for IndexEntry {
    open spec fn precedes(self, other: Self) -> bool {
        lex_before(self.id, other.id)
    }

    proof fn lemma_asymmetric(a: Self, b: Self) {
        lemma_lex_asymmetric(a.id, b.id);
    }

    proof fn lemma_transitive(a: Self, b: Self, c: Self) {
        lemma_lex_transitive(a.id, b.id, c.id);
    }
}

impl Rank for IdxEntry {
    open spec fn precedes(self, other: Self) -> bool {
        lex_before(self.sha@, other.sha@)
    }

    proof fn lemma_asymmetric(a: Self, b: Self) {
        lemma_lex_asymmetric(a.sha@, b.sha@);
    }

    proof fn lemma_transitive(a: Self, b: Self, c: Self) {
        lemma_lex_transitive(a.sha@, b.sha@, c.sha@);
    }
}

impl Ranked for IdxEntry {
    fn comes_before(&self, other: &Self) -> (r: bool) {
        stands_before(self.sha.as_slice(), other.sha.as_slice())
    }
}

/// The number of entries whose id begins with the given byte.
pub open spec fn first_byte_count(entries: Seq<IndexEntry>, byte: int) -> nat
    decreases entries.len(),
{
    if entries.len() == 0 {
        0
    } else {
        first_byte_count(entries.drop_last(), byte) + if entries.last().id[0] == byte {
            1nat
        } else {
            0
        }
    }
}

/// The number of entries whose id begins with the given byte or a lower one.
pub open spec fn fanout_count(entries: Seq<IndexEntry>, byte: int) -> nat
    decreases entries.len(),
{
    if entries.len() == 0 {
        0
    } else {
        fanout_count(entries.drop_last(), byte) + if entries.last().id[0] <= byte {
            1nat
        } else {
            0
        }
    }
}

/// The first rows of the table that gives for each byte the number of entries up to it.
pub open spec fn fanout_rows(entries: Seq<IndexEntry>, rows: nat) -> Seq<u8>
    decreases rows,
{
    if rows == 0 {
        Seq::empty()
    } else {
        fanout_rows(entries, (rows - 1) as nat) + be32(fanout_count(entries, rows - 1))
    }
}

/// The ids of the entries.
pub open spec fn id_rows(entries: Seq<IndexEntry>) -> Seq<u8>
    decreases entries.len(),
{
    if entries.len() == 0 {
        Seq::empty()
    } else {
        id_rows(entries.drop_last()) + entries.last().id
    }
}

/// The checksums of the entries.
pub open spec fn crc_rows(entries: Seq<IndexEntry>) -> Seq<u8>
    decreases entries.len(),
{
    if entries.len() == 0 {
        Seq::empty()
    } else {
        crc_rows(entries.drop_last()) + be32(entries.last().crc as nat)
    }
}

/// The offset does not fit into 31 bits.
pub open spec fn is_large(offset: nat) -> bool {
    offset >= 0x8000_0000
}

/// The number of entries with a large offset.
pub open spec fn large_count(entries: Seq<IndexEntry>) -> nat
    decreases entries.len(),
{
    if entries.len() == 0 {
        0
    } else {
        large_count(entries.drop_last()) + if is_large(entries.last().offset) {
            1nat
        } else {
            0
        }
    }
}

/// What stands in the offset table for an entry: the offset, or for a large one its place in the
/// table of large offsets, with the highest bit set.
pub open spec fn offset_word(before: Seq<IndexEntry>, entry: IndexEntry) -> u32 {
    if is_large(entry.offset) {
        (large_count(before) as u32) | 0x8000_0000u32
    } else {
        entry.offset as u32
    }
}

/// The offset table.
pub open spec fn offset_rows(entries: Seq<IndexEntry>) -> Seq<u8>
    decreases entries.len(),
{
    if entries.len() == 0 {
        Seq::empty()
    } else {
        offset_rows(entries.drop_last()) + be32(
            offset_word(entries.drop_last(), entries.last()) as nat,
        )
    }
}

/// The table of large offsets.
pub open spec fn large_rows(entries: Seq<IndexEntry>) -> Seq<u8>
    decreases entries.len(),
{
    if entries.len() == 0 {
        Seq::empty()
    } else if is_large(entries.last().offset) {
        large_rows(entries.drop_last()) + be64(entries.last().offset)
    } else {
        large_rows(entries.drop_last())
    }
}

/// The signature and the version of an index.
pub open spec fn index_signature() -> Seq<u8> {
    seq![0xffu8, 0x74u8, 0x4fu8, 0x63u8, 0u8, 0u8, 0u8, 2u8]
}

/// The tables of an index over entries in the order of their ids.
pub open spec fn index_tables(entries: Seq<IndexEntry>) -> Seq<u8> {
    fanout_rows(entries, 256) + id_rows(entries) + crc_rows(entries) + offset_rows(entries)
        + large_rows(entries)
}

/// An index without its own checksum.
pub open spec fn index_stream(entries: Seq<IndexEntry>, pack_checksum: Seq<u8>) -> Seq<u8> {
    index_signature() + index_tables(stable_sorted(entries)) + pack_checksum
}

/// The whole index file of a pack with the given entries and checksum.
pub open spec fn index_file(entries: Seq<IndexEntry>, pack_checksum: Seq<u8>) -> Seq<u8> {
    let stream = index_stream(entries, pack_checksum);
    stream + sha1_of(stream)
}

proof fn lemma_fanout_step(entries: Seq<IndexEntry>, byte: int)
    ensures
        fanout_count(entries, byte) == fanout_count(entries, byte - 1) + first_byte_count(
            entries,
            byte,
        ),
    decreases entries.len(),
{
    if entries.len() > 0 {
        lemma_fanout_step(entries.drop_last(), byte);
    }
}

proof fn lemma_fanout_bounds(entries: Seq<IndexEntry>, byte: int)
    ensures
        fanout_count(entries, byte) <= entries.len(),
        byte < 0 ==> fanout_count(entries, byte) == 0,
        first_byte_count(entries, byte) <= entries.len(),
    decreases entries.len(),
{
    if entries.len() > 0 {
        lemma_fanout_bounds(entries.drop_last(), byte);
    }
}

proof fn lemma_large_bound(entries: Seq<IndexEntry>)
    ensures
        large_count(entries) <= entries.len(),
    decreases entries.len(),
{
    if entries.len() > 0 {
        lemma_large_bound(entries.drop_last());
    }
}

proof fn lemma_views_take(entries: Seq<IdxEntry>, i: int)
    requires
        0 <= i < entries.len(),
    ensures
        index_views(entries.take(i + 1)).drop_last() == index_views(entries.take(i)),
        index_views(entries.take(i + 1)).last() == entries[i]@,
        index_views(entries.take(i + 1)).len() == i + 1,
{
    assert(index_views(entries.take(i + 1)).drop_last() =~= index_views(entries.take(i)));
}

/// Appends the table that gives for each byte the number of entries up to it.
fn push_fanout(out: &mut Vec<u8>, entries: &Vec<IdxEntry>)
    requires
        entries@.len() <= u32::MAX,
    ensures
        final(out)@ == old(out)@ + fanout_rows(index_views(entries@), 256),
{
    let ghost views = index_views(entries@);
    let mut counts = [0u32;256];
    let mut i: usize = 0;
    assert(index_views(entries@.take(0)) =~= Seq::<IndexEntry>::empty());
    while i < entries.len()
        invariant
            i <= entries@.len() <= u32::MAX,
            counts@.len() == 256,
            forall|b: int|
                0 <= b < 256 ==> #[trigger] counts@[b] == first_byte_count(
                    index_views(entries@.take(i as int)),
                    b,
                ),
        decreases entries@.len() - i,
    {
        let b: usize = entries[i].sha[0] as usize;
        proof {
            lemma_views_take(entries@, i as int);
            lemma_fanout_bounds(index_views(entries@.take(i as int)), b as int);
        }
        counts[b] = counts[b] + 1;
        i += 1;
    }
    assert(entries@.take(i as int) =~= entries@);
    let mut total: u32 = 0;
    let mut b: usize = 0;
    proof {
        lemma_fanout_bounds(views, -1);
    }
    while b < 256
        invariant
            b <= 256,
            counts@.len() == 256,
            views.len() <= u32::MAX,
            total == fanout_count(views, b - 1),
            forall|c: int| 0 <= c < 256 ==> #[trigger] counts@[c] == first_byte_count(views, c),
            out@ == old(out)@ + fanout_rows(views, b as nat),
        decreases 256 - b,
    {
        let ghost before = out@;
        proof {
            lemma_fanout_step(views, b as int);
            lemma_fanout_bounds(views, b as int);
        }
        total = total + counts[b];
        push_bytes(out, &to_be32(total));
        b += 1;
        assert(out@ =~= old(out)@ + fanout_rows(views, b as nat));
    }
}

/// Appends the ids of the entries.
fn push_ids(out: &mut Vec<u8>, entries: &Vec<IdxEntry>)
    ensures
        final(out)@ == old(out)@ + id_rows(index_views(entries@)),
{
    let mut i: usize = 0;
    assert(index_views(entries@.take(0)) =~= Seq::<IndexEntry>::empty());
    while i < entries.len()
        invariant
            i <= entries@.len(),
            out@ == old(out)@ + id_rows(index_views(entries@.take(i as int))),
        decreases entries@.len() - i,
    {
        proof {
            lemma_views_take(entries@, i as int);
        }
        push_bytes(out, entries[i].sha.as_slice());
        i += 1;
        assert(out@ =~= old(out)@ + id_rows(index_views(entries@.take(i as int))));
    }
    assert(entries@.take(i as int) =~= entries@);
}

/// Appends the checksums of the entries.
fn push_crcs(out: &mut Vec<u8>, entries: &Vec<IdxEntry>)
    ensures
        final(out)@ == old(out)@ + crc_rows(index_views(entries@)),
{
    let mut i: usize = 0;
    assert(index_views(entries@.take(0)) =~= Seq::<IndexEntry>::empty());
    while i < entries.len()
        invariant
            i <= entries@.len(),
            out@ == old(out)@ + crc_rows(index_views(entries@.take(i as int))),
        decreases entries@.len() - i,
    {
        proof {
            lemma_views_take(entries@, i as int);
        }
        push_bytes(out, &to_be32(entries[i].crc32));
        i += 1;
        assert(out@ =~= old(out)@ + crc_rows(index_views(entries@.take(i as int))));
    }
    assert(entries@.take(i as int) =~= entries@);
}

/// Appends the offset table and the table of large offsets.
fn push_offsets(out: &mut Vec<u8>, entries: &Vec<IdxEntry>)
    requires
        entries@.len() <= u32::MAX,
    ensures
        final(out)@ == old(out)@ + offset_rows(index_views(entries@)) + large_rows(
            index_views(entries@),
        ),
{
    let mut large: Vec<u8> = Vec::new();
    let mut larges: u32 = 0;
    let mut i: usize = 0;
    assert(index_views(entries@.take(0)) =~= Seq::<IndexEntry>::empty());
    while i < entries.len()
        invariant
            i <= entries@.len() <= u32::MAX,
            larges == large_count(index_views(entries@.take(i as int))),
            large@ == large_rows(index_views(entries@.take(i as int))),
            out@ == old(out)@ + offset_rows(index_views(entries@.take(i as int))),
        decreases entries@.len() - i,
    {
        let offset: u64 = entries[i].offset;
        proof {
            lemma_views_take(entries@, i as int);
            lemma_large_bound(index_views(entries@.take(i as int)));
        }
        if offset >= 0x8000_0000 {
            push_bytes(out, &to_be32(larges | 0x8000_0000u32));
            push_be64(&mut large, offset);
            larges = larges + 1;
        } else {
            push_bytes(out, &to_be32(offset as u32));
        }
        i += 1;
        assert(out@ =~= old(out)@ + offset_rows(index_views(entries@.take(i as int))));
    }
    assert(entries@.take(i as int) =~= entries@);
    push_bytes(out, large.as_slice());
}

/// The version 2 index file of a pack with the given entries and checksum.
pub fn write_idx_v2(entries: Vec<IdxEntry>, pack_checksum: &[u8; 20]) -> (r: Vec<u8>)
    requires
        entries@.len() <= u32::MAX,
    ensures
        r@ == index_file(index_views(entries@), pack_checksum@),
{
    let ghost all = entries@;
    let entries = sort(entries);
    proof {
        let f = |e: IdxEntry| e@;
        assert forall|x: IdxEntry, y: IdxEntry| #[trigger]
            f(x).precedes(#[trigger] f(y)) == x.precedes(y) by {}
        lemma_stable_sort_map(entries@, all, f);
        lemma_stable_sort_permutes(entries@, all);
    }
    let ghost views = index_views(entries@);
    let mut out: Vec<u8> = Vec::new();
    push_bytes(&mut out, &[0xffu8, 0x74u8, 0x4fu8, 0x63u8, 0u8, 0u8, 0u8, 2u8]);
    assert(out@ =~= index_signature());
    push_fanout(&mut out, &entries);
    push_ids(&mut out, &entries);
    push_crcs(&mut out, &entries);
    push_offsets(&mut out, &entries);
    push_bytes(&mut out, pack_checksum.as_slice());
    assert(out@ =~= index_stream(index_views(all), pack_checksum@));
    let mut sum = Checksum::new();
    sum.update(out.as_slice());
    assert(sum@ =~= out@);
    let idx_checksum = sum.finish();
    push_bytes(&mut out, idx_checksum.as_slice());
    out
}

/// A row of a table whose rows all have the same width.
pub open spec fn table_row(table: Seq<u8>, row: int, width: int) -> Seq<u8> {
    table.subrange(row * width, (row + 1) * width)
}

/// The offset that the two offset tables give for a row.
pub open spec fn read_offset(offsets: Seq<u8>, larges: Seq<u8>, row: int) -> nat {
    let word = read_be32(table_row(offsets, row, 4));
    if word < 0x8000_0000 {
        word
    } else {
        read_be64(table_row(larges, word - 0x8000_0000, 8))
    }
}

proof fn lemma_id_row(entries: Seq<IndexEntry>, row: int)
    requires
        0 <= row < entries.len(),
        forall|i: int| 0 <= i < entries.len() ==> (#[trigger] entries[i]).id.len() == 20,
    ensures
        id_rows(entries).len() == 20 * entries.len(),
        table_row(id_rows(entries), row, 20) == entries[row].id,
    decreases entries.len(),
{
    let most = entries.drop_last();
    if most.len() > 0 {
        lemma_id_row(
            most,
            if row < most.len() {
                row
            } else {
                0
            },
        );
    } else {
        assert(id_rows(most).len() == 0);
    }
    assert(entries.last().id.len() == 20);
    if row < most.len() {
        assert(table_row(id_rows(entries), row, 20) =~= table_row(id_rows(most), row, 20));
    } else {
        assert(table_row(id_rows(entries), row, 20) =~= entries.last().id);
    }
}

proof fn lemma_crc_row(entries: Seq<IndexEntry>, row: int)
    requires
        0 <= row < entries.len(),
    ensures
        crc_rows(entries).len() == 4 * entries.len(),
        table_row(crc_rows(entries), row, 4) == be32(entries[row].crc as nat),
    decreases entries.len(),
{
    let most = entries.drop_last();
    if most.len() > 0 {
        lemma_crc_row(
            most,
            if row < most.len() {
                row
            } else {
                0
            },
        );
    } else {
        assert(crc_rows(most).len() == 0);
    }
    if row < most.len() {
        assert(table_row(crc_rows(entries), row, 4) =~= table_row(crc_rows(most), row, 4));
    } else {
        assert(table_row(crc_rows(entries), row, 4) =~= be32(entries.last().crc as nat));
    }
}

proof fn lemma_offset_row(entries: Seq<IndexEntry>, row: int)
    requires
        0 <= row < entries.len(),
    ensures
        offset_rows(entries).len() == 4 * entries.len(),
        table_row(offset_rows(entries), row, 4) == be32(
            offset_word(entries.take(row), entries[row]) as nat,
        ),
    decreases entries.len(),
{
    let most = entries.drop_last();
    if most.len() > 0 {
        lemma_offset_row(
            most,
            if row < most.len() {
                row
            } else {
                0
            },
        );
    } else {
        assert(offset_rows(most).len() == 0);
    }
    if row < most.len() {
        assert(table_row(offset_rows(entries), row, 4) =~= table_row(offset_rows(most), row, 4));
        assert(most.take(row) =~= entries.take(row));
    } else {
        assert(entries.take(row) =~= most);
        assert(table_row(offset_rows(entries), row, 4) =~= be32(
            offset_word(most, entries.last()) as nat,
        ));
    }
}

proof fn lemma_large_row(entries: Seq<IndexEntry>, row: int)
    requires
        0 <= row < entries.len(),
    ensures
        large_rows(entries).len() == 8 * large_count(entries),
        large_count(entries.take(row)) <= large_count(entries),
        is_large(entries[row].offset) ==> large_count(entries.take(row)) < large_count(entries)
            && table_row(large_rows(entries), large_count(entries.take(row)) as int, 8) == be64(
            entries[row].offset,
        ),
    decreases entries.len(),
{
    let most = entries.drop_last();
    if most.len() > 0 {
        lemma_large_row(
            most,
            if row < most.len() {
                row
            } else {
                0
            },
        );
    } else {
        assert(large_rows(most).len() == 0);
    }
    let at = large_count(entries.take(row)) as int;
    if row < most.len() {
        assert(most.take(row) =~= entries.take(row));
        if is_large(entries[row].offset) {
            assert(table_row(large_rows(entries), at, 8) =~= table_row(large_rows(most), at, 8));
        }
    } else {
        assert(entries.take(row) =~= most);
        if is_large(entries[row].offset) {
            assert(table_row(large_rows(entries), at, 8) =~= be64(entries.last().offset));
        }
    }
}

/// The id, the checksum and the offset of each entry can be read back from the tables of an index.
pub proof fn lemma_index_read_back(entries: Seq<IndexEntry>, row: int)
    requires
        0 <= row < entries.len() <= 0x8000_0000,
        forall|i: int| 0 <= i < entries.len() ==> (#[trigger] entries[i]).id.len() == 20,
        entries[row].offset <= u64::MAX,
    ensures
        table_row(id_rows(entries), row, 20) == entries[row].id,
        read_be32(table_row(crc_rows(entries), row, 4)) == entries[row].crc,
        read_offset(offset_rows(entries), large_rows(entries), row) == entries[row].offset,
{
    lemma_id_row(entries, row);
    lemma_crc_row(entries, row);
    lemma_offset_row(entries, row);
    lemma_large_row(entries, row);
    lemma_be32_read_back(entries[row].crc as nat);
    let before = entries.take(row);
    let offset = entries[row].offset;
    lemma_large_bound(before);
    lemma_be32_read_back(offset_word(before, entries[row]) as nat);
    if is_large(offset) {
        let n = large_count(before) as u32;
        assert(n | 0x8000_0000u32 == n + 0x8000_0000u32) by (bit_vector)
            requires
                n < 0x8000_0000u32,
        ;
        lemma_be64_read_back(offset);
    }
}

/// In the rows of an index, which are in the order of their ids, those whose id begins with a byte
/// or a lower one come first, and the fan-out table gives their number.
pub proof fn lemma_fanout_rows(entries: Seq<IndexEntry>, byte: int, row: int)
    requires
        is_sorted(entries),
        forall|i: int| 0 <= i < entries.len() ==> (#[trigger] entries[i]).id.len() > 0,
        0 <= row < entries.len(),
    ensures
        entries[row].id[0] <= byte <==> row < fanout_count(entries, byte),
    decreases entries.len(),
{
    let most = entries.drop_last();
    let last = entries.last();
    lemma_fanout_bounds(most, byte);
    assert forall|i: int, j: int| 0 <= i < j < most.len() implies !(#[trigger] most[j]).precedes(
        #[trigger] most[i],
    ) by {
        assert(!entries[j].precedes(entries[i]));
    }
    assert forall|i: int| 0 <= i < most.len() implies most[i].id[0] <= last.id[0] by {
        assert(!entries[entries.len() - 1].precedes(entries[i]));
        assert(!lex_before(last.id, most[i].id));
        assert(entries[i].id.len() > 0);
    }
    if last.id[0] <= byte && most.len() > 0 {
        lemma_fanout_rows(most, byte, most.len() - 1);
        assert(most[most.len() - 1].id[0] <= last.id[0]);
    }
    if row < most.len() {
        lemma_fanout_rows(most, byte, row);
        assert(most[row].id[0] <= last.id[0]);
    }
}

/// The rows of the index of a pack hold each entry once, by ascending id.
pub proof fn lemma_index_rows(entries: Seq<IndexEntry>)
    ensures
        is_sorted(stable_sorted(entries)),
        stable_sorted(entries).to_multiset() == entries.to_multiset(),
        stable_sorted(entries).len() == entries.len(),
{
    lemma_stable_sorted(entries);
    lemma_stable_sort_permutes(stable_sorted(entries), entries);
}

proof fn lemma_fanout_row(entries: Seq<IndexEntry>, rows: nat, byte: int)
    requires
        0 <= byte < rows,
    ensures
        fanout_rows(entries, rows).len() == 4 * rows,
        table_row(fanout_rows(entries, rows), byte, 4) == be32(fanout_count(entries, byte)),
    decreases rows,
{
    let most = fanout_rows(entries, (rows - 1) as nat);
    if rows > 1 {
        lemma_fanout_row(
            entries,
            (rows - 1) as nat,
            if byte < rows - 1 {
                byte
            } else {
                0
            },
        );
    } else {
        assert(fanout_rows(entries, 0).len() == 0);
    }
    if byte < rows - 1 {
        assert(table_row(fanout_rows(entries, rows), byte, 4) =~= table_row(most, byte, 4));
    } else {
        assert(table_row(fanout_rows(entries, rows), byte, 4) =~= be32(
            fanout_count(entries, byte),
        ));
    }
}

/// Each row of the fan-out table gives the number of entries whose id begins with its byte or a
/// lower one.
pub proof fn lemma_fanout_read_back(entries: Seq<IndexEntry>, byte: int)
    requires
        0 <= byte < 256,
        entries.len() <= u32::MAX,
    ensures
        fanout_rows(entries, 256).len() == 1024,
        read_be32(table_row(fanout_rows(entries, 256), byte, 4)) == entries.filter(
            |e: IndexEntry| e.id[0] <= byte,
        ).len(),
{
    lemma_fanout_row(entries, 256, byte);
    lemma_fanout_bounds(entries, byte);
    lemma_be32_read_back(fanout_count(entries, byte));
    lemma_fanout_filter(entries, byte);
}

proof fn lemma_fanout_filter(entries: Seq<IndexEntry>, byte: int)
    ensures
        fanout_count(entries, byte) == entries.filter(|e: IndexEntry| e.id[0] <= byte).len(),
    decreases entries.len(),
{
    reveal(Seq::filter);
    if entries.len() > 0 {
        lemma_fanout_filter(entries.drop_last(), byte);
    }
}

/// An index begins with its signature and the version 2. Then come the fan-out table, the ids, the
/// checksums and the offsets of the entries by ascending id, the offsets that are too large for
/// their table, the checksum of the pack, and last the checksum of all that.
pub proof fn lemma_index_layout(entries: Seq<IndexEntry>, pack_checksum: Seq<u8>)
    ensures
        ({
            let rows = stable_sorted(entries);
            let stream = seq![0xffu8, 0x74u8, 0x4fu8, 0x63u8, 0u8, 0u8, 0u8, 2u8] + fanout_rows(
                rows,
                256,
            ) + id_rows(rows) + crc_rows(rows) + offset_rows(rows) + large_rows(rows)
                + pack_checksum;
            index_file(entries, pack_checksum) == stream + sha1_of(stream)
        }),
{
    let rows = stable_sorted(entries);
    assert(index_stream(entries, pack_checksum) =~= seq![
        0xffu8,
        0x74u8,
        0x4fu8,
        0x63u8,
        0u8,
        0u8,
        0u8,
        2u8,
    ] + fanout_rows(rows, 256) + id_rows(rows) + crc_rows(rows) + offset_rows(rows) + large_rows(
        rows,
    ) + pack_checksum);
}

/// An offset below two to the power of 31 stands in its row as it is. The table of large offsets has
/// eight bytes for each of the others, and for no other.
pub proof fn lemma_offset_tables(entries: Seq<IndexEntry>, row: int)
    requires
        0 <= row < entries.len(),
    ensures
        entries[row].offset < 0x8000_0000 ==> read_be32(table_row(offset_rows(entries), row, 4))
            == entries[row].offset,
        large_rows(entries).len() == 8 * entries.filter(
            |e: IndexEntry| e.offset >= 0x8000_0000,
        ).len(),
{
    lemma_offset_row(entries, row);
    lemma_large_row(entries, row);
    lemma_large_filter(entries);
    if entries[row].offset < 0x8000_0000 {
        lemma_be32_read_back(entries[row].offset);
    }
}

proof fn lemma_large_filter(entries: Seq<IndexEntry>)
    ensures
        large_count(entries) == entries.filter(|e: IndexEntry| e.offset >= 0x8000_0000).len(),
    decreases entries.len(),
{
    reveal(Seq::filter);
    if entries.len() > 0 {
        lemma_large_filter(entries.drop_last());
    }
}

} // verus!
