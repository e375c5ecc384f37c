//! The pack that holds the objects of a repository, and its index.

use rustc_hash::FxHashMap;
use vstd::prelude::*;

use crate::bytes::{be32, lemma_be32_read_back, push_bytes, read_be32, to_be32};
use crate::object::{
    compress, git_hash, object_id, payload_of, sha1_of, zlib_compressed, zlib_inflated,
    PackObjectKind,
};
use crate::pack_index::{index_file, index_views, write_idx_v2, IdxEntry, IndexEntry};

verus! {

/// The number in groups of seven bits, lowest first, each but the last marked.
pub open spec fn size_groups(n: nat) -> Seq<u8>
    decreases n,
{
    if n == 0 {
        Seq::empty()
    } else if n < 128 {
        seq![n as u8]
    } else {
        seq![(128 + n % 128) as u8] + size_groups(n / 128)
    }
}

/// The first bytes of a pack entry: the kind and the size of the object.
pub open spec fn entry_header(kind: PackObjectKind, size: nat) -> Seq<u8> {
    let first = kind.code() * 16 + size % 16 + if size >= 16 {
        128nat
    } else {
        0
    };
    seq![first as u8] + size_groups(size / 16)
}

/// The bytes of a pack entry header.
#[verifier::external_body]
pub struct HeaderBytes {
    bytes: smallvec::SmallVec<[u8; 16]>,
}

/// The bytes that a header holds.
pub uninterp spec fn header_bytes(header: HeaderBytes) -> Seq<u8>;

/// `smallvec::SmallVec::new`: holds nothing.
#[verifier::external_body]
fn header_new() -> (header: HeaderBytes)
    ensures
        header_bytes(header) == Seq::<u8>::empty(),
{
    HeaderBytes { bytes: smallvec::SmallVec::new() }
}

/// `smallvec::SmallVec::push`: holds one more byte, behind the others.
#[verifier::external_body]
fn header_push(header: &mut HeaderBytes, byte: u8)
    ensures
        header_bytes(*final(header)) == header_bytes(*old(header)).push(byte),
{
    header.bytes.push(byte);
}

/// `smallvec::SmallVec::as_slice`: all bytes held, in their order.
#[verifier::external_body]
fn header_slice(header: &HeaderBytes) -> (r: &[u8])
    ensures
        r@ == header_bytes(*header),
{
    header.bytes.as_slice()
}

/// Encodes the variable-length PACK entry header.
fn encode_pack_entry_header(kind: PackObjectKind, size: usize) -> (r: HeaderBytes)
    ensures
        header_bytes(r) == entry_header(kind, size as nat),
{
    let mut buf = header_new();
    let mut header: u8 = kind.type_code() * 16 + (size % 16) as u8;
    let mut remaining: usize = size / 16;
    if remaining > 0 {
        header = header + 128;
    }
    header_push(&mut buf, header);
    let ghost whole = entry_header(kind, size as nat);
    assert(header_bytes(buf) + size_groups(remaining as nat) =~= whole);
    while remaining > 0
        invariant
            header_bytes(buf) + size_groups(remaining as nat) == whole,
        decreases remaining,
    {
        let ghost before = header_bytes(buf);
        let ghost n = remaining as nat;
        let mut byte: u8 = (remaining % 128) as u8;
        remaining = remaining / 128;
        if remaining > 0 {
            byte = byte + 128;
        }
        header_push(&mut buf, byte);
        assert(size_groups(n) =~= seq![byte] + size_groups(remaining as nat));
        assert(before + size_groups(n) =~= header_bytes(buf) + size_groups(remaining as nat));
    }
    assert(header_bytes(buf) =~= whole);
    buf
}

/// An object as it stands in a pack.
pub struct PackedObject {
    pub kind: PackObjectKind,
    pub size: nat,
    pub id: Seq<u8>,
    pub payload: Seq<u8>,
}

/// The pack form of an object with the given content.
pub open spec fn packed(kind: PackObjectKind, data: Seq<u8>) -> PackedObject {
    PackedObject {
        kind,
        size: data.len(),
        id: object_id(kind, data),
        payload: payload_of(data),
    }
}

/// The payload of an object inflates to content that has the size and the id of the object.
pub open spec fn is_sound(object: PackedObject) -> bool {
    zlib_inflated(object.payload) matches Some(data) && object.size == data.len() && object.id
        == object_id(object.kind, data)
}

/// Every object is sound.
pub open spec fn all_sound(objects: Seq<PackedObject>) -> bool {
    forall|i: int| 0 <= i < objects.len() ==> is_sound(#[trigger] objects[i])
}

/// The bytes of a pack entry.
pub open spec fn entry_bytes(object: PackedObject) -> Seq<u8> {
    entry_header(object.kind, object.size) + object.payload
}

/// The entries of a pack, one after the other.
pub open spec fn pack_entries(objects: Seq<PackedObject>) -> Seq<u8>
    decreases objects.len(),
{
    if objects.len() == 0 {
        Seq::empty()
    } else {
        pack_entries(objects.drop_last()) + entry_bytes(objects.last())
    }
}

/// The signature and the version of a pack.
pub open spec fn pack_signature() -> Seq<u8> {
    seq![0x50u8, 0x41u8, 0x43u8, 0x4bu8, 0u8, 0u8, 0u8, 2u8]
}

/// A pack whose header gives the number of objects as `count`, without its checksum.
pub open spec fn pack_stream(count: nat, objects: Seq<PackedObject>) -> Seq<u8> {
    pack_signature() + be32(count) + pack_entries(objects)
}

/// The whole pack file.
pub open spec fn pack_file(objects: Seq<PackedObject>) -> Seq<u8> {
    let stream = pack_stream(objects.len(), objects);
    stream + sha1_of(stream)
}

/// The pack holds an object of this id.
pub open spec fn has_id(objects: Seq<PackedObject>, id: Seq<u8>) -> bool {
    exists|i: int| 0 <= i < objects.len() && (#[trigger] objects[i]).id == id
}

/// The pack with one more object, unless it already holds one of the same id.
pub open spec fn added(objects: Seq<PackedObject>, object: PackedObject) -> Seq<PackedObject> {
    if has_id(objects, object.id) {
        objects
    } else {
        objects.push(object)
    }
}

/// The pack with more objects, taken in one after the other.
pub open spec fn added_all(objects: Seq<PackedObject>, more: Seq<PackedObject>) -> Seq<
    PackedObject,
>
    decreases more.len(),
{
    if more.len() == 0 {
        objects
    } else {
        added(added_all(objects, more.drop_last()), more.last())
    }
}

/// The number of objects and the position of each byte can be written down in a pack.
pub open spec fn fits(objects: Seq<PackedObject>) -> bool {
    objects.len() <= u32::MAX && pack_stream(0, objects).len() <= u64::MAX
}

/// Where the entry of an object begins in the pack.
pub open spec fn entry_offset(objects: Seq<PackedObject>, i: int) -> nat {
    12 + pack_entries(objects.take(i)).len()
}

/// The CRC-32 checksum of bytes.
pub uninterp spec fn crc32_of(bytes: Seq<u8>) -> u32;

/// `crc32fast::hash`: the CRC-32 checksum of the bytes.
#[verifier::external_body]
fn crc32(bytes: &[u8]) -> (r: u32)
    ensures
        r == crc32_of(bytes@),
{
    crc32fast::hash(bytes)
}

#[verifier::external_type_specification]
#[verifier::external_body]
pub struct ExFxBuildHasher(rustc_hash::FxBuildHasher);

/// `rustc_hash::FxHashMap::default`: a map without entries.
#[verifier::external_body]
fn seen_new() -> (seen: FxHashMap<[u8; 20], u64>)
    ensures
        seen@.dom().is_empty(),
{
    FxHashMap::default()
}

/// `FxHashMap::contains_key`: whether the map has an entry for the id.
#[verifier::external_body]
fn seen_contains(seen: &FxHashMap<[u8; 20], u64>, sha: &[u8; 20]) -> (r: bool)
    ensures
        r == seen@.contains_key(*sha),
{
    seen.contains_key(sha)
}

/// `FxHashMap::insert`: the map has the offset as its entry for the id, and is otherwise unchanged.
#[verifier::external_body]
fn seen_insert(seen: &mut FxHashMap<[u8; 20], u64>, sha: [u8; 20], offset: u64)
    ensures
        final(seen)@ == old(seen)@.insert(sha, offset),
{
    seen.insert(sha, offset);
}

/// The index entries of a pack, in the order of the pack.
pub open spec fn index_entries(objects: Seq<PackedObject>) -> Seq<IndexEntry> {
    Seq::new(
        objects.len(),
        |i: int|
            IndexEntry {
                id: objects[i].id,
                crc: crc32_of(entry_bytes(objects[i])),
                offset: entry_offset(objects, i),
            },
    )
}

/// Why an object cannot be added to a pack.
#[derive(Debug, Clone, Copy, PartialEq, Eq, Structural)]
pub enum PackError {
    /// The number of objects or the size of the pack would be too large to be written down.
    Full,
}

impl PackError {
    /// The message to show for this error.
    pub fn to_string(&self) -> (r: String)
        ensures
            r@ == "too many objects for one pack"@,
    {
        "too many objects for one pack".to_owned()
    }
}

/// Collects pack entries, and hands them out as a stream of bytes.
pub struct PackWriter {
    /// The bytes that have not been handed out yet.
    pending: Vec<u8>,
    /// The bytes that have been handed out.
    flushed: Ghost<Seq<u8>>,
    /// The objects in the pack.
    objects: Ghost<Seq<PackedObject>>,
    /// Number of unique objects appended so far.
    object_count: u32,
    /// Object ids already emitted.
    seen: FxHashMap<[u8; 20], u64>,
    /// Accumulated index entries.
    idx_entries: Vec<IdxEntry>,
    /// Running byte offset.
    bytes_written: u64,
}

impl PackWriter {
    /// The objects in the pack, in the order in which they came.
    pub closed spec fn objects(&self) -> Seq<PackedObject> {
        self.objects@
    }

    /// The bytes that have been handed out.
    pub closed spec fn flushed(&self) -> Seq<u8> {
        self.flushed@
    }

    /// The bytes that wait to be handed out.
    pub closed spec fn pending(&self) -> Seq<u8> {
        self.pending@
    }

    /// What the writer keeps of the pack agrees with its objects.
    pub closed spec fn wf(&self) -> bool {
        let objects = self.objects@;
        &&& self.flushed@ + self.pending@ == pack_stream(0, objects)
        &&& distinct_ids(objects)
        &&& self.object_count == objects.len()
        &&& self.bytes_written == pack_stream(0, objects).len()
        &&& index_views(self.idx_entries@) == index_entries(objects)
        &&& forall|id: [u8; 20]| #[trigger] self.seen@.contains_key(id) <==> has_id(objects, id@)
    }

    /// Creates a pack without objects.
    pub fn new() -> (r: Self)
        ensures
            r.wf(),
            r.objects() == Seq::<PackedObject>::empty(),
            r.flushed() == Seq::<u8>::empty(),
            r.pending() == pack_stream(0, Seq::empty()),
    {
        let mut pending: Vec<u8> = Vec::new();
        push_bytes(&mut pending, &[0x50u8, 0x41u8, 0x43u8, 0x4bu8, 0u8, 0u8, 0u8, 2u8]);
        push_bytes(&mut pending, &[0u8, 0u8, 0u8, 0u8]);
        let r = PackWriter {
            pending,
            flushed: Ghost(Seq::empty()),
            objects: Ghost(Seq::empty()),
            object_count: 0,
            seen: seen_new(),
            idx_entries: Vec::new(),
            bytes_written: 12,
        };
        proof {
            let none = Seq::<PackedObject>::empty();
            assert(pending@ =~= pack_stream(0, none));
            assert(r.flushed@ + r.pending@ =~= pack_stream(0, none));
            assert(index_views(r.idx_entries@) =~= index_entries(none));
        }
        r
    }

    /// Appends one full object to the pack unless it was already emitted.
    pub fn write_object(&mut self, kind: PackObjectKind, data: &[u8]) -> (r: Result<
        [u8; 20],
        PackError,
    >)
        requires
            old(self).wf(),
        ensures
            final(self).wf(),
            final(self).flushed() == old(self).flushed(),
            r is Ok == fits(added(old(self).objects(), packed(kind, data@))),
            r matches Ok(sha) ==> sha@ == object_id(kind, data@),
            final(self).objects() == if r is Ok {
                added(old(self).objects(), packed(kind, data@))
            } else {
                old(self).objects()
            },
            is_sound(packed(kind, data@)),
            all_sound(old(self).objects()) ==> all_sound(final(self).objects()),
    {
        let sha = git_hash(kind, data);
        let payload = compress(data);
        self.write_precompressed_object(kind, data.len(), sha, payload.as_slice())
    }

    /// Appends one full object whose id and compressed payload were prepared earlier.
    pub fn write_precompressed_object(
        &mut self,
        kind: PackObjectKind,
        size: usize,
        sha: [u8; 20],
        compressed: &[u8],
    ) -> (r: Result<[u8; 20], PackError>)
        requires
            old(self).wf(),
        ensures
            final(self).wf(),
            final(self).flushed() == old(self).flushed(),
            ({
                let object = PackedObject {
                    kind,
                    size: size as nat,
                    id: sha@,
                    payload: compressed@,
                };
                &&& r is Ok == fits(added(old(self).objects(), object))
                &&& final(self).objects() == if r is Ok {
                    added(old(self).objects(), object)
                } else {
                    old(self).objects()
                }
            }),
            r matches Ok(id) ==> id@ == sha@,
    {
        let ghost object = PackedObject { kind, size: size as nat, id: sha@, payload: compressed@ };
        let ghost objects = self.objects@;
        if seen_contains(&self.seen, &sha) {
            return Ok(sha);
        }
        let header = encode_pack_entry_header(kind, size);
        let mut entry: Vec<u8> = Vec::new();
        push_bytes(&mut entry, header_slice(&header));
        push_bytes(&mut entry, compressed);
        assert(entry@ =~= entry_bytes(object));
        let offset: u64 = self.bytes_written;
        proof {
            assert(objects.push(object).drop_last() =~= objects);
            assert(pack_stream(0, objects.push(object)) =~= pack_stream(0, objects) + entry@);
        }
        if self.object_count == u32::MAX || entry.len() as u64 > u64::MAX - offset {
            return Err(PackError::Full);
        }
        seen_insert(&mut self.seen, sha, offset);
        let crc = crc32(entry.as_slice());
        self.idx_entries.push(IdxEntry { sha, crc32: crc, offset });
        self.bytes_written = offset + entry.len() as u64;
        self.object_count = self.object_count + 1;
        push_bytes(&mut self.pending, entry.as_slice());
        self.objects = Ghost(objects.push(object));
        proof {
            let now = objects.push(object);
            lemma_added_once(objects, object);
            assert(self.flushed@ + self.pending@ =~= pack_stream(0, now));
            assert(now.take(objects.len() as int) =~= objects);
            assert(index_views(old(self).idx_entries@).len() == objects.len());
            assert(index_entries(objects).len() == objects.len());
            assert forall|i: int| 0 <= i < now.len() implies index_views(self.idx_entries@)[i]
                == index_entries(now)[i] by {
                if i < objects.len() {
                    assert(now.take(i) =~= objects.take(i));
                    assert(index_views(old(self).idx_entries@)[i] == index_entries(objects)[i]);
                    assert(self.idx_entries@[i] == old(self).idx_entries@[i]);
                }
            }
            assert(index_views(self.idx_entries@) =~= index_entries(now));
            assert forall|id: [u8; 20]| #[trigger] self.seen@.contains_key(id) <==> has_id(
                now,
                id@,
            ) by {
                if id@ == sha@ {
                    assert(id =~= sha);
                    assert(now[objects.len() as int].id == id@);
                } else if has_id(objects, id@) {
                    let i = choose|i: int|
                        0 <= i < objects.len() && (#[trigger] objects[i]).id == id@;
                    assert(now[i].id == id@);
                } else if has_id(now, id@) {
                    let i = choose|i: int| 0 <= i < now.len() && (#[trigger] now[i]).id == id@;
                    assert(i < objects.len());
                    assert(objects[i].id == id@);
                }
            }
        }
        Ok(sha)
    }

    /// Hands out the bytes that have come since the last call.
    pub fn take_pending(&mut self) -> (r: Vec<u8>)
        requires
            old(self).wf(),
        ensures
            final(self).wf(),
            r@ == old(self).pending(),
            final(self).pending() == Seq::<u8>::empty(),
            final(self).flushed() == old(self).flushed() + r@,
            final(self).objects() == old(self).objects(),
    {
        let mut out: Vec<u8> = Vec::new();
        out.append(&mut self.pending);
        self.flushed = Ghost(self.flushed@ + out@);
        proof {
            assert(out@ =~= old(self).pending@);
            assert(self.flushed@ + self.pending@ =~= old(self).flushed@ + old(self).pending@);
        }
        out
    }

    /// The index of the pack, given the checksum of the finished pack.
    pub fn finish(self, pack_checksum: &[u8; 20]) -> (r: Vec<u8>)
        requires
            self.wf(),
        ensures
            r@ == index_file(index_entries(self.objects()), pack_checksum@),
    {
        assert(index_views(self.idx_entries@).len() == self.objects@.len());
        write_idx_v2(self.idx_entries, pack_checksum)
    }

    /// The number of objects, as it stands at [`COUNT_OFFSET`] in the finished pack.
    pub fn count_field(&self) -> (r: [u8; 4])
        requires
            self.wf(),
        ensures
            r@ == be32(self.objects().len()),
    {
        to_be32(self.object_count)
    }
}

/// Objects taken in in two goes are taken in as in one.
pub proof fn lemma_added_all_in_two(
    objects: Seq<PackedObject>,
    a: Seq<PackedObject>,
    b: Seq<PackedObject>,
)
    ensures
        added_all(objects, a + b) == added_all(added_all(objects, a), b),
    decreases b.len(),
{
    if b.len() == 0 {
        assert(a + b =~= a);
    } else {
        assert((a + b).drop_last() =~= a + b.drop_last());
        lemma_added_all_in_two(objects, a, b.drop_last());
    }
}

/// What fits into a pack together with one more object fits into it alone.
pub proof fn lemma_fits_before(objects: Seq<PackedObject>, object: PackedObject)
    requires
        fits(added(objects, object)),
    ensures
        fits(objects),
{
    if !has_id(objects, object.id) {
        assert(objects.push(object).drop_last() =~= objects);
    }
}

/// What fits into a pack together with more objects fits into it alone.
pub proof fn lemma_fits_before_all(objects: Seq<PackedObject>, more: Seq<PackedObject>)
    requires
        fits(added_all(objects, more)),
    ensures
        fits(objects),
    decreases more.len(),
{
    if more.len() > 0 {
        lemma_fits_before(added_all(objects, more.drop_last()), more.last());
        lemma_fits_before_all(objects, more.drop_last());
    }
}

/// A pack keeps its objects in their places when more are taken in.
pub proof fn lemma_added_all_keeps(objects: Seq<PackedObject>, more: Seq<PackedObject>)
    ensures
        objects.is_prefix_of(added_all(objects, more)),
    decreases more.len(),
{
    if more.len() > 0 {
        lemma_added_all_keeps(objects, more.drop_last());
    }
}

/// What was handed out of a pack and what waits make up the pack, but for the number of objects in
/// its header. The pack holds no object twice, and not more than can be written down.
pub proof fn lemma_pack_wf(writer: PackWriter)
    requires
        writer.wf(),
    ensures
        writer.flushed() + writer.pending() == pack_stream(0, writer.objects()),
        distinct_ids(writer.objects()),
        fits(writer.objects()),
{
}

/// Reads groups of seven bits up to the first that is not marked: the number, and what is left.
pub open spec fn read_groups(bytes: Seq<u8>) -> Option<(nat, Seq<u8>)>
    decreases bytes.len(),
{
    if bytes.len() == 0 {
        None
    } else if bytes[0] < 128 {
        Some((bytes[0] as nat, bytes.skip(1)))
    } else {
        match read_groups(bytes.skip(1)) {
            Some((n, rest)) => Some(((bytes[0] - 128 + 128 * n) as nat, rest)),
            None => None,
        }
    }
}

/// Reads the header of a pack entry: the number of the kind, the size, and what is left.
pub open spec fn read_header(bytes: Seq<u8>) -> Option<(nat, nat, Seq<u8>)> {
    if bytes.len() == 0 {
        None
    } else {
        let code = (bytes[0] / 16 % 8) as nat;
        let low = (bytes[0] % 16) as nat;
        if bytes[0] < 128 {
            Some((code, low, bytes.skip(1)))
        } else {
            match read_groups(bytes.skip(1)) {
                Some((n, rest)) => Some((code, low + 16 * n, rest)),
                None => None,
            }
        }
    }
}

proof fn lemma_groups_read_back(n: nat, rest: Seq<u8>)
    requires
        n > 0,
    ensures
        read_groups(size_groups(n) + rest) == Some((n, rest)),
    decreases n,
{
    let bytes = size_groups(n) + rest;
    if n < 128 {
        assert(bytes.skip(1) =~= rest);
    } else {
        lemma_groups_read_back(n / 128, rest);
        assert(bytes.skip(1) =~= size_groups(n / 128) + rest);
    }
}

/// The kind, the size and the payload of an object can be read back from its pack entry.
pub proof fn lemma_entry_read_back(object: PackedObject)
    ensures
        read_header(entry_bytes(object)) == Some(
            (object.kind.code(), object.size, object.payload),
        ),
{
    let bytes = entry_bytes(object);
    let size = object.size;
    if size < 16 {
        assert(bytes.skip(1) =~= object.payload);
    } else {
        lemma_groups_read_back(size / 16, object.payload);
        assert(bytes.skip(1) =~= size_groups(size / 16) + object.payload);
    }
}

proof fn lemma_pack_entries_in_two(a: Seq<PackedObject>, b: Seq<PackedObject>)
    ensures
        pack_entries(a + b) == pack_entries(a) + pack_entries(b),
    decreases b.len(),
{
    if b.len() == 0 {
        assert(a + b =~= a);
        assert(pack_entries(a) + pack_entries(b) =~= pack_entries(a));
    } else {
        lemma_pack_entries_in_two(a, b.drop_last());
        assert((a + b).drop_last() =~= a + b.drop_last());
        assert(pack_entries(a) + (pack_entries(b.drop_last()) + entry_bytes(b.last()))
            =~= pack_entries(a) + pack_entries(b.drop_last()) + entry_bytes(b.last()));
    }
}

/// The entry of an object stands in the pack where the index says that it begins.
pub proof fn lemma_entry_at_offset(objects: Seq<PackedObject>, i: int)
    requires
        0 <= i < objects.len(),
    ensures
        index_entries(objects)[i].offset == entry_offset(objects, i),
        entry_offset(objects, i) + entry_bytes(objects[i]).len() <= pack_file(objects).len(),
        pack_file(objects).subrange(
            entry_offset(objects, i) as int,
            (entry_offset(objects, i) + entry_bytes(objects[i]).len()) as int,
        ) == entry_bytes(objects[i]),
{
    let before = objects.take(i);
    let after = objects.skip(i + 1);
    let upto = before.push(objects[i]);
    assert(upto + after =~= objects);
    assert(upto.drop_last() =~= before);
    lemma_pack_entries_in_two(upto, after);
    let head = pack_signature() + be32(objects.len());
    assert(head.len() == 12);
    assert(pack_file(objects) =~= head + pack_entries(before) + entry_bytes(objects[i])
        + pack_entries(after) + sha1_of(pack_stream(objects.len(), objects)));
    assert(pack_file(objects).subrange(
        entry_offset(objects, i) as int,
        (entry_offset(objects, i) + entry_bytes(objects[i]).len()) as int,
    ) =~= entry_bytes(objects[i]));
}

/// Where the number of objects stands in a pack.
pub const COUNT_OFFSET: u64 = 8;

/// The pack with the true number of objects differs from the one that was handed out in nothing
/// but the four bytes of that number.
pub proof fn lemma_count_patched(objects: Seq<PackedObject>)
    ensures
        pack_stream(objects.len(), objects) == pack_stream(0, objects).take(COUNT_OFFSET as int)
            + be32(objects.len()) + pack_stream(0, objects).skip(COUNT_OFFSET + 4),
{
    assert(be32(0).len() == 4 && be32(objects.len()).len() == 4);
    assert(pack_stream(objects.len(), objects) =~= pack_stream(0, objects).take(
        COUNT_OFFSET as int,
    ) + be32(objects.len()) + pack_stream(0, objects).skip(COUNT_OFFSET + 4));
}

/// No two objects have the same id.
pub open spec fn distinct_ids(objects: Seq<PackedObject>) -> bool {
    forall|i: int, j: int|
        0 <= i < j < objects.len() ==> (#[trigger] objects[i]).id != (#[trigger] objects[j]).id
}

/// An object is in the pack once it was taken in, and is there only once.
pub proof fn lemma_added_once(objects: Seq<PackedObject>, object: PackedObject)
    requires
        distinct_ids(objects),
    ensures
        has_id(added(objects, object), object.id),
        distinct_ids(added(objects, object)),
{
    let now = added(objects, object);
    if !has_id(objects, object.id) {
        assert(now[objects.len() as int].id == object.id);
    }
}

/// Objects are in the pack once they were taken in, and are there only once.
pub proof fn lemma_added_all_once(objects: Seq<PackedObject>, more: Seq<PackedObject>)
    requires
        distinct_ids(objects),
    ensures
        distinct_ids(added_all(objects, more)),
        forall|i: int|
            0 <= i < more.len() ==> has_id(added_all(objects, more), (#[trigger] more[i]).id),
    decreases more.len(),
{
    if more.len() > 0 {
        let most = added_all(objects, more.drop_last());
        lemma_added_all_once(objects, more.drop_last());
        lemma_added_once(most, more.last());
        assert forall|i: int| 0 <= i < more.len() implies has_id(
            added_all(objects, more),
            (#[trigger] more[i]).id,
        ) by {
            if i < more.len() - 1 {
                assert(more.drop_last()[i] == more[i]);
                let k = choose|k: int| 0 <= k < most.len() && (#[trigger] most[k]).id == more[i].id;
                assert(added_all(objects, more)[k].id == more[i].id);
            }
        }
    }
}

/// Objects that are all in the pack already, such as the trees of directories that did not change,
/// add nothing to it.
pub proof fn lemma_nothing_new(objects: Seq<PackedObject>, more: Seq<PackedObject>)
    requires
        forall|i: int| 0 <= i < more.len() ==> has_id(objects, (#[trigger] more[i]).id),
    ensures
        added_all(objects, more) == objects,
    decreases more.len(),
{
    if more.len() > 0 {
        let most = more.drop_last();
        assert forall|i: int| 0 <= i < most.len() implies has_id(objects, (#[trigger] most[i]).id) by {
            assert(most[i] == more[i]);
        }
        lemma_nothing_new(objects, most);
        assert(has_id(objects, more[more.len() - 1].id));
    }
}

/// An object of a new id comes behind all others. One of an id that is there changes nothing.
pub proof fn lemma_added(objects: Seq<PackedObject>, object: PackedObject)
    ensures
        objects.is_prefix_of(added(objects, object)),
        !has_id(objects, object.id) ==> added(objects, object).last() == object && added(
            objects,
            object,
        ).len() == objects.len() + 1,
        has_id(objects, object.id) ==> added(objects, object) == objects,
        added_all(objects, seq![object]) == added(objects, object),
        added_all(objects, Seq::empty()) == objects,
{
    reveal_with_fuel(added_all, 2);
    assert(seq![object].drop_last() =~= Seq::<PackedObject>::empty());
}

/// A pack begins with the letters `PACK`, the version 2 and the number of its objects. Then come the
/// entries, each with a header of kind and size before its payload, and last the checksum of all
/// that.
pub proof fn lemma_pack_layout(a: Seq<PackedObject>, b: Seq<PackedObject>, object: PackedObject)
    requires
        (a + b).len() <= u32::MAX,
    ensures
        ({
            let stream = pack_stream((a + b).len(), a + b);
            &&& pack_file(a + b) == stream + sha1_of(stream)
            &&& stream.take(8) == seq![0x50u8, 0x41u8, 0x43u8, 0x4bu8, 0u8, 0u8, 0u8, 2u8]
            &&& read_be32(stream.subrange(8, 12)) == (a + b).len()
            &&& stream.skip(12) == pack_entries(a) + pack_entries(b)
            &&& pack_entries(seq![object]) == entry_header(object.kind, object.size)
                + object.payload
        }),
{
    let all = a + b;
    let stream = pack_stream(all.len(), all);
    lemma_be32_read_back(all.len());
    lemma_pack_entries_in_two(a, b);
    assert(stream.take(8) =~= pack_signature());
    assert(stream.subrange(8, 12) =~= be32(all.len()));
    assert(stream.skip(12) =~= pack_entries(all));
    reveal_with_fuel(pack_entries, 2);
    assert(seq![object].drop_last() =~= Seq::<PackedObject>::empty());
    assert(pack_entries(seq![object]) =~= entry_bytes(object));
}

/// A pack can be written while its objects are fewer than two to the power of 32 and its bytes fewer
/// than two to the power of 64. Its index has one entry for each object, with its id, its place and
/// the checksum of its bytes.
pub proof fn lemma_pack_bounds(objects: Seq<PackedObject>, i: int)
    requires
        0 <= i < objects.len(),
    ensures
        fits(objects) <==> objects.len() < 0x1_0000_0000 && 12 + pack_entries(objects).len()
            < 0x1_0000_0000_0000_0000,
        index_entries(objects).len() == objects.len(),
        index_entries(objects)[i].id == objects[i].id,
        index_entries(objects)[i].crc == crc32_of(
            entry_header(objects[i].kind, objects[i].size) + objects[i].payload,
        ),
{
    assert(pack_stream(0, objects).len() == 12 + pack_entries(objects).len());
}

/// The pack form of content: its kind, its length, its id, and its compressed bytes.
pub proof fn lemma_packed(kind: PackObjectKind, data: Seq<u8>)
    ensures
        packed(kind, data).kind == kind,
        packed(kind, data).size == data.len(),
        packed(kind, data).id == object_id(kind, data),
        packed(kind, data).payload == zlib_compressed(1, data),
{
}

/// What a pack takes in stands behind what it held, and is nothing but what was handed to it.
pub proof fn lemma_only_added(objects: Seq<PackedObject>, more: Seq<PackedObject>, i: int)
    requires
        objects.len() <= i < added_all(objects, more).len(),
    ensures
        more.contains(added_all(objects, more)[i]),
    decreases more.len(),
{
    let most = more.drop_last();
    let before = added_all(objects, most);
    if i < before.len() {
        lemma_only_added(objects, most, i);
        let k = choose|k: int| 0 <= k < most.len() && most[k] == before[i];
        assert(more[k] == before[i]);
    } else {
        assert(more[more.len() - 1] == more.last());
    }
}

/// An id that neither the pack nor what it takes in has is not in the pack afterwards.
pub proof fn lemma_no_new_id(objects: Seq<PackedObject>, more: Seq<PackedObject>, id: Seq<u8>)
    requires
        !has_id(objects, id),
        !has_id(more, id),
    ensures
        !has_id(added_all(objects, more), id),
{
    let all = added_all(objects, more);
    lemma_added_all_keeps(objects, more);
    assert forall|i: int| 0 <= i < all.len() implies (#[trigger] all[i]).id != id by {
        if i < objects.len() {
            assert(all[i] == objects[i]);
        } else {
            lemma_only_added(objects, more, i);
            let k = choose|k: int| 0 <= k < more.len() && more[k] == all[i];
            assert(more[k].id != id);
        }
    }
}

} // verus!
