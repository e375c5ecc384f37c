//! Git objects: their kinds, ids and compressed payloads.

use sha1::{Digest, Sha1};
use vstd::prelude::*;
use vstd::utf8::{encode_utf8, is_ascii_chars_encode_utf8};

use crate::text::{decimal, is_ascii_digit, lemma_decimal_read_back, to_decimal};

verus! {

/// The kinds of objects that a repository holds.
#[derive(Debug, Clone, Copy, PartialEq, Eq, Structural)]
pub enum PackObjectKind {
    /// A commit.
    Commit,
    /// A directory listing.
    Tree,
    /// The content of a file.
    Blob,
}

impl PackObjectKind {
    /// The name of the kind in an object header.
    pub open spec fn name(self) -> Seq<char> {
        match self {
            PackObjectKind::Commit => "commit"@,
            PackObjectKind::Tree => "tree"@,
            PackObjectKind::Blob => "blob"@,
        }
    }

    /// The number of the kind in a pack entry.
    pub open spec fn code(self) -> nat {
        match self {
            PackObjectKind::Commit => 1,
            PackObjectKind::Tree => 2,
            PackObjectKind::Blob => 3,
        }
    }

    /// Returns the Git object header name for full objects.
    pub fn git_type_name(self) -> (r: &'static [u8])
        ensures
            r@ == encode_utf8(self.name()),
    {
        match self {
            PackObjectKind::Commit => "commit".as_bytes(),
            PackObjectKind::Tree => "tree".as_bytes(),
            PackObjectKind::Blob => "blob".as_bytes(),
        }
    }

    /// Returns the number of the kind in a pack entry.
    pub fn type_code(self) -> (r: u8)
        ensures
            r == self.code(),
    {
        match self {
            PackObjectKind::Commit => 1,
            PackObjectKind::Tree => 2,
            PackObjectKind::Blob => 3,
        }
    }
}

#[verifier::external_type_specification]
#[verifier::external_body]
pub struct ExSha1(sha1::Sha1);

/// The SHA-1 digest of bytes.
pub uninterp spec fn sha1_of(bytes: Seq<u8>) -> Seq<u8>;

/// The bytes that a hasher has taken in.
pub uninterp spec fn sha1_absorbed(hasher: Sha1) -> Seq<u8>;

/// `sha1::Sha1::new`: a hasher that has taken in nothing.
#[verifier::external_body]
fn sha1_new() -> (hasher: Sha1)
    ensures
        sha1_absorbed(hasher) == Seq::<u8>::empty(),
{
    Sha1::new()
}

/// `sha1::Sha1::update`: the hasher takes in more bytes behind those it has.
#[verifier::external_body]
fn sha1_update(hasher: &mut Sha1, bytes: &[u8])
    ensures
        sha1_absorbed(*final(hasher)) == sha1_absorbed(*old(hasher)) + bytes@,
{
    hasher.update(bytes);
}

/// `sha1::Sha1::finalize`: the digest of all bytes that the hasher has taken in.
#[verifier::external_body]
fn sha1_finalize(hasher: Sha1) -> (r: [u8; 20])
    ensures
        r@ == sha1_of(sha1_absorbed(hasher)),
{
    hasher.finalize().into()
}

/// A SHA-1 checksum over bytes that come in pieces.
pub struct Checksum {
    hasher: Sha1,
}

impl View for Checksum {
    type V = Seq<u8>;

    /// The bytes taken in so far.
    closed spec fn view(&self) -> Seq<u8> {
        sha1_absorbed(self.hasher)
    }
}

impl Checksum {
    /// A checksum over nothing.
    pub fn new() -> (r: Self)
        ensures
            r@ == Seq::<u8>::empty(),
    {
        Checksum { hasher: sha1_new() }
    }

    /// Takes in the next piece.
    pub fn update(&mut self, bytes: &[u8])
        ensures
            final(self)@ == old(self)@ + bytes@,
    {
        sha1_update(&mut self.hasher, bytes);
    }

    /// The checksum over all pieces.
    pub fn finish(self) -> (r: [u8; 20])
        ensures
            r@ == sha1_of(self@),
    {
        sha1_finalize(self.hasher)
    }
}

/// What Git hashes of an object: the kind, the size and the content.
pub open spec fn hashed_bytes(kind: PackObjectKind, data: Seq<u8>) -> Seq<u8> {
    encode_utf8(kind.name()) + seq![0x20u8] + encode_utf8(decimal(data.len())) + seq![0u8] + data
}

/// The id of an object.
pub open spec fn object_id(kind: PackObjectKind, data: Seq<u8>) -> Seq<u8> {
    sha1_of(hashed_bytes(kind, data))
}

/// Computes the canonical Git object id for one unhashed object body.
pub fn git_hash(kind: PackObjectKind, data: &[u8]) -> (r: [u8; 20])
    ensures
        r@ == object_id(kind, data@),
{
    let mut sum = Checksum::new();
    sum.update(kind.git_type_name());
    sum.update(&[0x20u8]);
    let length = to_decimal(data.len() as u64);
    sum.update(length.as_str().as_bytes());
    sum.update(&[0u8]);
    sum.update(data);
    assert(sum@ =~= hashed_bytes(kind, data@));
    sum.finish()
}

/// The zlib stream that `libdeflater` makes of bytes at a compression level.
pub uninterp spec fn zlib_compressed(level: int, data: Seq<u8>) -> Seq<u8>;

/// The bytes that `libdeflater` finds in a zlib stream.
pub uninterp spec fn zlib_inflated(stream: Seq<u8>) -> Option<Seq<u8>>;

/// `libdeflater::Compressor::zlib_compress`, on a new compressor of the given level: a zlib stream
/// from which the bytes can be read back.
#[verifier::external_body]
fn zlib_compress(level: i32, data: &[u8]) -> (r: Vec<u8>)
    requires
        1 <= level <= 12,
    ensures
        r@ == zlib_compressed(level as int, data@),
        zlib_inflated(r@) == Some(data@),
{
    let level = libdeflater::CompressionLvl::new(level).unwrap();
    let mut compressor = libdeflater::Compressor::new(level);
    let mut stream = vec![0; compressor.zlib_compress_bound(data.len())];
    let length = compressor.zlib_compress(data, &mut stream).unwrap();
    stream.truncate(length);
    stream
}

/// The compression level of pack payloads.
pub const COMPRESSION_LEVEL: i32 = 1;

/// The compressed payload of an object with the given content.
pub open spec fn payload_of(data: Seq<u8>) -> Seq<u8> {
    zlib_compressed(COMPRESSION_LEVEL as int, data)
}

/// Compresses one pack payload with the current fast zlib setting.
pub fn compress(data: &[u8]) -> (r: Vec<u8>)
    ensures
        r@ == payload_of(data@),
        zlib_inflated(r@) == Some(data@),
{
    zlib_compress(COMPRESSION_LEVEL, data)
}

/// Precomputes the canonical blob id and compressed pack payload for one file body.
pub fn precompute_blob(content: &[u8]) -> (r: ([u8; 20], Vec<u8>))
    ensures
        r.0@ == object_id(PackObjectKind::Blob, content@),
        r.1@ == payload_of(content@),
        zlib_inflated(r.1@) == Some(content@),
{
    (git_hash(PackObjectKind::Blob, content), compress(content))
}

/// The hexadecimal digit of a number below sixteen.
pub open spec fn hex_char(n: nat) -> char {
    if n < 10 {
        ('0' as u32 + n) as char
    } else {
        ('a' as u32 + n - 10) as char
    }
}

/// The two hexadecimal digits of each byte, one byte after the other.
pub open spec fn hex_text(bytes: Seq<u8>) -> Seq<char> {
    Seq::new(
        2 * bytes.len(),
        |i: int|
            if i % 2 == 0 {
                hex_char((bytes[i / 2] / 16) as nat)
            } else {
                hex_char((bytes[i / 2] % 16) as nat)
            },
    )
}

/// The hexadecimal digit of a number below sixteen.
fn hex_digit(n: u8) -> (r: u8)
    requires
        n < 16,
    ensures
        r < 128,
        r as char == hex_char(n as nat),
{
    if n < 10 {
        '0' as u8 + n
    } else {
        'a' as u8 + (n - 10)
    }
}

/// Encodes an object id in hexadecimal digits.
pub fn hex_buf(sha: &[u8; 20]) -> (r: [u8; 40])
    ensures
        forall|i: int| 0 <= i < 40 ==> (#[trigger] r@[i]) < 128 && r@[i] as char == hex_text(sha@)[i],
{
    let mut buf = [0u8;40];
    let mut i: usize = 0;
    while i < 20
        invariant
            i <= 20,
            buf@.len() == 40,
            forall|j: int|
                0 <= j < 2 * i ==> (#[trigger] buf@[j]) < 128 && buf@[j] as char == hex_text(sha@)[j],
        decreases 20 - i,
    {
        let b = sha[i];
        buf[2 * i] = hex_digit(b / 16);
        buf[2 * i + 1] = hex_digit(b % 16);
        i += 1;
    }
    buf
}

/// Hex-encodes one object id.
pub fn hex(sha: &[u8; 20]) -> (r: String)
    ensures
        r@ == hex_text(sha@),
{
    let buf = hex_buf(sha);
    let mut out = String::new();
    let mut i: usize = 0;
    while i < 40
        invariant
            i <= 40,
            buf@.len() == 40,
            forall|j: int| 0 <= j < 40 ==> (#[trigger] buf@[j]) as char == hex_text(sha@)[j],
            out@ == hex_text(sha@).take(i as int),
        decreases 40 - i,
    {
        out.push(buf[i] as char);
        assert(buf@[i as int] as char == hex_text(sha@)[i as int]);
        assert(hex_text(sha@).take(i + 1) =~= hex_text(sha@).take(i as int).push(
            hex_text(sha@)[i as int],
        ));
        i += 1;
    }
    assert(hex_text(sha@).take(40) =~= hex_text(sha@));
    out
}

/// Different bytes have different hexadecimal texts.
pub proof fn lemma_hex_injective(a: Seq<u8>, b: Seq<u8>)
    requires
        hex_text(a) == hex_text(b),
    ensures
        a == b,
{
    assert(hex_text(a).len() == 2 * a.len());
    assert(hex_text(b).len() == 2 * b.len());
    assert forall|i: int| 0 <= i < a.len() implies a[i] == b[i] by {
        assert(hex_text(a)[2 * i] == hex_char((a[i] / 16) as nat));
        assert(hex_text(b)[2 * i] == hex_char((b[i] / 16) as nat));
        assert(hex_text(a)[2 * i + 1] == hex_char((a[i] % 16) as nat));
        assert(hex_text(b)[2 * i + 1] == hex_char((b[i] % 16) as nat));
    }
    assert(a =~= b);
}

/// The names and the numbers of the kinds.
pub proof fn lemma_kinds()
    ensures
        PackObjectKind::Commit.name() == "commit"@ && PackObjectKind::Commit.code() == 1,
        PackObjectKind::Tree.name() == "tree"@ && PackObjectKind::Tree.code() == 2,
        PackObjectKind::Blob.name() == "blob"@ && PackObjectKind::Blob.code() == 3,
        COMPRESSION_LEVEL == 1,
{
}

/// What is hashed of an object: its kind in letters, a space, its size in digits, a NUL, and its
/// content, byte by byte.
pub proof fn lemma_hashed_bytes(kind: PackObjectKind, data: Seq<u8>)
    ensures
        ({
            let letters = match kind {
                PackObjectKind::Commit => seq![0x63u8, 0x6fu8, 0x6du8, 0x6du8, 0x69u8, 0x74u8],
                PackObjectKind::Tree => seq![0x74u8, 0x72u8, 0x65u8, 0x65u8],
                PackObjectKind::Blob => seq![0x62u8, 0x6cu8, 0x6fu8, 0x62u8],
            };
            let size = decimal(data.len());
            object_id(kind, data) == sha1_of(
                letters + seq![0x20u8] + Seq::new(size.len(), |i: int| size[i] as u8) + seq![0u8]
                    + data,
            )
        }),
{
    reveal_strlit("commit");
    reveal_strlit("tree");
    reveal_strlit("blob");
    is_ascii_chars_encode_utf8("commit"@);
    is_ascii_chars_encode_utf8("tree"@);
    is_ascii_chars_encode_utf8("blob"@);
    let letters = match kind {
        PackObjectKind::Commit => seq![0x63u8, 0x6fu8, 0x6du8, 0x6du8, 0x69u8, 0x74u8],
        PackObjectKind::Tree => seq![0x74u8, 0x72u8, 0x65u8, 0x65u8],
        PackObjectKind::Blob => seq![0x62u8, 0x6cu8, 0x6fu8, 0x62u8],
    };
    assert(encode_utf8(kind.name()) =~= letters);
    let size = decimal(data.len());
    lemma_decimal_read_back(data.len());
    assert forall|i: int| 0 <= i < size.len() implies 0 <= #[trigger] size[i] as nat && (size[i] as nat)
        < 128 by {
        assert(is_ascii_digit(size[i]));
    }
    is_ascii_chars_encode_utf8(size);
    assert(encode_utf8(size) =~= Seq::new(size.len(), |i: int| size[i] as u8));
}

/// The sixteen digits of hexadecimal text, and where those of a byte stand: the higher one first.
pub proof fn lemma_hex_digits(bytes: Seq<u8>, i: int, n: nat)
    requires
        0 <= i < bytes.len(),
        n < 16,
    ensures
        hex_char(n) == "0123456789abcdef"@[n as int],
        hex_text(bytes).len() == 2 * bytes.len(),
        hex_text(bytes)[2 * i] == "0123456789abcdef"@[bytes[i] as int / 16],
        hex_text(bytes)[2 * i + 1] == "0123456789abcdef"@[bytes[i] as int % 16],
{
    lemma_hex_char(n);
    lemma_hex_char((bytes[i] / 16) as nat);
    lemma_hex_char((bytes[i] % 16) as nat);
}

proof fn lemma_hex_char(n: nat)
    requires
        n < 16,
    ensures
        hex_char(n) == "0123456789abcdef"@[n as int],
{
    reveal_strlit("0123456789abcdef");
}

} // verus!
