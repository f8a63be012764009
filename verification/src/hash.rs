//! Content hashes of a file or an archive member: CRC32 (`crc32fast`), MD5
//! (`md-5`) and SHA1 (`sha1`), fed in chunks so a stream is never held whole.

use vstd::prelude::*;
use md5::Digest;

verus! {

#[verifier::external_type_specification]
#[verifier::external_body]
pub struct ExCrc32Hasher(crc32fast::Hasher);

/// The MD5 and SHA1 hashers of one stream. Their type (`digest`'s
/// `CoreWrapper` with its trait bounds) cannot be declared to Verus, so it
/// is held here, opaque, and reached only through the wrappers below.
#[verifier::external_body]
pub struct Digests {
    md5: md5::Md5,
    sha1: sha1::Sha1,
}

/// The CRC32 (IEEE) checksum of a byte sequence.
pub uninterp spec fn crc32_of(data: Seq<u8>) -> u32;

/// The MD5 digest of a byte sequence.
pub uninterp spec fn md5_of(data: Seq<u8>) -> Seq<u8>;

/// The SHA1 digest of a byte sequence.
pub uninterp spec fn sha1_of(data: Seq<u8>) -> Seq<u8>;

/// The bytes a CRC32 hasher has been fed since it was created.
pub uninterp spec fn crc32_fed(h: crc32fast::Hasher) -> Seq<u8>;

/// The bytes an MD5 hasher has been fed since it was created.
pub uninterp spec fn md5_fed(h: Digests) -> Seq<u8>;

/// The bytes a SHA1 hasher has been fed since it was created.
pub uninterp spec fn sha1_fed(h: Digests) -> Seq<u8>;

/// `crc32fast::Hasher::new`: a hasher that has been fed nothing.
#[verifier::external_body]
fn crc32_new() -> (h: crc32fast::Hasher)
    ensures
        crc32_fed(h) == Seq::<u8>::empty(),
{
    crc32fast::Hasher::new()
}

/// `crc32fast::Hasher::update`: feeds `bytes` after what came before.
#[verifier::external_body]
fn crc32_update(h: &mut crc32fast::Hasher, bytes: &[u8])
    ensures
        crc32_fed(*final(h)) == crc32_fed(*old(h)) + bytes@,
{
    h.update(bytes)
}

/// `crc32fast::Hasher::finalize`: the CRC32 of everything fed.
#[verifier::external_body]
fn crc32_finish(h: crc32fast::Hasher) -> (sum: u32)
    ensures
        sum == crc32_of(crc32_fed(h)),
{
    h.finalize()
}

/// `Md5::new` and `Sha1::new` (`Digest::new`): hashers that have been fed nothing.
#[verifier::external_body]
fn digests_new() -> (h: Digests)
    ensures
        md5_fed(h) == Seq::<u8>::empty(),
        sha1_fed(h) == Seq::<u8>::empty(),
{
    Digests { md5: md5::Md5::new(), sha1: sha1::Sha1::new() }
}

/// `Digest::update` on MD5: feeds `bytes` after what came before.
#[verifier::external_body]
fn md5_update(h: &mut Digests, bytes: &[u8])
    ensures
        md5_fed(*final(h)) == md5_fed(*old(h)) + bytes@,
        sha1_fed(*final(h)) == sha1_fed(*old(h)),
{
    Digest::update(&mut h.md5, bytes)
}

/// `Digest::update` on SHA1: feeds `bytes` after what came before.
#[verifier::external_body]
fn sha1_update(h: &mut Digests, bytes: &[u8])
    ensures
        sha1_fed(*final(h)) == sha1_fed(*old(h)) + bytes@,
        md5_fed(*final(h)) == md5_fed(*old(h)),
{
    Digest::update(&mut h.sha1, bytes)
}

/// `Digest::finalize` on both hashers: the 16-byte MD5 digest and the
/// 20-byte SHA1 digest of everything each was fed.
#[verifier::external_body]
fn digests_finish(h: Digests) -> (digests: (Vec<u8>, Vec<u8>))
    ensures
        digests.0@ == md5_of(md5_fed(h)),
        digests.0@.len() == 16,
        digests.1@ == sha1_of(sha1_fed(h)),
        digests.1@.len() == 20,
{
    (h.md5.finalize().to_vec(), h.sha1.finalize().to_vec())
}

/// CRC32, MD5 and SHA1 of one stream, each as lower-case hexadecimal text.
#[derive(Debug, Clone, PartialEq, Eq)]
pub struct Hashes {
    pub crc32: String,
    pub md5: String,
    pub sha1: String,
}

pub struct HashesView {
    pub crc32: Seq<char>,
    pub md5: Seq<char>,
    pub sha1: Seq<char>,
}

impl View for Hashes {
    type V = HashesView;

    open spec fn view(&self) -> HashesView {
        HashesView { crc32: self.crc32@, md5: self.md5@, sha1: self.sha1@ }
    }
}

/// A lower-case hexadecimal digit.
pub open spec fn hex_digit(n: nat) -> char {
    if n < 10 {
        (('0' as u32) + n) as char
    } else {
        (('a' as u32) + (n - 10)) as char
    }
}

/// `n` hexadecimal digits of `v`, zero-padded, most significant first.
pub open spec fn hex_fixed(v: nat, n: nat) -> Seq<char>
    decreases n,
{
    if n == 0 {
        Seq::empty()
    } else {
        hex_fixed(v / 16, (n - 1) as nat).push(hex_digit(v % 16))
    }
}

/// Two lower-case hexadecimal digits per byte.
pub open spec fn hex_of_bytes(b: Seq<u8>) -> Seq<char>
    decreases b.len(),
{
    if b.len() == 0 {
        Seq::empty()
    } else {
        hex_of_bytes(b.drop_last()) + hex_fixed(b.last() as nat, 2)
    }
}

/// The hashes of a byte sequence as the scanner records them: CRC32 as eight
/// hexadecimal digits, MD5 and SHA1 digests as hexadecimal text.
pub open spec fn hashes_of(data: Seq<u8>) -> HashesView {
    HashesView {
        crc32: hex_fixed(crc32_of(data) as nat, 8),
        md5: hex_of_bytes(md5_of(data)),
        sha1: hex_of_bytes(sha1_of(data)),
    }
}

fn hex_char(n: u32) -> (c: char)
    requires
        n < 16,
    ensures
        c == hex_digit(n as nat),
{
    if n < 10 {
        let code: u8 = 48 + (n as u8);
        code as char
    } else {
        let code: u8 = 97 + ((n - 10) as u8);
        code as char
    }
}

fn push_hex_fixed(out: &mut Vec<char>, v: u32, n: u32)
    ensures
        final(out)@ == old(out)@ + hex_fixed(v as nat, n as nat),
    decreases n,
{
    if n > 0 {
        push_hex_fixed(out, v / 16, n - 1);
        out.push(hex_char(v % 16));
        assert(final(out)@ =~= old(out)@ + hex_fixed(v as nat, n as nat));
    } else {
        assert(final(out)@ =~= old(out)@ + hex_fixed(v as nat, n as nat));
    }
}

/// `format!("{:08x}", v)`.
pub fn hex_u32(v: u32) -> (s: Vec<char>)
    ensures
        s@ == hex_fixed(v as nat, 8),
{
    let mut s: Vec<char> = Vec::new();
    push_hex_fixed(&mut s, v, 8);
    assert(s@ =~= hex_fixed(v as nat, 8));
    s
}

/// Lower-case hexadecimal text of a byte sequence.
pub fn to_hex(bytes: &[u8]) -> (s: Vec<char>)
    ensures
        s@ == hex_of_bytes(bytes@),
{
    let mut s: Vec<char> = Vec::new();
    let mut i: usize = 0;
    while i < bytes.len()
        invariant
            i <= bytes.len(),
            s@ == hex_of_bytes(bytes@.take(i as int)),
        decreases bytes.len() - i,
    {
        push_hex_fixed(&mut s, bytes[i] as u32, 2);
        proof {
            assert(bytes@.take(i + 1).drop_last() =~= bytes@.take(i as int));
            assert(bytes@.take(i + 1).last() == bytes@[i as int]);
        }
        i = i + 1;
    }
    assert(bytes@.take(bytes.len() as int) =~= bytes@);
    s
}

/// The three hashers of one stream, fed together.
pub struct HashState {
    crc32: crc32fast::Hasher,
    digests: Digests,
    fed: Ghost<Seq<u8>>,
}

impl HashState {
    /// All three hashers have been fed the same bytes.
    pub closed spec fn wf(&self) -> bool {
        &&& crc32_fed(self.crc32) == self.fed@
        &&& md5_fed(self.digests) == self.fed@
        &&& sha1_fed(self.digests) == self.fed@
    }

    /// The bytes fed so far.
    pub closed spec fn fed(&self) -> Seq<u8> {
        self.fed@
    }

    /// Hashers that have been fed nothing.
    pub fn new() -> (h: HashState)
        ensures
            h.wf(),
            h.fed() == Seq::<u8>::empty(),
    {
        HashState { crc32: crc32_new(), digests: digests_new(), fed: Ghost(Seq::empty()) }
    }

    /// Feeds the next chunk of the stream.
    pub fn update(&mut self, bytes: &[u8])
        requires
            old(self).wf(),
        ensures
            final(self).wf(),
            final(self).fed() == old(self).fed() + bytes@,
    {
        crc32_update(&mut self.crc32, bytes);
        md5_update(&mut self.digests, bytes);
        sha1_update(&mut self.digests, bytes);
        self.fed = Ghost(self.fed@ + bytes@);
    }

    /// The hashes of everything fed.
    pub fn finish(self) -> (hashes: Hashes)
        requires
            self.wf(),
        ensures
            hashes@ == hashes_of(self.fed()),
    {
        let crc = hex_u32(crc32_finish(self.crc32));
        let (md5_digest, sha1_digest) = digests_finish(self.digests);
        let md5_hex = to_hex(md5_digest.as_slice());
        let sha1_hex = to_hex(sha1_digest.as_slice());
        Hashes {
            crc32: crate::text::string_of(crc.as_slice()),
            md5: crate::text::string_of(md5_hex.as_slice()),
            sha1: crate::text::string_of(sha1_hex.as_slice()),
        }
    }
}

/// The hashes of a byte sequence held in memory.
pub fn hash_bytes(data: &[u8]) -> (hashes: Hashes)
    ensures
        hashes@ == hashes_of(data@),
{
    let mut state = HashState::new();
    state.update(data);
    assert(Seq::<u8>::empty() + data@ =~= data@);
    state.finish()
}

} // verus!
