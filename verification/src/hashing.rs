//! Content hashing used by cascade stages 2 (sample) and 3 (full): SHA-256
//! (from the `sha2` crate), written as lowercase hexadecimal.
use vstd::prelude::*;
use sha2::Digest;
use crate::text::push_char;

verus! {

/// A running SHA-256 computation over the bytes fed to it so far; the
/// `sha2` state inside is opaque, and `hasher_input` names what it has
/// been fed.
#[verifier::external_body]
pub struct ContentHasher {
    inner: sha2::Sha256,
}

/// The bytes fed to a hasher so far.
pub uninterp spec fn hasher_input(h: ContentHasher) -> Seq<u8>;

/// The SHA-256 digest of a byte sequence.
pub uninterp spec fn sha256(data: Seq<u8>) -> Seq<u8>;

/// `sha2::Sha256::new` (from `Digest`): a hasher that has been fed nothing.
#[verifier::external_body]
fn sha256_new() -> (h: ContentHasher)
    ensures
        hasher_input(h) == Seq::<u8>::empty(),
{
    ContentHasher { inner: sha2::Sha256::new() }
}

/// `Digest::update`: feeds more bytes, after those fed before.
#[verifier::external_body]
fn sha256_update(h: &mut ContentHasher, data: &[u8])
    ensures
        hasher_input(*final(h)) == hasher_input(*old(h)) + data@,
{
    h.inner.update(data);
}

/// `Digest::finalize`: the SHA-256 digest of everything fed, 32 bytes.
#[verifier::external_body]
fn sha256_finalize(h: ContentHasher) -> (d: Vec<u8>)
    ensures
        d@ == sha256(hasher_input(h)),
        d@.len() == 32,
{
    h.inner.finalize().to_vec()
}

impl ContentHasher {
    /// A hasher that has been fed nothing.
    pub fn new() -> (h: ContentHasher)
        ensures
            hasher_input(h) == Seq::<u8>::empty(),
    {
        sha256_new()
    }

    /// Feeds more bytes, after those fed before.
    pub fn update(&mut self, data: &[u8])
        ensures
            hasher_input(*final(self)) == hasher_input(*old(self)) + data@,
    {
        sha256_update(self, data);
    }

    /// The digest of everything fed, in lowercase hexadecimal.
    pub fn finish_hex(self) -> (r: String)
        ensures
            r@ == hex_lower(sha256(hasher_input(self))),
            r@.len() == 64,
    {
        let d = sha256_finalize(self);
        hex_of(d.as_slice())
    }
}

pub open spec fn hex_digit(d: int) -> char {
    if d < 10 {
        crate::text::digit_char(d)
    } else if d == 10 { 'a' } else if d == 11 { 'b' } else if d == 12 { 'c' }
    else if d == 13 { 'd' } else if d == 14 { 'e' } else { 'f' }
}

/// Each byte as two lowercase hexadecimal digits, high nibble first.
pub open spec fn hex_lower(bytes: Seq<u8>) -> Seq<char>
    decreases bytes.len(),
{
    if bytes.len() == 0 {
        Seq::empty()
    } else {
        hex_lower(bytes.drop_last()).push(hex_digit(bytes.last() as int / 16)).push(hex_digit(bytes.last() as int % 16))
    }
}

proof fn lemma_hex_len(bytes: Seq<u8>)
    ensures
        hex_lower(bytes).len() == 2 * bytes.len(),
    decreases bytes.len(),
{
    if bytes.len() > 0 {
        lemma_hex_len(bytes.drop_last());
    }
}

fn hex_digit_of(d: u8) -> (c: char)
    requires
        d < 16,
    ensures
        c == hex_digit(d as int),
{
    if d == 0 { '0' } else if d == 1 { '1' } else if d == 2 { '2' } else if d == 3 { '3' }
    else if d == 4 { '4' } else if d == 5 { '5' } else if d == 6 { '6' } else if d == 7 { '7' }
    else if d == 8 { '8' } else if d == 9 { '9' } else if d == 10 { 'a' } else if d == 11 { 'b' }
    else if d == 12 { 'c' } else if d == 13 { 'd' } else if d == 14 { 'e' } else { 'f' }
}

/// Bytes in lowercase hexadecimal.
pub fn hex_of(bytes: &[u8]) -> (r: String)
    ensures
        r@ == hex_lower(bytes@),
        r@.len() == 2 * bytes@.len(),
{
    let mut r = String::new();
    let mut i: usize = 0;
    proof {
        assert(bytes@.take(0) =~= Seq::<u8>::empty());
    }
    while i < bytes.len()
        invariant
            i <= bytes@.len(),
            r@ == hex_lower(bytes@.take(i as int)),
        decreases bytes@.len() - i,
    {
        let b = bytes[i];
        proof {
            assert(bytes@.take(i + 1).drop_last() =~= bytes@.take(i as int));
            assert(bytes@.take(i + 1).last() == b);
        }
        push_char(&mut r, hex_digit_of(b / 16));
        push_char(&mut r, hex_digit_of(b % 16));
        i = i + 1;
    }
    proof {
        assert(bytes@.take(i as int) =~= bytes@);
        lemma_hex_len(bytes@);
    }
    r
}

/// Which bytes of a file make up its sample.
#[derive(Debug, Clone, Copy, PartialEq, Eq, Structural)]
pub enum SamplePlan {
    /// The whole file: it is no larger than two samples.
    Whole,
    /// The first `len` bytes, then the `len` bytes from `tail_start` on.
    HeadTail { len: u64, tail_start: u64 },
}

/// The sample of a file of `size` bytes: the first and the last
/// `sample_size` bytes; for files no larger than twice that (the double
/// saturating at `u64::MAX`), the whole file.
pub open spec fn spec_sample_plan(size: u64, sample_size: u64) -> SamplePlan {
    if size <= (if 2 * sample_size > u64::MAX { u64::MAX as int } else { 2 * sample_size }) {
        SamplePlan::Whole
    } else {
        SamplePlan::HeadTail { len: sample_size, tail_start: (size - sample_size) as u64 }
    }
}

/// Plan the sample of a file.
pub fn sample_plan(size: u64, sample_size: u64) -> (p: SamplePlan)
    ensures
        p == spec_sample_plan(size, sample_size),
{
    let double = match sample_size.checked_mul(2) {
        Some(d) => d,
        None => u64::MAX,
    };
    if size <= double {
        SamplePlan::Whole
    } else {
        SamplePlan::HeadTail { len: sample_size, tail_start: size - sample_size }
    }
}

/// The sample hash of a file, from the bytes read for its plan: for a
/// whole-file plan the whole content, with no tail; otherwise the first
/// `len` bytes as `head` and the `len` bytes from `tail_start` on as `tail`.
/// It is the digest of the head followed by the tail, in lowercase hex.
pub fn sample_digest(plan: SamplePlan, head: &[u8], tail: &[u8]) -> (r: String)
    requires
        match plan {
            SamplePlan::Whole => tail@.len() == 0,
            SamplePlan::HeadTail { len, .. } => head@.len() == len && tail@.len() == len,
        },
    ensures
        r@ == hex_lower(sha256(head@ + tail@)),
        r@.len() == 64,
{
    let mut h = ContentHasher::new();
    h.update(head);
    h.update(tail);
    assert(hasher_input(h) =~= head@ + tail@);
    h.finish_hex()
}

} // verus!
