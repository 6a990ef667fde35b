//! Content fingerprints: SHA-256 over a file's bytes, encoded as uppercase
//! hexadecimal.
//!
//! The hash itself is computed by `ring` and the encoding by
//! `data_encoding`; both sit behind trusted wrappers.  The chunked feeding
//! loop around the incremental hash context is verified: whatever chunk
//! size is used, the digest is a function of the byte content alone.

use vstd::prelude::*;

verus! {

/// The SHA-256 digest of a byte sequence.  The digest is a function of the
/// bytes alone; no short specification of its value is attempted.
pub uninterp spec fn sha256_of(data: Seq<u8>) -> Seq<u8>;

/// The bytes fed so far into an incremental SHA-256 context.
pub uninterp spec fn context_fed(c: ring::digest::Context) -> Seq<u8>;

#[verifier::external_type_specification]
#[verifier::external_body]
pub struct ExDigestContext(ring::digest::Context);

/// SHA-256 accepts inputs up to 2^64 - 1 bits; stay well inside that.
pub open spec fn fits_sha256_input(n: nat) -> bool {
    n < 0x1000000000000000
}

/// Relies on ring::digest::Context::new with the SHA256 algorithm: a fresh
/// context over no input.
#[verifier::external_body]
fn sha256_context_new() -> (c: ring::digest::Context)
    ensures
        context_fed(c) == Seq::<u8>::empty(),
{
    ring::digest::Context::new(&ring::digest::SHA256)
}

/// Relies on ring::digest::Context::update: appends the chunk to the input
/// fed so far.
#[verifier::external_body]
fn sha256_context_update(c: &mut ring::digest::Context, chunk: &[u8])
    requires
        fits_sha256_input(context_fed(*old(c)).len() + chunk@.len()),
    ensures
        context_fed(*final(c)) == context_fed(*old(c)) + chunk@,
{
    c.update(chunk)
}

/// Relies on ring::digest::Context::finish: the 32-byte SHA-256 digest of
/// everything fed, a function of those bytes alone.
#[verifier::external_body]
fn sha256_context_finish(c: ring::digest::Context) -> (d: Vec<u8>)
    requires
        fits_sha256_input(context_fed(c).len()),
    ensures
        d@ == sha256_of(context_fed(c)),
        d@.len() == 32,
{
    let digest = c.finish();
    digest.as_ref().to_vec()
}

/// The uppercase hexadecimal digit for a value below 16.
pub open spec fn hex_digit(v: int) -> char {
    if v == 0 { '0' } else if v == 1 { '1' } else if v == 2 { '2' }
    else if v == 3 { '3' } else if v == 4 { '4' } else if v == 5 { '5' }
    else if v == 6 { '6' } else if v == 7 { '7' } else if v == 8 { '8' }
    else if v == 9 { '9' } else if v == 10 { 'A' } else if v == 11 { 'B' }
    else if v == 12 { 'C' } else if v == 13 { 'D' } else if v == 14 { 'E' }
    else { 'F' }
}

/// Uppercase hexadecimal encoding: two digits per byte, high nibble first.
pub open spec fn hex_upper(data: Seq<u8>) -> Seq<char>
    decreases data.len(),
{
    if data.len() == 0 {
        Seq::empty()
    } else {
        seq![hex_digit(data[0] as int / 16), hex_digit(data[0] as int % 16)]
            + hex_upper(data.drop_first())
    }
}

/// Relies on data_encoding::HEXUPPER.encode: RFC 4648 base16 with symbols
/// "0123456789ABCDEF", two digits per byte, high nibble first.
#[verifier::external_body]
pub(crate) fn hex_upper_encode(b: &[u8]) -> (r: String)
    requires
        b@.len() * 2 <= usize::MAX,
    ensures
        r@ == hex_upper(b@),
{
    data_encoding::HEXUPPER.encode(b)
}

/// Hash a byte string by feeding it to the incremental context in bounded
/// chunks.  The digest depends only on the bytes, never on the chunk size.
pub fn hash_bytes(data: &[u8], chunk_size: usize) -> (d: Vec<u8>)
    requires
        chunk_size >= 1,
        fits_sha256_input(data@.len() as nat),
    ensures
        d@ == sha256_of(data@),
        d@.len() == 32,
{
    let mut ctx = sha256_context_new();
    let mut i: usize = 0;
    while i < data.len()
        invariant
            i <= data@.len(),
            chunk_size >= 1,
            fits_sha256_input(data@.len() as nat),
            context_fed(ctx) == data@.take(i as int),
        decreases data@.len() - i,
    {
        let end = if data.len() - i < chunk_size { data.len() } else { i + chunk_size };
        let chunk = vstd::slice::slice_subrange(data, i, end);
        sha256_context_update(&mut ctx, chunk);
        proof {
            assert(data@.take(i as int) + data@.subrange(i as int, end as int)
                =~= data@.take(end as int));
        }
        i = end;
    }
    proof {
        assert(data@.take(data@.len() as int) =~= data@);
    }
    sha256_context_finish(ctx)
}

/// The stored fingerprint of a byte string: its SHA-256 digest in uppercase
/// hexadecimal.  Reads the content in 1 KiB chunks.
pub fn digest_hex(data: &[u8]) -> (r: String)
    requires
        fits_sha256_input(data@.len() as nat),
    ensures
        r@ == hex_upper(sha256_of(data@)),
{
    let d = hash_bytes(data, 1024);
    hex_upper_encode(d.as_slice())
}

/// A hexadecimal fingerprint contains only the sixteen digit characters,
/// so it is free of the record delimiter and of line breaks and may always
/// stand in a store line.
pub proof fn lemma_hex_upper_clean(data: Seq<u8>)
    ensures
        forall|k: int| 0 <= k < hex_upper(data).len()
            ==> #[trigger] is_hex_digit_char(hex_upper(data)[k]),
        crate::store::field_clean(hex_upper(data)),
    decreases data.len(),
{
    if data.len() > 0 {
        lemma_hex_upper_clean(data.drop_first());
        let b = data[0] as int;
        assert(is_hex_digit_char(hex_digit(b / 16))) by {
            assert(0 <= b / 16 < 16);
        }
        assert(is_hex_digit_char(hex_digit(b % 16))) by {
            assert(0 <= b % 16 < 16);
        }
        assert forall|k: int| 0 <= k < hex_upper(data).len()
            implies #[trigger] is_hex_digit_char(hex_upper(data)[k]) by {
            if k >= 2 {
                assert(hex_upper(data)[k] == hex_upper(data.drop_first())[k - 2]);
            }
        }
    }
    assert forall|k: int| 0 <= k < hex_upper(data).len()
        implies hex_upper(data)[k] != crate::store::delim() && hex_upper(data)[k] != '\n' by {
        assert(is_hex_digit_char(hex_upper(data)[k]));
        let v = choose|v: int| 0 <= v < 16 && hex_upper(data)[k] == hex_digit(v);
    }
    assert(!hex_upper(data).contains(crate::store::delim()));
    assert(!hex_upper(data).contains('\n'));
}

/// Whether a character is one of the sixteen uppercase hexadecimal digits.
pub open spec fn is_hex_digit_char(c: char) -> bool {
    exists|v: int| 0 <= v < 16 && c == hex_digit(v)
}

} // verus!
