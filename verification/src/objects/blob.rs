//! Digest, compression and hexadecimal address of an object, and the blob.

use crate::error::XitError;
use crate::hexcode::{hex_chars, hex_digit_of, is_address};
use crate::objects::store::{address_view, write_object, written, ObjectKind, ObjectStore};
use crate::text::push_char;
use flate2::write::ZlibEncoder;
use flate2::Compression;
use sha1::{Digest, Sha1};
use std::io::Write;
use vstd::prelude::*;

verus! {

/// The error of the standard library's readers and writers.
#[verifier::external_type_specification]
#[verifier::external_body]
pub struct ExIoError(std::io::Error);

/// The SHA-1 digest of a byte string.
pub uninterp spec fn sha1_digest(data: Seq<u8>) -> [u8; 20];

/// What the zlib encoder of `flate2` makes of a byte string at its default
/// level, written into a vector; `None` where it reports an error.
pub uninterp spec fn zlib_deflated(data: Seq<u8>) -> Option<Seq<u8>>;

/// The 160-bit digest of `data`.
///
/// Calls `Sha1::new`, `update` and `finalize` of the crate `sha1`. Not proved:
/// that the twenty bytes returned are the SHA-1 digest of `data`, which is a
/// function of the bytes alone.
#[verifier::external_body]
pub fn compute_sha1(data: &[u8]) -> (hash: [u8; 20])
    ensures
        hash == sha1_digest(data@),
{
    let mut hasher = Sha1::new();
    hasher.update(data);
    hasher.finalize().into()
}

/// `data` as a zlib stream.
///
/// Calls `flate2::write::ZlibEncoder` at `Compression::default()` on an empty
/// vector: `write_all`, then `finish`. Not proved: that the bytes that come
/// out, or the fact of an error, depend on `data` alone.
#[verifier::external_body]
pub fn compress_zlib(data: &[u8]) -> (r: Result<Vec<u8>, std::io::Error>)
    ensures
        match r {
            Ok(v) => zlib_deflated(data@) == Some(v@),
            Err(_) => zlib_deflated(data@) is None,
        },
{
    let mut encoder = ZlibEncoder::new(Vec::new(), Compression::default());
    encoder.write_all(data)?;
    Ok(encoder.finish()?)
}

/// The digest as forty lower-case hexadecimal characters.
pub fn hash_to_hex(hash: &[u8; 20]) -> (hex: String)
    ensures
        hex@ == hex_chars(hash@),
{
    let mut hex = String::new();
    let mut i: usize = 0;
    while i < 20
        invariant
            i <= 20,
            hex@ == hex_chars(hash@.take(i as int)),
        decreases 20 - i,
    {
        let b = hash[i];
        push_char(&mut hex, hex_digit_of(b / 16));
        push_char(&mut hex, hex_digit_of(b % 16));
        i += 1;
        proof {
            assert(hex@ =~= hex_chars(hash@.take(i as int)));
        }
    }
    proof {
        assert(hash@.take(20) =~= hash@);
    }
    hex
}

/// Stores `content` as a blob and returns its address.
///
/// The address is that of the bytes `blob`, a space, the length of the
/// content in decimal and a NUL, followed by the content. The store gains
/// the compressed object unless it holds the address already. Fails with
/// `Io`, and changes nothing, exactly where the compressor reports an error.
pub fn create_blob(store: &mut ObjectStore, content: &[u8]) -> (r: Result<String, XitError>)
    requires
        old(store).wf(),
    ensures
        final(store).wf(),
        (address_view(r), final(store)@) == written(old(store)@, ObjectKind::Blob, content@),
        r matches Ok(address) ==> is_address(address@),
{
    write_object(store, ObjectKind::Blob, content)
}

} // verus!
