//! Declarations of the outside types and calls that the verified logic relies on.
//! Every item here is trusted: its contract is believed, not proved.
use vstd::prelude::*;

use crate::downloader::bundle_buffer::BlobHeader;
use fuel_block_committer_encoding::blob;
use fuel_block_committer_encoding::bundle;
use fuel_core_compression::{VersionedBlockPayload, VersionedCompressedBlock};
use fuel_core_types::fuel_crypto::{Message, Signature};
use fuel_core_types::fuel_tx::field::{InputContract, MintGasPrice};
use fuel_core_types::fuel_tx::Transaction;
use sha2::Digest;

verus! {

/// A blob as it is posted to the data-availability layer: 131072 bytes.
pub type Blob = Box<[u8; 131072]>;

/// The error type of the blob and bundle decoders (`anyhow::Error`), carried through opaquely.
#[verifier::external_type_specification]
#[verifier::external_body]
pub struct ExAnyhowError(anyhow::Error);

/// Bit `i` of `bytes` (0 or 1), counting from the most significant bit of the first byte.
pub open spec fn bit_at(bytes: Seq<u8>, i: int) -> nat {
    ((bytes[i / 8] >> ((7 - i % 8) as u8)) & 1u8) as nat
}

/// The number that the `len` bits of `bytes` from bit `start` on spell, most
/// significant bit first.
pub open spec fn bits_value(bytes: Seq<u8>, start: int, len: nat) -> nat
    decreases len,
{
    if len == 0 {
        0
    } else {
        2 * bits_value(bytes, start, (len - 1) as nat) + bit_at(bytes, start + len - 1)
    }
}

/// The header that `blob::Decoder::read_header` reads from the bytes of a blob, or
/// `None` where it reports an error. After the first two bits of the blob come a
/// 16-bit version, which must be 1, the 32-bit bundle id, 21 bits giving the number of
/// data bits, one bit marking the last blob, and the 17-bit index, each read most
/// significant bit first.
pub closed spec fn blob_header(blob: Seq<u8>) -> Option<BlobHeader> {
    if blob.len() * 8 < 89 || bits_value(blob, 2, 16) != 1 {
        None
    } else {
        Some(
            BlobHeader {
                bundle_id: bits_value(blob, 18, 32) as u32,
                num_bits: bits_value(blob, 50, 21) as u32,
                is_last: bit_at(blob, 71) == 1,
                idx: bits_value(blob, 72, 17) as u32,
            },
        )
    }
}

/// The payload that `blob::Decoder::decode` reassembles from a list of blobs,
/// or `None` where it reports an error.
pub uninterp spec fn blobs_payload(blobs: Seq<Seq<u8>>) -> Option<Seq<u8>>;

/// The blocks of the bundle that `bundle::Decoder::decode` reads from a payload,
/// or `None` where it reports an error.
pub uninterp spec fn bundle_blocks(payload: Seq<u8>) -> Option<Seq<Seq<u8>>>;

/// Calls `fuel_block_committer_encoding::blob::Decoder::read_header`. The contract
/// claims that it reads the header laid out as `blob_header` describes, and fails
/// exactly where `blob_header` is `None`.
#[verifier::external_body]
pub(crate) fn read_blob_header(b: &Blob) -> (r: Result<BlobHeader, anyhow::Error>)
    ensures
        match r {
            Ok(h) => blob_header(b@) == Some(h),
            Err(_) => blob_header(b@) is None,
        },
{
    match blob::Decoder::default().read_header(b) {
        Ok(blob::Header::V1(h)) => Ok(
            BlobHeader { bundle_id: h.bundle_id, num_bits: h.num_bits, is_last: h.is_last, idx: h.idx },
        ),
        Err(e) => Err(e),
    }
}

/// Whether `blob::Decoder::decode` can take apart the data of a blob with this header.
/// It cuts the first `num_bits` bits of the blob into 256-bit field elements, drops
/// the first two bits of each and the header from the first, and panics on a piece
/// too short for that: so the number of data bits must be 0, or at least 89 and not
/// one more than a multiple of 256.
pub open spec fn decodable_layout(h: BlobHeader) -> bool {
    h.num_bits == 0 || (h.num_bits >= 89 && h.num_bits % 256 != 1)
}

/// Calls `fuel_block_committer_encoding::blob::Decoder::decode`, on blobs whose data
/// it can take apart without panicking (see `decodable_layout`). The contract claims
/// only that the payload (or the failure) is a function of the blobs' bytes, in order.
#[verifier::external_body]
pub(crate) fn decode_blobs(blobs: &Vec<Blob>) -> (r: Result<Vec<u8>, anyhow::Error>)
    requires
        forall|i: int|
            0 <= i < blobs@.len() ==> (blob_header(#[trigger] blobs@[i]@) matches Some(h)
                ==> decodable_layout(h)),
    ensures
        match r {
            Ok(p) => blobs_payload(blobs@.map_values(|b: Blob| b@)) == Some(p@),
            Err(_) => blobs_payload(blobs@.map_values(|b: Blob| b@)) is None,
        },
{
    blob::Decoder::default().decode(blobs.as_slice())
}

/// Calls `fuel_block_committer_encoding::bundle::Decoder::decode` and hands out the
/// blocks of the `BundleV1` it returns. The contract claims only that the blocks (or
/// the failure) are a function of the payload's bytes.
#[verifier::external_body]
pub(crate) fn decode_bundle(payload: &Vec<u8>) -> (r: Result<Vec<Vec<u8>>, anyhow::Error>)
    ensures
        match r {
            Ok(blocks) => bundle_blocks(payload@) == Some(blocks@.map_values(|b: Vec<u8>| b@)),
            Err(_) => bundle_blocks(payload@) is None,
        },
{
    match bundle::Decoder::default().decode(payload.as_slice()) {
        Ok(bundle::Bundle::V1(b)) => Ok(b.blocks),
        Err(e) => Err(e),
    }
}

/// A Fuel transaction, carried through opaquely.
#[verifier::external_type_specification]
#[verifier::external_body]
pub struct ExTransaction(Transaction);

/// The gas price and the id of the contract that receives the coinbase of a mint
/// transaction, as `Transaction::as_mint` and the mint's getters read them; `None`
/// for any other transaction.
pub uninterp spec fn mint_of(tx: Transaction) -> Option<(u64, [u8; 32])>;

/// Calls `Transaction::as_mint` and, for a mint transaction, reads its gas price and
/// the id of the contract that receives the coinbase. The contract claims that the
/// result is a function of the transaction alone, named `mint_of`.
#[verifier::external_body]
pub(crate) fn mint_fields(tx: &Transaction) -> (r: Option<(u64, [u8; 32])>)
    ensures
        r == mint_of(*tx),
{
    match tx.as_mint() {
        Some(m) => Some((*m.gas_price(), *m.input_contract().contract_id)),
        None => None,
    }
}

/// The error type of `postcard`'s decoder, carried through opaquely.
#[verifier::external_type_specification]
#[verifier::external_body]
pub struct ExPostcardError(postcard::Error);

/// A compressed Fuel block as posted to the data-availability layer, carried through opaquely.
#[verifier::external_type_specification]
#[verifier::external_body]
pub struct ExVersionedCompressedBlock(VersionedCompressedBlock);

/// The height of the compressed block that `postcard::from_bytes` decodes from
/// these bytes, or `None` where it reports an error.
pub uninterp spec fn compressed_block_height(bytes: Seq<u8>) -> Option<u32>;

/// Calls `postcard::from_bytes::<VersionedCompressedBlock>` and reads the decoded
/// block's height. The contract claims only that the height (or the failure) is a
/// function of the bytes; the block itself is handed out opaquely.
#[verifier::external_body]
pub(crate) fn decode_compressed_block(bytes: &[u8]) -> (r: Result<(VersionedCompressedBlock, u32), postcard::Error>)
    ensures
        match r {
            Ok((_, h)) => compressed_block_height(bytes@) == Some(h),
            Err(_) => compressed_block_height(bytes@) is None,
        },
{
    match postcard::from_bytes::<VersionedCompressedBlock>(bytes) {
        Ok(b) => {
            let h = u32::from(*b.height());
            Ok((b, h))
        },
        Err(e) => Err(e),
    }
}

/// A URL, carried through opaquely.
#[verifier::external_type_specification]
#[verifier::external_body]
pub struct ExUrl(url::Url);

/// Calls `url::Url::clone`, which `derive(Clone)` writes: a copy equal to the URL it copies.
#[verifier::external_body]
pub(crate) fn clone_url(u: &url::Url) -> (r: url::Url)
    ensures
        r == *u,
{
    u.clone()
}

/// The secp256k1 public key that signed `message` with `signature`, or `None` where
/// none can be recovered.
pub uninterp spec fn recovered_public_key(signature: Seq<u8>, message: Seq<u8>) -> Option<Seq<u8>>;

/// Calls `fuel_crypto::Signature::recover` on the message with the given bytes
/// (`Message::from_bytes`, which does not hash). The contract claims only that the key
/// (or the failure) is a function of the signature and the message.
#[verifier::external_body]
pub(crate) fn recover_public_key(signature: &[u8; 64], message: &[u8; 32]) -> (r: Option<[u8; 64]>)
    ensures
        match r {
            Some(k) => recovered_public_key(signature@, message@) == Some(k@),
            None => recovered_public_key(signature@, message@) is None,
        },
{
    Signature::from_bytes(*signature).recover(&Message::from_bytes(*message)).ok().map(|k| *k)
}

/// The value of an ASCII hexadecimal digit, upper or lower case.
pub open spec fn hex_digit(c: u8) -> Option<u8> {
    if 48 <= c <= 57 {
        Some((c - 48) as u8)
    } else if 97 <= c <= 102 {
        Some((c - 87) as u8)
    } else if 65 <= c <= 70 {
        Some((c - 55) as u8)
    } else {
        None
    }
}

/// An even number of hexadecimal digits.
pub open spec fn is_hex(s: Seq<u8>) -> bool {
    &&& s.len() % 2 == 0
    &&& forall|i: int| 0 <= i < s.len() ==> #[trigger] hex_digit(s[i]) is Some
}

/// The bytes that a string of hexadecimal digits spells, two digits to a byte.
pub open spec fn hex_bytes(s: Seq<u8>) -> Seq<u8> {
    Seq::new(
        s.len() / 2,
        |i: int| (hex_digit(s[2 * i]).unwrap() * 16 + hex_digit(s[2 * i + 1]).unwrap()) as u8,
    )
}

/// Why a string is not hexadecimal.
#[derive(Clone, Copy, Debug, PartialEq, Eq)]
pub enum HexError {
    /// A character that is not a hexadecimal digit, at this position.
    InvalidHexCharacter { c: char, index: usize },
    /// An odd number of digits.
    OddLength,
    /// A length that does not fit a fixed-size output.
    InvalidStringLength,
}

/// Calls `hex::decode`, and hands its error over as a `HexError`. As its source shows:
/// an odd length is refused first; otherwise the first character that is not a hex
/// digit (either case) is reported with its position; otherwise each pair of digits
/// becomes one byte, high digit first.
#[verifier::external_body]
pub(crate) fn hex_decode(s: &[u8]) -> (r: Result<Vec<u8>, HexError>)
    ensures
        match r {
            Ok(v) => is_hex(s@) && v@ == hex_bytes(s@),
            Err(HexError::OddLength) => s@.len() % 2 == 1,
            Err(HexError::InvalidHexCharacter { c, index }) => {
                &&& s@.len() % 2 == 0
                &&& index < s@.len()
                &&& hex_digit(s@[index as int]) is None
                &&& c == s@[index as int] as char
                &&& forall|j: int| 0 <= j < index ==> #[trigger] hex_digit(s@[j]) is Some
            },
            Err(HexError::InvalidStringLength) => false,
        },
{
    match hex::decode(s) {
        Ok(v) => Ok(v),
        Err(hex::FromHexError::InvalidHexCharacter { c, index }) => Err(HexError::InvalidHexCharacter { c, index }),
        Err(hex::FromHexError::OddLength) => Err(HexError::OddLength),
        Err(hex::FromHexError::InvalidStringLength) => Err(HexError::InvalidStringLength),
    }
}

/// The SHA-256 digest of the bytes.
pub uninterp spec fn sha256_digest(data: Seq<u8>) -> Seq<u8>;

/// Calls `sha2::Sha256::digest`. The contract claims that the digest is a function of
/// the bytes and, as its output type fixes, 32 bytes long.
#[verifier::external_body]
pub(crate) fn sha256(data: &[u8]) -> (r: Vec<u8>)
    ensures
        r@ == sha256_digest(data@),
        r@.len() == 32,
{
    sha2::Sha256::digest(data).to_vec()
}

/// Calls std's `TryFrom<Box<[u8]>> for Box<[u8; 131072]>`. Its documentation: the
/// conversion succeeds exactly when the length is 131072, keeping the bytes.
#[verifier::external_body]
pub(crate) fn blob_from_bytes(bytes: Vec<u8>) -> (r: Option<Blob>)
    ensures
        r is Some <==> bytes@.len() == 131072,
        r matches Some(b) ==> b@ == bytes@,
{
    bytes.into_boxed_slice().try_into().ok()
}

} // verus!
