//! Content hashing: SHA-256 through the `sha2` crate, hex-encoded by
//! verified code. The digest itself is only named, never restated; every
//! contract above it speaks of `sha256_of`.

use vstd::prelude::*;
use sha2::{Digest, Sha256};
use crate::text::chars_to_string;

verus! {

/// What `sha2::Sha256` returns for the given bytes.
pub uninterp spec fn sha256_of(data: Seq<u8>) -> Seq<u8>;

/// Relies on `sha2::Sha256` (`new`, `update`, `finalize`): the digest is a
/// function of the input bytes alone and is 32 bytes long.
#[verifier::external_body]
fn sha256_digest(data: &[u8]) -> (r: Vec<u8>)
    ensures
        r@ == sha256_of(data@),
        r@.len() == 32,
{
    let mut hasher = Sha256::new();
    hasher.update(data);
    hasher.finalize().to_vec()
}

pub open spec fn spec_hex_char(d: nat) -> char {
    if d == 0 {
        '0'
    } else if d == 1 {
        '1'
    } else if d == 2 {
        '2'
    } else if d == 3 {
        '3'
    } else if d == 4 {
        '4'
    } else if d == 5 {
        '5'
    } else if d == 6 {
        '6'
    } else if d == 7 {
        '7'
    } else if d == 8 {
        '8'
    } else if d == 9 {
        '9'
    } else if d == 10 {
        'a'
    } else if d == 11 {
        'b'
    } else if d == 12 {
        'c'
    } else if d == 13 {
        'd'
    } else if d == 14 {
        'e'
    } else {
        'f'
    }
}

/// Lower-case hex encoding, two digits per byte, high digit first.
pub open spec fn spec_hex_of(b: Seq<u8>) -> Seq<char>
    decreases b.len(),
{
    if b.len() == 0 {
        Seq::empty()
    } else {
        seq![spec_hex_char((b[0] / 16) as nat), spec_hex_char((b[0] % 16) as nat)] + spec_hex_of(
            b.drop_first(),
        )
    }
}

pub proof fn lemma_hex_len(b: Seq<u8>)
    ensures
        spec_hex_of(b).len() == 2 * b.len(),
    decreases b.len(),
{
    if b.len() > 0 {
        lemma_hex_len(b.drop_first());
    }
}

fn hex_char(d: u8) -> (r: char)
    requires
        d < 16,
    ensures
        r == spec_hex_char(d as nat),
{
    match d {
        0 => '0',
        1 => '1',
        2 => '2',
        3 => '3',
        4 => '4',
        5 => '5',
        6 => '6',
        7 => '7',
        8 => '8',
        9 => '9',
        10 => 'a',
        11 => 'b',
        12 => 'c',
        13 => 'd',
        14 => 'e',
        _ => 'f',
    }
}

/// Hex-encodes a byte vector, lower case.
pub fn hex_of(b: &Vec<u8>) -> (r: Vec<char>)
    ensures
        r@ == spec_hex_of(b@),
{
    let mut r: Vec<char> = Vec::new();
    let mut i: usize = 0;
    proof {
        assert(b@.skip(0) =~= b@);
    }
    while i < b.len()
        invariant
            i <= b@.len(),
            spec_hex_of(b@) == r@ + spec_hex_of(b@.skip(i as int)),
        decreases b@.len() - i,
    {
        let byte = b[i];
        r.push(hex_char(byte / 16));
        r.push(hex_char(byte % 16));
        proof {
            let rest = b@.skip(i as int);
            assert(rest[0] == b@[i as int]);
            assert(rest.drop_first() =~= b@.skip(i + 1));
            assert(spec_hex_of(rest) == seq![
                spec_hex_char((b@[i as int] / 16) as nat),
                spec_hex_char((b@[i as int] % 16) as nat),
            ] + spec_hex_of(b@.skip(i + 1)));
            assert(spec_hex_of(b@) =~= r@ + spec_hex_of(b@.skip(i + 1)));
        }
        i = i + 1;
    }
    proof {
        assert(b@.skip(b@.len() as int) =~= Seq::<u8>::empty());
        assert(spec_hex_of(b@) =~= r@);
    }
    r
}

/// The canonical content hash: SHA-256 of the bytes, as 64 lower-case hex
/// characters.
pub open spec fn spec_hash_hex(data: Seq<u8>) -> Seq<char> {
    spec_hex_of(sha256_of(data))
}

/// Hashes bytes into the canonical hex form.
pub fn hash_bytes(bytes: &[u8]) -> (r: String)
    ensures
        r@ == spec_hash_hex(bytes@),
        r@.len() == 64,
{
    let digest = sha256_digest(bytes);
    let hexchars = hex_of(&digest);
    proof {
        lemma_hex_len(digest@);
    }
    chars_to_string(&hexchars)
}

} // verus!
