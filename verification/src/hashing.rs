//! The ring's position hash: a key is digested with the standard library's
//! `DefaultHasher`, exactly as `str`'s `Hash` impl feeds it (the key's UTF-8
//! bytes, then a single `0xff` terminator byte), and the 64-bit digest is
//! reduced modulo 255 to one byte.

use vstd::prelude::*;

verus! {

use std::collections::hash_map::DefaultHasher;
use std::hash::Hasher;
use vstd::std_specs::hash::DefaultHasherAdditionalSpecFns;
use vstd::utf8::encode_utf8;

/// The 64-bit `DefaultHasher` digest of a key: the hasher is fed the key's
/// UTF-8 bytes and then the terminator byte `0xff`.
pub open spec fn digest_of(key: Seq<char>) -> u64 {
    DefaultHasher::spec_finish(seq![encode_utf8(key), seq![0xffu8]])
}

/// The ring position a key hashes to: its digest reduced modulo 255.
/// Position 255 is therefore never produced by hashing.
pub open spec fn position_of(key: Seq<char>) -> u8 {
    (digest_of(key) % 255) as u8
}

/// Hashes a key to a ring position in `0..=254`.
pub fn hash(key: &str) -> (h: u8)
    ensures
        h == position_of(key@),
        h < 255,
{
    let mut hasher = DefaultHasher::new();
    hasher.write(key.as_bytes());
    let terminator: [u8; 1] = [0xff];
    hasher.write(terminator.as_slice());
    proof {
        assert(terminator@ =~= seq![0xffu8]);
        assert(hasher@ =~= seq![encode_utf8(key@), seq![0xffu8]]);
    }
    let digest = hasher.finish();
    (digest % 255) as u8
}

} // verus!
