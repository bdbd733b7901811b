//! Paths through a trie, kept as nibbles in `trie_db`'s `NibbleVec` and `NibbleSlice`.

use hash_db::Prefix;
use trie_db::{NibbleSlice, NibbleVec, Partial};
use vstd::prelude::*;

verus! {

/// `trie_db::NibbleVec`: an owned path, packed two nibbles to a byte.
#[verifier::external_type_specification]
#[verifier::external_body]
pub struct ExNibbleVec(trie_db::NibbleVec);

/// `trie_db::NibbleSlice`: a path borrowed from bytes.
#[verifier::external_type_specification]
#[verifier::external_body]
pub struct ExNibbleSlice<'a>(trie_db::NibbleSlice<'a>);

/// The nibbles that a `NibbleVec` holds, in order.
pub uninterp spec fn nibbles(path: NibbleVec) -> Seq<u8>;

/// The nibbles that a `NibbleSlice` shows, in order.
pub uninterp spec fn slice_nibbles(path: NibbleSlice) -> Seq<u8>;

/// The nibbles of `bytes`: the high half of each byte, then its low half.
pub open spec fn unpacked(bytes: Seq<u8>) -> Seq<u8> {
    Seq::new(
        2 * bytes.len(),
        |i: int|
            if i % 2 == 0 {
                (bytes[i / 2] / 16) as u8
            } else {
                (bytes[i / 2] % 16) as u8
            },
    )
}

/// The whole bytes that `path` makes up; an odd last nibble is left out.
pub open spec fn packed(path: Seq<u8>) -> Seq<u8> {
    Seq::new(path.len() / 2, |i: int| (path[2 * i] * 16 + path[2 * i + 1]) as u8)
}

/// All the bytes that `path` takes up: an odd last nibble is the high half of a last byte.
pub open spec fn padded(path: Seq<u8>) -> Seq<u8> {
    if path.len() % 2 == 0 {
        packed(path)
    } else {
        packed(path).push((path.last() * 16) as u8)
    }
}

/// `path` without its last `n` nibbles.
pub open spec fn without_last(path: Seq<u8>, n: nat) -> Seq<u8> {
    if n <= path.len() {
        path.take(path.len() - n)
    } else {
        Seq::empty()
    }
}

/// The nibbles of a `trie_db` `Partial`: the single nibble in front, if it has one, and then those
/// of its bytes.
pub open spec fn partial_nibbles(partial: ((u8, u8), Seq<u8>)) -> Seq<u8> {
    if partial.0.0 == 1 {
        seq![(partial.0.1 % 16) as u8] + unpacked(partial.1)
    } else {
        unpacked(partial.1)
    }
}

/// `NibbleVec::new`: a path without nibbles.
pub assume_specification[ NibbleVec::new ]() -> (path: NibbleVec)
    ensures
        nibbles(path) == Seq::<u8>::empty(),
;

/// `NibbleVec::push`: puts one nibble at the end. A byte above 15 would spill into its neighbour.
pub assume_specification[ NibbleVec::push ](path: &mut NibbleVec, nibble: u8)
    requires
        nibble < 16,
    ensures
        nibbles(*final(path)) == nibbles(*old(path)).push(nibble),
;

/// `NibbleVec::pop`: takes the last nibble off, if there is one.
pub assume_specification[ NibbleVec::pop ](path: &mut NibbleVec) -> (nibble: Option<u8>)
    ensures
        nibbles(*old(path)).len() == 0 ==> nibble is None && nibbles(*final(path)) == nibbles(
            *old(path),
        ),
        nibbles(*old(path)).len() > 0 ==> nibble == Some(nibbles(*old(path)).last()) && nibbles(
            *final(path),
        ) == nibbles(*old(path)).drop_last(),
;

/// `NibbleVec::drop_lasts`: drops the last `n` nibbles, or all where there are fewer.
pub assume_specification[ NibbleVec::drop_lasts ](path: &mut NibbleVec, n: usize)
    ensures
        nibbles(*final(path)) == without_last(nibbles(*old(path)), n as nat),
;

/// `NibbleVec::append_partial`: puts the nibbles of `partial` at the end.
pub assume_specification[ NibbleVec::append_partial ](path: &mut NibbleVec, partial: Partial)
    ensures
        nibbles(*final(path)) == nibbles(*old(path)) + partial_nibbles((partial.0, partial.1@)),
;

/// `NibbleVec::as_prefix`: the whole bytes of the path, and its odd last nibble as the high half of
/// a byte.
pub assume_specification[ NibbleVec::as_prefix ](path: &NibbleVec) -> (prefix: Prefix)
    ensures
        prefix.0@ == packed(nibbles(*path)),
        prefix.1 == (if nibbles(*path).len() % 2 == 0 {
            None
        } else {
            Some((nibbles(*path).last() * 16) as u8)
        }),
;

/// `NibbleVec::inner`: all the bytes of the path, the unused half of the last one zero.
pub assume_specification[ NibbleVec::inner ](path: &NibbleVec) -> (bytes: &[u8])
    ensures
        bytes@ == padded(nibbles(*path)),
;

/// `NibbleVec::clone`: a path with the same nibbles.
pub assume_specification[ <NibbleVec as Clone>::clone ](path: &NibbleVec) -> (copy: NibbleVec)
    ensures
        nibbles(copy) == nibbles(*path),
;

/// `NibbleSlice::new`: the nibbles of `data`, from its first on.
pub assume_specification<'a>[ NibbleSlice::<'a>::new ](data: &'a [u8]) -> (path: NibbleSlice<'a>)
    ensures
        slice_nibbles(path) == unpacked(data@),
;

/// `NibbleSlice::len`: the number of nibbles.
pub assume_specification<'a>[ NibbleSlice::<'a>::len ](path: &NibbleSlice<'a>) -> (len: usize)
    ensures
        len == slice_nibbles(*path).len(),
;

/// `NibbleSlice::right`: the nibbles of the slice as a `Partial`.
pub assume_specification<'a>[ NibbleSlice::<'a>::right ](path: &'a NibbleSlice<'a>) -> (
    partial: Partial)
    ensures
        partial_nibbles((partial.0, partial.1@)) == slice_nibbles(*path),
;

/// `NibbleVec::from(NibbleSlice)`: an owned path with the nibbles of the slice.
pub assume_specification<'a>[ <NibbleVec as From<NibbleSlice<'a>>>::from ](
    path: NibbleSlice<'a>,
) -> (owned: NibbleVec)
    ensures
        nibbles(owned) == slice_nibbles(path),
;

} // verus!
