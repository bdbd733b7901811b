//! The short lists of a state sync, kept in `smallvec`'s `SmallVec`.

use smallvec::SmallVec;
use vstd::prelude::*;

use crate::hash::HashBytes;
use crate::level::{Level, LevelView};

verus! {

/// The branches of a node that are still to be visited, each with its nibble and the hash of the
/// child there; the next one is the last. A `SmallVec` for up to sixteen in place.
#[verifier::external_body]
pub struct Branches {
    inner: SmallVec<[(u8, HashBytes); 16]>,
}

/// What a `Branches` holds, in order.
pub uninterp spec fn branch_list(branches: Branches) -> Seq<(u8, HashBytes)>;

impl Branches {
    /// `SmallVec::new`: an empty list.
    #[verifier::external_body]
    pub(crate) fn new() -> (branches: Self)
        ensures
            branch_list(branches) == Seq::<(u8, HashBytes)>::empty(),
    {
        Branches { inner: SmallVec::new() }
    }

    /// `SmallVec::push`: puts an item at the end.
    #[verifier::external_body]
    pub(crate) fn push(&mut self, branch: (u8, HashBytes))
        ensures
            branch_list(*final(self)) == branch_list(*old(self)).push(branch),
    {
        self.inner.push(branch)
    }

    /// `SmallVec::pop`: takes the last item off, if there is one.
    #[verifier::external_body]
    pub(crate) fn pop(&mut self) -> (branch: Option<(u8, HashBytes)>)
        ensures
            branch_list(*old(self)).len() == 0 ==> branch is None && branch_list(*final(self))
                == branch_list(*old(self)),
            branch_list(*old(self)).len() > 0 ==> branch == Some(branch_list(*old(self)).last())
                && branch_list(*final(self)) == branch_list(*old(self)).drop_last(),
    {
        self.inner.pop()
    }
}

/// The keys at which the next request starts, one for each trie that is being read, the top trie
/// first. A `SmallVec` for up to two in place.
#[verifier::external_body]
pub struct LastKey {
    inner: SmallVec<[Vec<u8>; 2]>,
}

/// What a `LastKey` holds, in order.
pub uninterp spec fn key_list(keys: LastKey) -> Seq<Seq<u8>>;

impl LastKey {
    /// `SmallVec::default`: an empty list.
    #[verifier::external_body]
    pub(crate) fn new() -> (keys: Self)
        ensures
            key_list(keys) == Seq::<Seq<u8>>::empty(),
    {
        LastKey { inner: SmallVec::default() }
    }

    /// `SmallVec::push`: puts a key at the end.
    #[verifier::external_body]
    pub(crate) fn push(&mut self, key: Vec<u8>)
        ensures
            key_list(*final(self)) == key_list(*old(self)).push(key@),
    {
        self.inner.push(key)
    }

    /// `SmallVec::pop`: takes the last key off, if there is one.
    #[verifier::external_body]
    pub(crate) fn pop(&mut self) -> (key: Option<Vec<u8>>)
        ensures
            key_list(*old(self)).len() == 0 ==> key is None && key_list(*final(self)) == key_list(
                *old(self),
            ),
            key_list(*old(self)).len() > 0 ==> key is Some && key->0@ == key_list(
                *old(self),
            ).last() && key_list(*final(self)) == key_list(*old(self)).drop_last(),
    {
        self.inner.pop()
    }

    /// `SmallVec::clear`: takes all keys off.
    #[verifier::external_body]
    pub(crate) fn clear(&mut self)
        ensures
            key_list(*final(self)) == Seq::<Seq<u8>>::empty(),
    {
        self.inner.clear()
    }

    /// `SmallVec::len`: the number of keys.
    #[verifier::external_body]
    pub(crate) fn len(&self) -> (len: usize)
        ensures
            len == key_list(*self).len(),
    {
        self.inner.len()
    }

    /// `SmallVec::get` of its slice: the key at a place, if there is one.
    #[verifier::external_body]
    pub(crate) fn get(&self, i: usize) -> (key: Option<&Vec<u8>>)
        ensures
            i < key_list(*self).len() ==> key is Some && key->0@ == key_list(*self)[i as int],
            i >= key_list(*self).len() ==> key is None,
    {
        self.inner.get(i)
    }

    /// `SmallVec::into_vec` of a clone: the keys in a `Vec`.
    #[verifier::external_body]
    pub(crate) fn to_vec(&self) -> (keys: Vec<Vec<u8>>)
        ensures
            keys.deep_view() == key_list(*self),
    {
        self.inner.clone().into_vec()
    }
}

/// The tries that are being walked: the top trie and, inside it, a child trie. A `SmallVec` for up
/// to two in place.
#[verifier::external_body]
pub struct Levels {
    inner: SmallVec<[Level; 2]>,
}

/// What a `Levels` holds, in order.
pub uninterp spec fn level_list(levels: Levels) -> Seq<Level>;

impl View for Levels {
    type V = Seq<LevelView>;

    open spec fn view(&self) -> Seq<LevelView> {
        Seq::new(level_list(*self).len(), |i: int| level_list(*self)[i]@)
    }
}

impl Levels {
    /// `SmallVec::default`: an empty list.
    #[verifier::external_body]
    pub(crate) fn new() -> (levels: Self)
        ensures
            level_list(levels) == Seq::<Level>::empty(),
    {
        Levels { inner: SmallVec::default() }
    }

    /// `SmallVec::push`: puts a level at the end.
    #[verifier::external_body]
    pub(crate) fn push(&mut self, level: Level)
        ensures
            level_list(*final(self)) == level_list(*old(self)).push(level),
    {
        self.inner.push(level)
    }

    /// `SmallVec::pop`: takes the last level off, if there is one.
    #[verifier::external_body]
    pub(crate) fn pop(&mut self) -> (level: Option<Level>)
        ensures
            level_list(*old(self)).len() == 0 ==> level is None && level_list(*final(self))
                == level_list(*old(self)),
            level_list(*old(self)).len() > 0 ==> level == Some(level_list(*old(self)).last())
                && level_list(*final(self)) == level_list(*old(self)).drop_last(),
    {
        self.inner.pop()
    }

    /// `SmallVec::get` of its slice: the level at a place, if there is one.
    #[verifier::external_body]
    pub(crate) fn get(&self, i: usize) -> (level: Option<&Level>)
        ensures
            i < level_list(*self).len() ==> level == Some(&level_list(*self)[i as int]),
            i >= level_list(*self).len() ==> level is None,
    {
        self.inner.get(i)
    }

    /// `SmallVec::len`: the number of levels.
    #[verifier::external_body]
    pub(crate) fn len(&self) -> (len: usize)
        ensures
            len == level_list(*self).len(),
    {
        self.inner.len()
    }
}

} // verus!
