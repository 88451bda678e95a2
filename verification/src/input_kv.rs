//! Keys and values as callers hand them in.

use crate::error::{ArgumentFault, Error};
use vstd::prelude::*;

verus! {

/// The longest key, in bytes.
pub const MAX_KEY_LEN: usize = 256;

/// A key of at most [`MAX_KEY_LEN`] bytes.
#[derive(Debug)]
pub struct T4Key {
    bytes: Vec<u8>,
}

/// A borrowed key of at most [`MAX_KEY_LEN`] bytes.
#[derive(Clone, Copy, Debug)]
pub struct T4KeyRef<'a> {
    bytes: &'a [u8],
}

/// A value whose length fits the format.
#[derive(Debug)]
pub struct T4Value {
    bytes: Vec<u8>,
}

/// Where a value lies in the store file.
#[derive(Clone, Copy, PartialEq, Eq, Structural, Debug)]
pub struct ValueRef {
    pub offset: u64,
    pub length: u32,
}

/// Two runs of bytes are the same.
pub fn same_bytes(a: &[u8], b: &[u8]) -> (same: bool)
    ensures
        same == (a@ == b@),
{
    if a.len() != b.len() {
        return false;
    }
    let mut i: usize = 0;
    while i < a.len()
        invariant
            i <= a@.len(),
            a@.len() == b@.len(),
            forall|k: int| 0 <= k < i ==> a@[k] == b@[k],
        decreases a@.len() - i,
    {
        if a[i] != b[i] {
            return false;
        }
        i = i + 1;
    }
    assert(a@ =~= b@);
    true
}

/// A copy of a run of bytes.
pub fn copy_bytes(src: &[u8]) -> (copy: Vec<u8>)
    ensures
        copy@ == src@,
{
    let mut copy: Vec<u8> = Vec::with_capacity(src.len());
    let mut i: usize = 0;
    while i < src.len()
        invariant
            i <= src@.len(),
            copy@ == src@.take(i as int),
        decreases src@.len() - i,
    {
        copy.push(src[i]);
        assert(copy@ =~= src@.take(i + 1));
        i = i + 1;
    }
    assert(copy@ =~= src@);
    copy
}

impl View for T4Key {
    type V = Seq<u8>;

    closed spec fn view(&self) -> Seq<u8> {
        self.bytes@
    }
}

impl<'a> View for T4KeyRef<'a> {
    type V = Seq<u8>;

    closed spec fn view(&self) -> Seq<u8> {
        self.bytes@
    }
}

impl View for T4Value {
    type V = Seq<u8>;

    closed spec fn view(&self) -> Seq<u8> {
        self.bytes@
    }
}

impl T4Key {
    #[verifier::type_invariant]
    spec fn fits(self) -> bool {
        self.bytes@.len() <= MAX_KEY_LEN
    }

    pub fn try_from_vec(bytes: Vec<u8>) -> (key: Result<T4Key, Error>)
        ensures
            match key {
                Ok(key) => bytes@.len() <= MAX_KEY_LEN && key@ == bytes@,
                Err(err) => bytes@.len() > MAX_KEY_LEN && err == Error::InvalidArgument(ArgumentFault::KeyTooLong),
            },
    {
        if bytes.len() > MAX_KEY_LEN {
            Err(Error::InvalidArgument(ArgumentFault::KeyTooLong))
        } else {
            Ok(T4Key { bytes })
        }
    }

    pub fn try_from_slice(bytes: &[u8]) -> (key: Result<T4Key, Error>)
        ensures
            match key {
                Ok(key) => bytes@.len() <= MAX_KEY_LEN && key@ == bytes@,
                Err(err) => bytes@.len() > MAX_KEY_LEN && err == Error::InvalidArgument(ArgumentFault::KeyTooLong),
            },
    {
        if bytes.len() > MAX_KEY_LEN {
            Err(Error::InvalidArgument(ArgumentFault::KeyTooLong))
        } else {
            Ok(T4Key { bytes: copy_bytes(bytes) })
        }
    }

    pub fn as_bytes(&self) -> (bytes: &[u8])
        ensures
            bytes@ == self@,
            bytes@.len() <= MAX_KEY_LEN,
    {
        proof {
            use_type_invariant(self);
        }
        self.bytes.as_slice()
    }

    pub fn duplicate(&self) -> (key: T4Key)
        ensures
            key@ == self@,
    {
        proof {
            use_type_invariant(self);
        }
        T4Key { bytes: copy_bytes(self.bytes.as_slice()) }
    }
}

impl<'a> T4KeyRef<'a> {
    pub fn try_from_slice(bytes: &'a [u8]) -> (key: Result<T4KeyRef<'a>, Error>)
        ensures
            match key {
                Ok(key) => bytes@.len() <= MAX_KEY_LEN && key@ == bytes@,
                Err(err) => bytes@.len() > MAX_KEY_LEN && err == Error::InvalidArgument(ArgumentFault::KeyTooLong),
            },
    {
        if bytes.len() > MAX_KEY_LEN {
            Err(Error::InvalidArgument(ArgumentFault::KeyTooLong))
        } else {
            Ok(T4KeyRef { bytes })
        }
    }

    pub fn as_bytes(&self) -> (bytes: &'a [u8])
        ensures
            bytes@ == self@,
    {
        self.bytes
    }
}

impl T4Value {
    #[verifier::type_invariant]
    spec fn fits(self) -> bool {
        self.bytes@.len() <= u32::MAX
    }

    pub fn try_from_vec(bytes: Vec<u8>) -> (value: Result<T4Value, Error>)
        ensures
            match value {
                Ok(value) => bytes@.len() <= u32::MAX && value@ == bytes@,
                Err(err) => bytes@.len() > u32::MAX && err == Error::InvalidArgument(ArgumentFault::ValueTooLong),
            },
    {
        if bytes.len() > u32::MAX as usize {
            Err(Error::InvalidArgument(ArgumentFault::ValueTooLong))
        } else {
            Ok(T4Value { bytes })
        }
    }

    pub fn len_u32(&self) -> (len: u32)
        ensures
            len == self@.len(),
    {
        proof {
            use_type_invariant(self);
        }
        self.bytes.len() as u32
    }

    pub fn as_bytes(&self) -> (bytes: &[u8])
        ensures
            bytes@ == self@,
            bytes@.len() <= u32::MAX,
    {
        proof {
            use_type_invariant(self);
        }
        self.bytes.as_slice()
    }
}

} // verus!
