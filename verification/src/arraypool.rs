//! A pool recycling the record vectors used by the decoder, so that decoding
//! many messages does not repeatedly allocate and free the same small
//! buffers.

use crate::value::{Field, RepeatedFieldValue, SingleFieldValue};
use vstd::prelude::*;

verus! {

/// Free lists for the three buffer shapes the decoder uses: sequences of
/// values, of singular field records, and of repeated field records.
///
/// Acquiring hands back a previously released buffer cleared to empty, or a
/// fresh empty one if none is stored; releasing clears and stores the
/// buffer. A caller that releases every acquired buffer keeps the stored
/// counts bounded, so steady-state allocation approaches zero.
#[derive(Debug)]
pub struct ArrayPool {
    single_field_val_vec_pool: Vec<Vec<SingleFieldValue>>,
    field_vec_pool: Vec<Vec<Field<SingleFieldValue>>>,
    repeated_field_vec_pool: Vec<Vec<Field<RepeatedFieldValue>>>,
}

impl ArrayPool {
    /// How many value buffers are stored for reuse.
    pub closed spec fn single_count(self) -> nat {
        self.single_field_val_vec_pool@.len()
    }

    /// How many singular-record buffers are stored for reuse.
    pub closed spec fn field_count(self) -> nat {
        self.field_vec_pool@.len()
    }

    /// How many repeated-record buffers are stored for reuse.
    pub closed spec fn repeated_count(self) -> nat {
        self.repeated_field_vec_pool@.len()
    }

    /// How many value buffers are stored, observably.
    pub fn stored_single_buffers(&self) -> (r: usize)
        ensures
            r == self.single_count(),
    {
        self.single_field_val_vec_pool.len()
    }

    /// How many singular-record buffers are stored, observably.
    pub fn stored_field_buffers(&self) -> (r: usize)
        ensures
            r == self.field_count(),
    {
        self.field_vec_pool.len()
    }

    /// How many repeated-record buffers are stored, observably.
    pub fn stored_repeated_buffers(&self) -> (r: usize)
        ensures
            r == self.repeated_count(),
    {
        self.repeated_field_vec_pool.len()
    }

    /// An empty pool: nothing stored, nothing preallocated.
    pub fn new() -> (r: ArrayPool)
        ensures
            r.single_count() == 0,
            r.field_count() == 0,
            r.repeated_count() == 0,
    {
        ArrayPool {
            single_field_val_vec_pool: Vec::new(),
            field_vec_pool: Vec::new(),
            repeated_field_vec_pool: Vec::new(),
        }
    }

    /// Acquires an empty value buffer, reusing a stored one when available.
    pub fn get_single_field_val_vec(&mut self) -> (r: Vec<SingleFieldValue>)
        ensures
            r@.len() == 0,
            final(self).single_count() == if old(self).single_count() > 0 {
                (old(self).single_count() - 1) as nat
            } else {
                0
            },
            final(self).field_count() == old(self).field_count(),
            final(self).repeated_count() == old(self).repeated_count(),
    {
        match self.single_field_val_vec_pool.pop() {
            Some(mut v) => {
                v.clear();
                v
            },
            None => Vec::new(),
        }
    }

    /// Releases a value buffer: clears it and stores it for reuse.
    pub fn return_single_field_val_vec(&mut self, value: Vec<SingleFieldValue>)
        ensures
            final(self).single_count() == old(self).single_count() + 1,
            final(self).field_count() == old(self).field_count(),
            final(self).repeated_count() == old(self).repeated_count(),
    {
        let mut value = value;
        value.clear();
        self.single_field_val_vec_pool.push(value);
    }

    /// Acquires an empty singular-record buffer, reusing a stored one when
    /// available.
    pub fn get_field_vec(&mut self) -> (r: Vec<Field<SingleFieldValue>>)
        ensures
            r@.len() == 0,
            final(self).field_count() == if old(self).field_count() > 0 {
                (old(self).field_count() - 1) as nat
            } else {
                0
            },
            final(self).single_count() == old(self).single_count(),
            final(self).repeated_count() == old(self).repeated_count(),
    {
        match self.field_vec_pool.pop() {
            Some(mut v) => {
                v.clear();
                v
            },
            None => Vec::new(),
        }
    }

    /// Releases a singular-record buffer: clears it and stores it for reuse.
    pub fn return_field_vec(&mut self, value: Vec<Field<SingleFieldValue>>)
        ensures
            final(self).field_count() == old(self).field_count() + 1,
            final(self).single_count() == old(self).single_count(),
            final(self).repeated_count() == old(self).repeated_count(),
    {
        let mut value = value;
        value.clear();
        self.field_vec_pool.push(value);
    }

    /// Acquires an empty repeated-record buffer, reusing a stored one when
    /// available.
    pub fn get_repeated_field_vec(&mut self) -> (r: Vec<Field<RepeatedFieldValue>>)
        ensures
            r@.len() == 0,
            final(self).repeated_count() == if old(self).repeated_count() > 0 {
                (old(self).repeated_count() - 1) as nat
            } else {
                0
            },
            final(self).single_count() == old(self).single_count(),
            final(self).field_count() == old(self).field_count(),
    {
        match self.repeated_field_vec_pool.pop() {
            Some(mut v) => {
                v.clear();
                v
            },
            None => Vec::new(),
        }
    }

    /// Releases a repeated-record buffer: clears it and stores it for reuse.
    pub fn return_repeated_field_vec(&mut self, value: Vec<Field<RepeatedFieldValue>>)
        ensures
            final(self).repeated_count() == old(self).repeated_count() + 1,
            final(self).single_count() == old(self).single_count(),
            final(self).field_count() == old(self).field_count(),
    {
        let mut value = value;
        value.clear();
        self.repeated_field_vec_pool.push(value);
    }
}

} // verus!
