//! An in-memory associative container: a hash-bucketed ordered map.
//! Keys run through a 128-bit mixing hash to pick a bucket out of a
//! fixed-size array, and each bucket is a red-black tree keyed by the
//! key itself, so a lookup costs one hash plus one ordered descent.
//!
//! The pieces stand on their own as well: [`murmur`] holds the hash,
//! [`rb_tree`] the self-balancing tree, [`tree`] a plain binary search
//! tree, [`order`] the key ordering the trees ask for, and
//! [`hash_dict`] the bucketed map that composes them.
pub mod hash_dict;
pub mod murmur;
pub mod order;
pub mod rb_tree;
pub mod tree;
