//! The values that the transaction layer is asked with and answers with.

use crate::engine::db::{BatchOpView, Cf};
pub use crate::util::order::keys_view;
use vstd::prelude::*;

verus! {

/// A key as its user wrote it.
pub type Key = Vec<u8>;

pub type Value = Vec<u8>;

pub type KvPair = (Key, Value);

/// What a transaction wants done to a key.
#[derive(Debug)]
pub enum Mutation {
    /// Set the value of the key.
    Put((Key, Value)),
    /// Remove the key.
    Delete(Key),
    /// Only lock the key.
    Lock(Key),
}

/// A mutation as a mathematical value.
pub enum MutationView {
    Put(Seq<u8>, Seq<u8>),
    Delete(Seq<u8>),
    Lock(Seq<u8>),
}

impl MutationView {
    pub open spec fn key(self) -> Seq<u8> {
        match self {
            MutationView::Put(k, _) => k,
            MutationView::Delete(k) => k,
            MutationView::Lock(k) => k,
        }
    }
}

impl View for Mutation {
    type V = MutationView;

    open spec fn view(&self) -> MutationView {
        match self {
            Mutation::Put(kv) => MutationView::Put(kv.0@, kv.1@),
            Mutation::Delete(k) => MutationView::Delete(k@),
            Mutation::Lock(k) => MutationView::Lock(k@),
        }
    }
}

impl Mutation {
    /// The key that the mutation is about.
    pub fn key(&self) -> (r: &Key)
        ensures
            r@ == self@.key(),
    {
        match self {
            Mutation::Put(kv) => &kv.0,
            Mutation::Delete(k) => k,
            Mutation::Lock(k) => k,
        }
    }
}

/// The views of a list of mutations.
pub open spec fn mutations_view(ms: Seq<Mutation>) -> Seq<MutationView> {
    Seq::new(ms.len(), |i: int| ms[i]@)
}

/// One change that a transaction asks of the engine; the keys are in their stored form.
#[derive(Debug)]
pub enum Modify {
    Delete(Cf, Vec<u8>),
    Put(Cf, Vec<u8>, Vec<u8>),
    DeleteRange(Cf, Vec<u8>, Vec<u8>),
}

impl View for Modify {
    type V = BatchOpView;

    open spec fn view(&self) -> BatchOpView {
        match self {
            Modify::Delete(cf, k) => BatchOpView::Delete(*cf, k@),
            Modify::Put(cf, k, v) => BatchOpView::Put(*cf, k@, v@),
            Modify::DeleteRange(cf, s, e) => BatchOpView::DeleteRange(*cf, s@, e@),
        }
    }
}

/// The views of a list of changes.
pub open spec fn modifies_view(ms: Seq<Modify>) -> Seq<BatchOpView> {
    Seq::new(ms.len(), |i: int| ms[i]@)
}

} // verus!
