//! The context a pipeline runs in: the values its parts put under keys, and
//! the keys of the pipeline, shared between contexts.
use vstd::prelude::*;
use std::sync::Arc;
use crate::pipelines::context_keys::ContextKeys;
use crate::user_data::{DefaultKey, Key, UserData};

verus! {

/// `Arc::clone`: another pointer to the same allocation, so it points to the
/// same value.
#[verifier::external_body]
fn share<T>(value: &Arc<T>) -> (r: Arc<T>)
    ensures
        r == *value,
{
    Arc::clone(value)
}

/// The values of a pipeline run, by key, and the keys of the pipeline.
pub struct PipelineContext<V> {
    user_data: UserData<V>,
    types: Arc<Box<ContextKeys>>,
}

impl<V> View for PipelineContext<V> {
    type V = Map<u64, V>;

    closed spec fn view(&self) -> Map<u64, V> {
        self.user_data@
    }
}

impl<V> PipelineContext<V> {
    /// The keys the context was made with.
    pub closed spec fn keys(&self) -> ContextKeys {
        **self.types
    }

    pub closed spec fn wf(&self) -> bool {
        self.user_data.wf()
    }

    /// An empty context sharing the keys `types`.
    pub fn new(types: &Arc<Box<ContextKeys>>) -> (r: Self)
        ensures
            r.wf(),
            r@ == Map::<u64, V>::empty(),
            r.keys() == **types,
    {
        PipelineContext { user_data: UserData::new(), types: share(types) }
    }

    /// The keys of the pipeline.
    pub fn types(&self) -> (r: &ContextKeys)
        ensures
            *r == self.keys(),
    {
        &self.types
    }

    /// The value stored under `key`, if any.
    pub fn get_any<K: Key>(&self, key: &K) -> (r: Option<&V>)
        requires
            self.wf(),
        ensures
            match r {
                Some(v) => self@.contains_key(key.spec_id()) && *v == self@[key.spec_id()],
                None => !self@.contains_key(key.spec_id()),
            },
    {
        self.user_data.get(key)
    }

    /// The value stored under `key`, if any.
    pub fn get_concrete(&self, key: &DefaultKey) -> (r: Option<&V>)
        requires
            self.wf(),
        ensures
            match r {
                Some(v) => self@.contains_key(key@.1) && *v == self@[key@.1],
                None => !self@.contains_key(key@.1),
            },
    {
        self.user_data.get_concrete(key)
    }

    /// Stores `value` under `key`, replacing what was there.
    pub fn put_concrete(&mut self, key: &DefaultKey, value: V)
        requires
            old(self).wf(),
        ensures
            final(self).wf(),
            final(self)@ == old(self)@.insert(key@.1, value),
            final(self).keys() == old(self).keys(),
    {
        self.user_data.put_concrete(key, value)
    }

    /// Stores `value` under `key`, replacing what was there.
    pub fn put_any<K: Key>(&mut self, key: &K, value: V)
        requires
            old(self).wf(),
        ensures
            final(self).wf(),
            final(self)@ == old(self)@.insert(key.spec_id(), value),
            final(self).keys() == old(self).keys(),
    {
        self.user_data.put(key, value)
    }
}

/// What a context gives back under a key is the last value put under it.
pub proof fn lemma_context_put_get<V>(before: PipelineContext<V>, after: PipelineContext<V>, key: u64, value: V, other: u64)
    requires
        after@ == before@.insert(key, value),
    ensures
        after@.contains_key(key) && after@[key] == value,
        other != key ==> after@.contains_key(other) == before@.contains_key(other) && (before@.contains_key(other)
            ==> after@[other] == before@[other]),
{
}

} // verus!
