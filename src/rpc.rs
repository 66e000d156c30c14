//! The handle through which a query endpoint reaches the runtime.
use std::marker::PhantomData;
use std::sync::Arc;
use vstd::prelude::*;

verus! {

/// A query endpoint over a client `C` of blocks `M`.
pub struct SubGraph<C, M> {
    client: Arc<C>,
    _marker: PhantomData<M>,
}

impl<C, M> SubGraph<C, M> {
    /// The client that queries are sent through.
    pub closed spec fn client_spec(&self) -> Arc<C> {
        self.client
    }

    pub fn new(client: Arc<C>) -> (r: Self)
        ensures
            r.client_spec() == client,
    {
        SubGraph { client, _marker: PhantomData }
    }

    /// The client that queries are sent through.
    pub fn client(&self) -> (r: &Arc<C>)
        ensures
            *r == self.client_spec(),
    {
        &self.client
    }
}

} // verus!
