//! A key-value store that is asked and told by datagram.
//!
//! The request `version` is answered with the name of the program. A
//! request with an equals sign stores what follows the first equals sign
//! under what precedes it, and gets no answer. Any other request is a key;
//! the answer is the key, an equals sign and the value stored under it,
//! which is empty for a key that was never stored.
use vstd::prelude::*;
use vstd::string::StringSliceAdditionalSpecFns;
use crate::bytemap::{copy_bytes, same_bytes, ByteMap};
use crate::text::{find, first};

verus! {

/// The equals sign between key and value.
pub const EQUALS: u8 = 0x3d;

/// The request `version`.
pub open spec fn version_request() -> Seq<u8> {
    "version".spec_bytes()
}

/// The answer to the request `version`.
pub open spec fn version_reply() -> Seq<u8> {
    "version=Unusual Database Program v0.1".spec_bytes()
}

/// The value stored under a key; empty for a key that was never stored.
pub open spec fn value_of(store: Map<Seq<u8>, Seq<u8>>, key: Seq<u8>) -> Seq<u8> {
    if store.dom().contains(key) {
        store[key]
    } else {
        Seq::empty()
    }
}

/// The store after a request.
pub open spec fn store_after(store: Map<Seq<u8>, Seq<u8>>, request: Seq<u8>) -> Map<
    Seq<u8>,
    Seq<u8>,
> {
    let k = first(request, EQUALS) as int;
    if request != version_request() && k < request.len() {
        store.insert(request.take(k), request.skip(k + 1))
    } else {
        store
    }
}

/// The answer to a request, if it gets one.
pub open spec fn reply_to(store: Map<Seq<u8>, Seq<u8>>, request: Seq<u8>) -> Option<Seq<u8>> {
    if request == version_request() {
        Some(version_reply())
    } else if first(request, EQUALS) < request.len() {
        None
    } else {
        Some(request.push(EQUALS) + value_of(store, request))
    }
}

/// The store: keys with their values.
pub struct Store {
    map: ByteMap<Vec<u8>>,
}

impl Store {
    /// The invariant of the store.
    pub closed spec fn wf(&self) -> bool {
        self.map.wf()
    }
}

impl View for Store {
    type V = Map<Seq<u8>, Seq<u8>>;

    closed spec fn view(&self) -> Map<Seq<u8>, Seq<u8>> {
        Map::new(|key: Seq<u8>| self.map@.dom().contains(key), |key: Seq<u8>| self.map@[key]@)
    }
}

impl Store {
    /// A store without keys.
    pub fn new() -> (s: Self)
        ensures
            s.wf(),
            s@ == Map::<Seq<u8>, Seq<u8>>::empty(),
    {
        let s = Store { map: ByteMap::new() };
        assert(s@ =~= Map::<Seq<u8>, Seq<u8>>::empty());
        s
    }

    /// The value stored under `key`; empty for a key that was never stored.
    pub fn get(&self, key: &[u8]) -> (value: Vec<u8>)
        requires
            self.wf(),
        ensures
            value@ == value_of(self@, key@),
    {
        match self.map.get(key) {
            Some(v) => copy_bytes(v.as_slice()),
            None => Vec::new(),
        }
    }

    /// Stores `value` under `key`, in place of what was stored there.
    pub fn insert(&mut self, key: &[u8], value: &[u8])
        requires
            old(self).wf(),
        ensures
            final(self).wf(),
            final(self)@ == old(self)@.insert(key@, value@),
    {
        self.map.insert(key, copy_bytes(value));
        assert(self@ =~= old(self)@.insert(key@, value@));
    }

    /// Applies a request and gives the answer, if the request gets one.
    pub fn handle(&mut self, request: &[u8]) -> (reply: Option<Vec<u8>>)
        requires
            old(self).wf(),
        ensures
            final(self).wf(),
            final(self)@ == store_after(old(self)@, request@),
            match reply {
                Some(text) => reply_to(old(self)@, request@) == Some(text@),
                None => reply_to(old(self)@, request@) is None,
            },
    {
        if same_bytes(request, "version".as_bytes()) {
            return Some(copy_bytes("version=Unusual Database Program v0.1".as_bytes()));
        }
        proof {
            assert(request@.skip(0) == request@);
        }
        let k = find(request, EQUALS, 0);
        if k < request.len() {
            let key = vstd::slice::slice_subrange(request, 0, k);
            let value = vstd::slice::slice_subrange(request, k + 1, request.len());
            assert(key@ == request@.take(k as int));
            assert(value@ == request@.skip(k + 1));
            self.insert(key, value);
            None
        } else {
            let mut text: Vec<u8> = Vec::new();
            text.extend_from_slice(request);
            text.push(EQUALS);
            let mut value = self.get(request);
            text.append(&mut value);
            assert(text@ == request@.push(EQUALS) + value_of(self@, request@));
            Some(text)
        }
    }
}

} // verus!
