//! The public-facing coordinator: owns the key-to-store map and the
//! key-to-listener registry, and exposes registration, retrieval and
//! substring search. Unknown keys are not an error: retrieval and search
//! return `None` for a key never registered, distinguishing it from a
//! registered but empty store.

use vstd::prelude::*;

use crate::listener::ListenerState;
use crate::registry::StreamRegistry;
use crate::store::spec_appended;
use crate::store::spec_matching;
use crate::store::BoundedEventStore;
use crate::text::spec_int_string;
use crate::text::i32_to_string;

verus! {

/// The live-stream cache: one bounded store and at most one listener per
/// registered stream key.
pub struct SseCache {
    capacity: usize,
    stores: Vec<(String, BoundedEventStore)>,
    registry: StreamRegistry,
}

impl SseCache {
    /// The per-key buffer capacity every store is created with.
    pub closed spec fn spec_capacity(&self) -> nat {
        self.capacity as nat
    }

    /// The registered keys and their buffered payloads, in registration
    /// order.
    pub closed spec fn stores_view(&self) -> Seq<(Seq<char>, Seq<Seq<char>>)> {
        self.stores@.map_values(|p: (String, BoundedEventStore)| (p.0@, p.1.contents()))
    }

    /// The listener entries, as the registry records them.
    pub closed spec fn listeners(&self) -> Seq<(Seq<char>, ListenerState)> {
        self.registry.entry_views()
    }

    /// `k` has a non-terminated listener.
    pub closed spec fn spec_listener_active(&self, k: Seq<char>) -> bool {
        self.registry.spec_active(k)
    }

    /// Store keys are unique, every store is within its capacity, and the
    /// registry holds at most one entry per key.
    pub closed spec fn wf(&self) -> bool {
        &&& forall|i: int, j: int|
            0 <= i < j < self.stores_view().len() ==> (#[trigger] self.stores_view()[i]).0 != (
            #[trigger] self.stores_view()[j]).0
        &&& forall|i: int|
            0 <= i < self.stores@.len() ==> (#[trigger] self.stores@[i]).1.wf()
                && self.stores@[i].1.cap() == self.spec_capacity()
        &&& self.registry.wf()
    }

    /// `k` was registered: it has a store.
    pub open spec fn spec_registered(&self, k: Seq<char>) -> bool {
        exists|i: int|
            0 <= i < self.stores_view().len() && (#[trigger] self.stores_view()[i]).0 == k
    }

    /// The buffered payloads of the store registered under `k`.
    pub open spec fn store_contents(&self, k: Seq<char>) -> Seq<Seq<char>> {
        let i = choose|i: int|
            0 <= i < self.stores_view().len() && (#[trigger] self.stores_view()[i]).0 == k;
        self.stores_view()[i].1
    }

    /// With unique keys, the store at index `i` is the one `store_contents`
    /// reads for its key.
    pub proof fn lemma_store_contents_at(&self, i: int)
        requires
            self.wf(),
            0 <= i < self.stores_view().len(),
        ensures
            self.store_contents(self.stores_view()[i].0) == self.stores_view()[i].1,
    {
        let k = self.stores_view()[i].0;
        let j = choose|j: int|
            0 <= j < self.stores_view().len() && (#[trigger] self.stores_view()[j]).0 == k;
        if j != i {
            if j < i {
                assert(self.stores_view()[j].0 != self.stores_view()[i].0);
            } else {
                assert(self.stores_view()[i].0 != self.stores_view()[j].0);
            }
        }
    }

    /// An empty cache whose stores will all have capacity `capacity`.
    pub fn new(capacity: usize) -> (r: Self)
        ensures
            r.wf(),
            r.spec_capacity() == capacity,
            r.stores_view() == Seq::<(Seq<char>, Seq<Seq<char>>)>::empty(),
            r.listeners() == Seq::<(Seq<char>, ListenerState)>::empty(),
    {
        let r = SseCache { capacity, stores: Vec::new(), registry: StreamRegistry::new() };
        proof {
            assert(r.stores_view() =~= Seq::<(Seq<char>, Seq<Seq<char>>)>::empty());
        }
        r
    }

    fn store_index(&self, key: &String) -> (r: Option<usize>)
        ensures
            match r {
                Some(i) => i < self.stores_view().len() && self.stores_view()[i as int].0 == key@,
                None => forall|i: int|
                    0 <= i < self.stores_view().len() ==> (#[trigger] self.stores_view()[i]).0
                        != key@,
            },
    {
        let mut i: usize = 0;
        while i < self.stores.len()
            invariant
                i <= self.stores_view().len(),
                forall|j: int| 0 <= j < i ==> (#[trigger] self.stores_view()[j]).0 != key@,
            decreases self.stores_view().len() - i,
        {
            if self.stores[i].0.eq(key) {
                return Some(i);
            }
            i = i + 1;
        }
        None
    }

    /// Idempotently ensures one active listener and one store exist for
    /// `key`: the store is created empty on first registration, a second
    /// registration of the same key changes nothing, and keys other than
    /// `key` are untouched. Never fails: connection failures are handled
    /// inside the listener, not surfaced here.
    pub fn start_listening(&mut self, key: String)
        requires
            old(self).wf(),
        ensures
            final(self).wf(),
            final(self).spec_capacity() == old(self).spec_capacity(),
            final(self).spec_registered(key@),
            final(self).spec_listener_active(key@),
            old(self).spec_registered(key@) ==> final(self).stores_view() == old(self).stores_view(),
            !old(self).spec_registered(key@) ==> final(self).stores_view() == old(self).stores_view().push((key@, Seq::<Seq<char>>::empty())),
            old(self).spec_listener_active(key@) ==> final(self).listeners() == old(self).listeners(),
            forall|k2: Seq<char>|
                #[trigger] old(self).spec_registered(k2) ==> final(self).spec_registered(k2)
                    && final(self).store_contents(k2) == old(self).store_contents(k2),
            forall|k2: Seq<char>|
                k2 != key@ ==> #[trigger] final(self).spec_registered(k2) == old(self).spec_registered(k2),
            forall|k2: Seq<char>|
                k2 != key@ ==> #[trigger] final(self).spec_listener_active(k2) == old(self).spec_listener_active(k2),
    {
        let idx = self.store_index(&key);
        if idx.is_none() {
            let ghost prev = self.stores_view();
            self.stores.push((key.clone(), BoundedEventStore::new(self.capacity)));
            proof {
                assert(self.stores_view() =~= prev.push((key@, Seq::<Seq<char>>::empty())));
                assert forall|i: int, j: int|
                    0 <= i < j < self.stores_view().len() implies (
                #[trigger] self.stores_view()[i]).0 != (#[trigger] self.stores_view()[j]).0 by {
                    if j == prev.len() {
                        assert(prev[i] == self.stores_view()[i]);
                    }
                }
            }
        }
        let _started = self.registry.register(&key);
        proof {
            match idx {
                Some(i) => {
                    assert(self.stores_view()[i as int].0 == key@);
                },
                None => {
                    assert(self.stores_view()[old(self).stores_view().len() as int].0 == key@);
                },
            }
            assert forall|k2: Seq<char>| #[trigger] old(self).spec_registered(k2) implies self
                .spec_registered(k2) && self.store_contents(k2) == old(self).store_contents(k2) by {
                let i = choose|i: int|
                    0 <= i < old(self).stores_view().len() && (#[trigger] old(self).stores_view()[i]).0 == k2;
                assert(self.stores_view()[i] == old(self).stores_view()[i]);
                old(self).lemma_store_contents_at(i);
                self.lemma_store_contents_at(i);
            }
            assert forall|k2: Seq<char>| k2 != key@ implies #[trigger] self.spec_registered(k2)
                == old(self).spec_registered(k2) by {
                if self.spec_registered(k2) {
                    let i = choose|i: int|
                        0 <= i < self.stores_view().len() && (#[trigger] self.stores_view()[i]).0
                            == k2;
                    assert(i < old(self).stores_view().len());
                    assert(old(self).stores_view()[i].0 == k2);
                }
            }
        }
    }

    /// Appends one parsed event payload to the store of `key`, evicting the
    /// oldest entry when the store is full. Returns whether `key` was
    /// registered; an unregistered key changes nothing.
    pub fn append_event(&mut self, key: &String, payload: String) -> (appended: bool)
        requires
            old(self).wf(),
        ensures
            final(self).wf(),
            final(self).spec_capacity() == old(self).spec_capacity(),
            final(self).listeners() == old(self).listeners(),
            appended == old(self).spec_registered(key@),
            !appended ==> final(self).stores_view() == old(self).stores_view(),
            appended ==> final(self).stores_view().len() == old(self).stores_view().len()
                && final(self).store_contents(key@) == spec_appended(
                old(self).store_contents(key@),
                payload@,
                old(self).spec_capacity(),
            ),
            forall|k2: Seq<char>|
                #[trigger] final(self).spec_registered(k2) == old(self).spec_registered(k2),
            forall|k2: Seq<char>|
                k2 != key@ && old(self).spec_registered(k2) ==> #[trigger] final(self).store_contents(k2) == old(self).store_contents(k2),
    {
        let idx = self.store_index(key);
        match idx {
            Some(i) => {
                let ghost prev = self.stores_view();
                self.stores[i].1.append(payload);
                proof {
                    assert(self.stores_view() =~= prev.update(
                        i as int,
                        (key@, spec_appended(prev[i as int].1, payload@, old(self).spec_capacity())),
                    ));
                    old(self).lemma_store_contents_at(i as int);
                    self.lemma_store_contents_at(i as int);
                    assert forall|k2: Seq<char>|
                        #[trigger] self.spec_registered(k2) == old(self).spec_registered(k2) by {
                        if old(self).spec_registered(k2) {
                            let j = choose|j: int|
                                0 <= j < prev.len() && (#[trigger] prev[j]).0 == k2;
                            assert((self.stores_view()[j]).0 == k2);
                        }
                        if self.spec_registered(k2) {
                            let j = choose|j: int|
                                0 <= j < self.stores_view().len() && (#[trigger] self.stores_view()[j]).0 == k2;
                            assert((old(self).stores_view()[j]).0 == k2);
                        }
                    }
                    assert forall|k2: Seq<char>|
                        k2 != key@ && old(self).spec_registered(k2) implies #[trigger] self
                        .store_contents(k2) == old(self).store_contents(k2) by {
                        let j = choose|j: int|
                            0 <= j < old(self).stores_view().len() && (#[trigger] old(self).stores_view()[j]).0 == k2;
                        assert(j != i);
                        assert(self.stores_view()[j] == old(self).stores_view()[j]);
                        old(self).lemma_store_contents_at(j);
                        self.lemma_store_contents_at(j);
                    }
                }
                true
            },
            None => false,
        }
    }

    /// A point-in-time snapshot of the store of `key`, oldest first, or
    /// `None` when `key` was never registered.
    pub fn get_data(&self, key: &String) -> (r: Option<Vec<String>>)
        requires
            self.wf(),
        ensures
            r is Some <==> self.spec_registered(key@),
            r is Some ==> r.unwrap()@.map_values(|e: String| e@) == self.store_contents(key@),
    {
        let idx = self.store_index(key);
        match idx {
            Some(i) => {
                proof {
                    self.lemma_store_contents_at(i as int);
                }
                Some(self.stores[i].1.snapshot())
            },
            None => None,
        }
    }

    /// The entries of the store of `key` containing `query` as a literal
    /// substring, in arrival order; `Some` of an empty vector when `key` is
    /// registered but nothing matches, `None` when it was never registered.
    pub fn search(&self, key: &String, query: &str) -> (r: Option<Vec<String>>)
        requires
            self.wf(),
        ensures
            r is Some <==> self.spec_registered(key@),
            r is Some ==> r.unwrap()@.map_values(|e: String| e@) == spec_matching(
                self.store_contents(key@),
                query@,
            ),
    {
        let idx = self.store_index(key);
        match idx {
            Some(i) => {
                proof {
                    self.lemma_store_contents_at(i as int);
                }
                Some(self.stores[i].1.find(query))
            },
            None => None,
        }
    }

    /// The number of listener entries recorded for `k`.
    pub closed spec fn spec_listener_entries(&self, k: Seq<char>) -> int {
        self.registry.spec_entry_count(k)
    }

    /// Counts the listener entries recorded for `key`.
    pub fn listener_entry_count(&self, key: &String) -> (r: usize)
        ensures
            r == self.spec_listener_entries(key@),
    {
        self.registry.entry_count(key)
    }

    /// A key with an active listener has exactly one listener entry:
    /// registering the same key twice never creates a second concurrent
    /// connection to the same source.
    pub proof fn lemma_one_listener(&self, k: Seq<char>)
        requires
            self.wf(),
        ensures
            self.spec_listener_active(k) ==> self.spec_listener_entries(k) == 1,
    {
        self.registry.lemma_at_most_one_entry(k);
    }

    /// Whether `key` currently has a non-terminated listener.
    pub fn is_listening(&self, key: &String) -> (r: bool)
        requires
            self.wf(),
        ensures
            r == self.spec_listener_active(key@),
    {
        self.registry.is_active(key)
    }
}

/// The key of node `n`'s main event stream.
pub open spec fn spec_event_stream_key(n: int) -> Seq<char> {
    "http://localhost/node-"@ + spec_int_string(n) + "/sse/events/main"@
}

/// The key of node `n`'s deploy event stream.
pub open spec fn spec_deploy_stream_key(n: int) -> Seq<char> {
    "http://localhost/node-"@ + spec_int_string(n) + "/sse/events/deploys"@
}

/// Builds the key of node `node`'s main event stream.
pub fn event_stream_key(node: i32) -> (r: String)
    ensures
        r@ == spec_event_stream_key(node as int),
{
    let mut s = String::from_str("http://localhost/node-");
    s.append(i32_to_string(node).as_str());
    s.append("/sse/events/main");
    s
}

/// Builds the key of node `node`'s deploy event stream.
pub fn deploy_stream_key(node: i32) -> (r: String)
    ensures
        r@ == spec_deploy_stream_key(node as int),
{
    let mut s = String::from_str("http://localhost/node-");
    s.append(i32_to_string(node).as_str());
    s.append("/sse/events/deploys");
    s
}

/// Registers the main and deploy event streams of nodes `1..=node_count`,
/// leaving each with a store and an active listener.
pub fn listen_to_sse(cache: &mut SseCache, node_count: i32)
    requires
        old(cache).wf(),
        node_count < i32::MAX,
    ensures
        final(cache).wf(),
        final(cache).spec_capacity() == old(cache).spec_capacity(),
        forall|n: int|
            1 <= n <= node_count ==> #[trigger] final(cache).spec_registered(
                spec_event_stream_key(n),
            ) && final(cache).spec_registered(spec_deploy_stream_key(n)) && final(cache).spec_listener_active(spec_event_stream_key(n)) && final(cache).spec_listener_active(
                spec_deploy_stream_key(n),
            ),
    {
        let mut i: i32 = 1;
        while i <= node_count
            invariant
                cache.wf(),
                cache.spec_capacity() == old(cache).spec_capacity(),
                1 <= i <= node_count + 1 || (node_count < 1 && i == 1),
                node_count < i32::MAX,
                forall|n: int|
                    1 <= n < i ==> #[trigger] cache.spec_registered(spec_event_stream_key(n))
                        && cache.spec_registered(spec_deploy_stream_key(n))
                        && cache.spec_listener_active(spec_event_stream_key(n))
                        && cache.spec_listener_active(spec_deploy_stream_key(n)),
            decreases node_count + 1 - i,
        {
            let events = event_stream_key(i);
            cache.start_listening(events);
            let deploys = deploy_stream_key(i);
            cache.start_listening(deploys);
            i = i + 1;
        }
    }

/// The snapshot of node `node_number`'s main event stream, or `None` when
/// that stream was never registered.
pub fn get_events(cache: &SseCache, node_number: i32) -> (r: Option<Vec<String>>)
    requires
        cache.wf(),
    ensures
        r is Some <==> cache.spec_registered(spec_event_stream_key(node_number as int)),
        r is Some ==> r.unwrap()@.map_values(|e: String| e@) == cache.store_contents(
            spec_event_stream_key(node_number as int),
        ),
{
    cache.get_data(&event_stream_key(node_number))
}

/// The snapshot of node `node_number`'s deploy event stream, or `None` when
/// that stream was never registered.
pub fn get_deploys(cache: &SseCache, node_number: i32) -> (r: Option<Vec<String>>)
    requires
        cache.wf(),
    ensures
        r is Some <==> cache.spec_registered(spec_deploy_stream_key(node_number as int)),
        r is Some ==> r.unwrap()@.map_values(|e: String| e@) == cache.store_contents(
            spec_deploy_stream_key(node_number as int),
        ),
{
    cache.get_data(&deploy_stream_key(node_number))
}

/// The events of node `node_number`'s main stream containing `query`, in
/// arrival order, or `None` when that stream was never registered.
pub fn search_events(cache: &SseCache, node_number: i32, query: &str) -> (r: Option<Vec<String>>)
    requires
        cache.wf(),
    ensures
        r is Some <==> cache.spec_registered(spec_event_stream_key(node_number as int)),
        r is Some ==> r.unwrap()@.map_values(|e: String| e@) == spec_matching(
            cache.store_contents(spec_event_stream_key(node_number as int)),
            query@,
        ),
{
    cache.search(&event_stream_key(node_number), query)
}

/// The events of node `node_number`'s deploy stream containing `query`, in
/// arrival order, or `None` when that stream was never registered.
pub fn search_deploys(cache: &SseCache, node_number: i32, query: &str) -> (r: Option<Vec<String>>)
    requires
        cache.wf(),
    ensures
        r is Some <==> cache.spec_registered(spec_deploy_stream_key(node_number as int)),
        r is Some ==> r.unwrap()@.map_values(|e: String| e@) == spec_matching(
            cache.store_contents(spec_deploy_stream_key(node_number as int)),
            query@,
        ),
{
    cache.search(&deploy_stream_key(node_number), query)
}

} // verus!
