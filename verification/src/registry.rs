//! The stream registry: the set of listeners by key, guaranteeing at most
//! one listener per key. Registering a key that already has a
//! non-terminated listener is a no-op, so duplicate concurrent connections
//! to the same source can never be created.

use vstd::prelude::*;

use crate::listener::ListenerState;

verus! {

/// Tracks the listener of each registered key.
pub struct StreamRegistry {
    entries: Vec<(String, ListenerState)>,
}

impl StreamRegistry {
    /// The registered keys and their listener states, in registration order.
    pub closed spec fn entry_views(&self) -> Seq<(Seq<char>, ListenerState)> {
        self.entries@.map_values(|p: (String, ListenerState)| (p.0@, p.1))
    }

    /// Keys are never duplicated: at most one listener entry per key.
    pub open spec fn wf(&self) -> bool {
        forall|i: int, j: int|
            0 <= i < j < self.entry_views().len() ==> (#[trigger] self.entry_views()[i]).0 != (
            #[trigger] self.entry_views()[j]).0
    }

    /// `k` has an entry, terminated or not.
    pub open spec fn spec_has(&self, k: Seq<char>) -> bool {
        exists|i: int|
            0 <= i < self.entry_views().len() && (#[trigger] self.entry_views()[i]).0 == k
    }

    /// `k` has a non-terminated listener.
    pub open spec fn spec_active(&self, k: Seq<char>) -> bool {
        exists|i: int|
            0 <= i < self.entry_views().len() && (#[trigger] self.entry_views()[i]).0 == k && !(
            self.entry_views()[i].1 is Terminated)
    }

    pub fn new() -> (r: Self)
        ensures
            r.wf(),
            r.entry_views() == Seq::<(Seq<char>, ListenerState)>::empty(),
    {
        let r = StreamRegistry { entries: Vec::new() };
        proof {
            assert(r.entry_views() =~= Seq::<(Seq<char>, ListenerState)>::empty());
        }
        r
    }

    fn index_of(&self, key: &String) -> (r: Option<usize>)
        ensures
            match r {
                Some(i) => i < self.entry_views().len() && self.entry_views()[i as int].0 == key@,
                None => !self.spec_has(key@),
            },
    {
        let mut i: usize = 0;
        while i < self.entries.len()
            invariant
                i <= self.entry_views().len(),
                forall|j: int| 0 <= j < i ==> (#[trigger] self.entry_views()[j]).0 != key@,
            decreases self.entry_views().len() - i,
        {
            if self.entries[i].0.eq(key) {
                return Some(i);
            }
            i = i + 1;
        }
        None
    }

    /// Ensures exactly one listener entry exists for `key`. When `key`
    /// already has a non-terminated listener this is a no-op and returns
    /// `false`; otherwise the listener entry is (re)created in the
    /// `Connecting` state and `true` says a listener task must be started.
    pub fn register(&mut self, key: &String) -> (started: bool)
        requires
            old(self).wf(),
        ensures
            final(self).wf(),
            started == !old(self).spec_active(key@),
            final(self).spec_active(key@),
            old(self).spec_active(key@) ==> final(self).entry_views() == old(self).entry_views(),
            !old(self).spec_has(key@) ==> final(self).entry_views() == old(self).entry_views().push(
                (key@, ListenerState::Connecting),
            ),
            old(self).spec_has(key@) && !old(self).spec_active(key@) ==> exists|i: int|
                0 <= i < old(self).entry_views().len() && (#[trigger] old(self).entry_views()[i]).0 == key@ && final(self).entry_views() == old(self).entry_views().update(i, (key@, ListenerState::Connecting)),
            forall|k2: Seq<char>|
                k2 != key@ ==> #[trigger] final(self).spec_active(k2) == old(self).spec_active(k2),
            forall|k2: Seq<char>|
                k2 != key@ ==> #[trigger] final(self).spec_has(k2) == old(self).spec_has(k2),
    {
        let found = self.index_of(key);
        match found {
            Some(i) => {
                let is_terminated = matches!(self.entries[i].1, ListenerState::Terminated);
                proof {
                    assert(old(self).spec_has(key@));
                    if !is_terminated {
                        assert(old(self).spec_active(key@));
                    } else {
                        assert forall|j: int|
                            0 <= j < old(self).entry_views().len() && (#[trigger] old(self).entry_views()[j]).0 == key@ implies old(self).entry_views()[j].1 is Terminated by {
                            if j != i {
                                assert(old(self).entry_views()[j].0 != old(self).entry_views()[i as int].0);
                            }
                        }
                        assert(!old(self).spec_active(key@));
                    }
                }
                if is_terminated {
                    self.entries[i].1 = ListenerState::Connecting;
                    proof {
                        assert(final(self).entry_views() =~= old(self).entry_views().update(
                            i as int,
                            (key@, ListenerState::Connecting),
                        ));
                        assert(final(self).entry_views()[i as int].0 == key@);
                        assert forall|k2: Seq<char>| k2 != key@ implies #[trigger] final(self).spec_active(k2) == old(self).spec_active(k2) by {
                            lemma_update_other(
                                old(self).entry_views(),
                                final(self).entry_views(),
                                i as int,
                                k2,
                            );
                        }
                        assert forall|k2: Seq<char>| k2 != key@ implies #[trigger] final(self).spec_has(k2) == old(self).spec_has(k2) by {
                            lemma_update_other(
                                old(self).entry_views(),
                                final(self).entry_views(),
                                i as int,
                                k2,
                            );
                        }
                    }
                    true
                } else {
                    false
                }
            },
            None => {
                let ghost prev = self.entries@;
                self.entries.push((key.clone(), ListenerState::Connecting));
                proof {
                    assert(final(self).entry_views() =~= old(self).entry_views().push(
                        (key@, ListenerState::Connecting),
                    ));
                    assert(final(self).entry_views()[old(self).entry_views().len() as int].0
                        == key@);
                    assert forall|k2: Seq<char>| k2 != key@ implies #[trigger] final(self).spec_active(k2) == old(self).spec_active(k2) by {
                        lemma_push_other(
                            old(self).entry_views(),
                            final(self).entry_views(),
                            k2,
                        );
                    }
                    assert forall|k2: Seq<char>| k2 != key@ implies #[trigger] final(self).spec_has(k2) == old(self).spec_has(k2) by {
                        lemma_push_other(old(self).entry_views(), final(self).entry_views(), k2);
                    }
                }
                true
            },
        }
    }

    /// Whether `key` currently has a non-terminated listener.
    pub fn is_active(&self, key: &String) -> (r: bool)
        requires
            self.wf(),
        ensures
            r == self.spec_active(key@),
    {
        let found = self.index_of(key);
        match found {
            Some(i) => {
                let r = !matches!(self.entries[i].1, ListenerState::Terminated);
                proof {
                    if !r {
                        assert forall|j: int|
                            0 <= j < self.entry_views().len() && (#[trigger] self.entry_views()[j]).0
                                == key@ implies self.entry_views()[j].1 is Terminated by {
                            if j != i {
                                assert(self.entry_views()[j].0 != self.entry_views()[i as int].0);
                            }
                        }
                    }
                }
                r
            },
            None => false,
        }
    }

    /// The number of listener entries whose key is `k`.
    pub open spec fn spec_entry_count(&self, k: Seq<char>) -> int {
        spec_count_key(self.entry_views(), k)
    }

    /// Counts the listener entries recorded for `key`: under `wf` at most
    /// one, so a second registration never duplicates a connection.
    pub fn entry_count(&self, key: &String) -> (r: usize)
        ensures
            r == self.spec_entry_count(key@),
    {
        let mut count: usize = 0;
        let mut i: usize = 0;
        while i < self.entries.len()
            invariant
                i <= self.entry_views().len(),
                0 <= count <= i,
                count == spec_count_key(self.entry_views().take(i as int), key@),
            decreases self.entry_views().len() - i,
        {
            proof {
                assert(self.entry_views().take(i + 1).drop_last() =~= self.entry_views().take(
                    i as int,
                ));
                assert(self.entry_views().take(i + 1).last() == self.entry_views()[i as int]);
            }
            if self.entries[i].0.eq(key) {
                count = count + 1;
            }
            i = i + 1;
        }
        proof {
            assert(self.entry_views().take(self.entry_views().len() as int) =~= self.entry_views());
        }
        count
    }

    /// With unique keys, a registered key has exactly one entry.
    pub proof fn lemma_at_most_one_entry(&self, k: Seq<char>)
        requires
            self.wf(),
        ensures
            self.spec_has(k) ==> self.spec_entry_count(k) == 1,
            !self.spec_has(k) ==> self.spec_entry_count(k) == 0,
    {
        lemma_count_key_unique(self.entry_views(), k);
    }
}

/// How many entries of `m` are keyed `k`.
pub open spec fn spec_count_key(m: Seq<(Seq<char>, ListenerState)>, k: Seq<char>) -> int
    decreases m.len(),
{
    if m.len() == 0 {
        0
    } else {
        spec_count_key(m.drop_last(), k) + if m.last().0 == k {
            1int
        } else {
            0int
        }
    }
}

/// With unique keys, the count of a key is one where it occurs, zero where
/// it does not.
proof fn lemma_count_key_unique(m: Seq<(Seq<char>, ListenerState)>, k: Seq<char>)
    requires
        forall|i: int, j: int| 0 <= i < j < m.len() ==> (#[trigger] m[i]).0 != (#[trigger] m[j]).0,
    ensures
        (exists|i: int| 0 <= i < m.len() && (#[trigger] m[i]).0 == k) ==> spec_count_key(m, k) == 1,
        !(exists|i: int| 0 <= i < m.len() && (#[trigger] m[i]).0 == k) ==> spec_count_key(m, k)
            == 0,
    decreases m.len(),
{
    if m.len() > 0 {
        let rest = m.drop_last();
        assert(forall|i: int| 0 <= i < rest.len() ==> rest[i] == m[i]);
        lemma_count_key_unique(rest, k);
        if m.last().0 == k {
            assert(!(exists|i: int| 0 <= i < rest.len() && (#[trigger] rest[i]).0 == k)) by {
                if exists|i: int| 0 <= i < rest.len() && (#[trigger] rest[i]).0 == k {
                    let i = choose|i: int| 0 <= i < rest.len() && (#[trigger] rest[i]).0 == k;
                    assert(m[i].0 != m[m.len() - 1].0);
                }
            }
        } else {
            if exists|i: int| 0 <= i < m.len() && (#[trigger] m[i]).0 == k {
                let i = choose|i: int| 0 <= i < m.len() && (#[trigger] m[i]).0 == k;
                assert(0 <= i < rest.len() && rest[i].0 == k);
            }
        }
    }
}

/// An update at index `i` does not change whether some entry of a different
/// key is present or active, when the entry written at `i` keeps its key.
proof fn lemma_update_other(
    before: Seq<(Seq<char>, ListenerState)>,
    after: Seq<(Seq<char>, ListenerState)>,
    i: int,
    k2: Seq<char>,
)
    requires
        0 <= i < before.len(),
        after == before.update(i, (before[i].0, ListenerState::Connecting)),
        k2 != before[i].0,
    ensures
        (exists|j: int| 0 <= j < after.len() && (#[trigger] after[j]).0 == k2) == (exists|j: int|
            0 <= j < before.len() && (#[trigger] before[j]).0 == k2),
        (exists|j: int|
            0 <= j < after.len() && (#[trigger] after[j]).0 == k2 && !(after[j].1 is Terminated))
            == (exists|j: int|
            0 <= j < before.len() && (#[trigger] before[j]).0 == k2 && !(
            before[j].1 is Terminated)),
{
    assert(forall|j: int| 0 <= j < after.len() && j != i ==> after[j] == before[j]);
    assert(after[i].0 == before[i].0);
}

/// Pushing an entry of another key does not change whether some entry of
/// key `k2` is present or active.
proof fn lemma_push_other(
    before: Seq<(Seq<char>, ListenerState)>,
    after: Seq<(Seq<char>, ListenerState)>,
    k2: Seq<char>,
)
    requires
        after.len() == before.len() + 1,
        forall|j: int| 0 <= j < before.len() ==> after[j] == before[j],
        after.last().0 != k2,
    ensures
        (exists|j: int| 0 <= j < after.len() && (#[trigger] after[j]).0 == k2) == (exists|j: int|
            0 <= j < before.len() && (#[trigger] before[j]).0 == k2),
        (exists|j: int|
            0 <= j < after.len() && (#[trigger] after[j]).0 == k2 && !(after[j].1 is Terminated))
            == (exists|j: int|
            0 <= j < before.len() && (#[trigger] before[j]).0 == k2 && !(
            before[j].1 is Terminated)),
{
}

} // verus!
