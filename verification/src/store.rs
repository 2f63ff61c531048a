//! A capacity-limited, insertion-ordered buffer of raw event payloads for
//! one stream key. When an append would exceed the capacity, the single
//! oldest payload is evicted first.

use vstd::prelude::*;

use crate::text::contains_substring;
use crate::text::is_substring;

verus! {

/// The contents of a store after appending `p` to `s` under capacity `cap`:
/// the payload is added at the end, evicting the oldest entry when the
/// store is full (a store of capacity zero stays empty).
pub open spec fn spec_appended(s: Seq<Seq<char>>, p: Seq<char>, cap: nat) -> Seq<Seq<char>> {
    if s.len() < cap {
        s.push(p)
    } else if cap == 0 {
        s
    } else {
        s.drop_first().push(p)
    }
}

/// The subsequence of `s` whose entries contain `q` as a literal substring,
/// in their original order.
pub open spec fn spec_matching(s: Seq<Seq<char>>, q: Seq<char>) -> Seq<Seq<char>>
    decreases s.len(),
{
    if s.len() == 0 {
        Seq::empty()
    } else if is_substring(q, s.last()) {
        spec_matching(s.drop_last(), q).push(s.last())
    } else {
        spec_matching(s.drop_last(), q)
    }
}

/// A bounded, insertion-ordered buffer of event payloads for one stream key.
pub struct BoundedEventStore {
    events: Vec<String>,
    capacity: usize,
}

impl BoundedEventStore {
    /// The stored payloads, oldest first, as sequences of characters.
    pub closed spec fn contents(&self) -> Seq<Seq<char>> {
        self.events@.map_values(|e: String| e@)
    }

    /// The fixed capacity this store was constructed with.
    pub closed spec fn cap(&self) -> nat {
        self.capacity as nat
    }

    /// The store never holds more than its capacity.
    pub closed spec fn wf(&self) -> bool {
        self.events@.len() <= self.capacity
    }

    pub fn new(capacity: usize) -> (s: Self)
        ensures
            s.wf(),
            s.cap() == capacity,
            s.contents() == Seq::<Seq<char>>::empty(),
    {
        let s = BoundedEventStore { events: Vec::new(), capacity };
        proof {
            assert(s.contents() =~= Seq::<Seq<char>>::empty());
        }
        s
    }

    /// Adds `payload` as the newest entry, evicting the single oldest entry
    /// first when the store is at capacity. Always succeeds.
    pub fn append(&mut self, payload: String)
        requires
            old(self).wf(),
        ensures
            final(self).wf(),
            final(self).cap() == old(self).cap(),
            final(self).contents() == spec_appended(
                old(self).contents(),
                payload@,
                old(self).cap(),
            ),
    {
        if self.events.len() == self.capacity {
            if self.capacity == 0 {
                proof {
                    assert(self.contents() =~= spec_appended(
                        old(self).contents(),
                        payload@,
                        old(self).cap(),
                    ));
                }
                return ;
            }
            self.events.remove(0);
            self.events.push(payload);
            proof {
                assert(self.contents() =~= old(self).contents().drop_first().push(payload@));
            }
        } else {
            self.events.push(payload);
            proof {
                assert(self.contents() =~= old(self).contents().push(payload@));
            }
        }
    }

    /// A point-in-time copy of the current contents, oldest first.
    pub fn snapshot(&self) -> (r: Vec<String>)
        ensures
            r@.map_values(|e: String| e@) == self.contents(),
    {
        let mut r: Vec<String> = Vec::new();
        let mut i: usize = 0;
        while i < self.events.len()
            invariant
                i <= self.events@.len(),
                r@ == self.events@.take(i as int),
            decreases self.events@.len() - i,
        {
            r.push(self.events[i].clone());
            proof {
                assert(r@ =~= self.events@.take(i + 1));
            }
            i = i + 1;
        }
        proof {
            assert(self.events@.take(self.events@.len() as int) =~= self.events@);
            assert(r@.map_values(|e: String| e@) =~= self.contents());
        }
        r
    }

    /// The ordered subsequence of current entries containing `query` as a
    /// literal, case-sensitive substring; empty when nothing matches.
    pub fn find(&self, query: &str) -> (r: Vec<String>)
        ensures
            r@.map_values(|e: String| e@) == spec_matching(self.contents(), query@),
    {
        let mut r: Vec<String> = Vec::new();
        let mut i: usize = 0;
        while i < self.events.len()
            invariant
                i <= self.events@.len(),
                r@.map_values(|e: String| e@) == spec_matching(
                    self.contents().take(i as int),
                    query@,
                ),
            decreases self.events@.len() - i,
        {
            proof {
                assert(self.contents().take(i + 1).drop_last() =~= self.contents().take(i as int));
                assert(self.contents().take(i + 1).last() == self.contents()[i as int]);
                assert(self.contents()[i as int] == self.events@[i as int]@);
            }
            if contains_substring(self.events[i].as_str(), query) {
                let ghost prev = r@;
                r.push(self.events[i].clone());
                proof {
                    assert(r@ =~= prev.push(self.events@[i as int]));
                    prev.lemma_push_map_commute(|e: String| e@, self.events@[i as int]);
                    assert(r@.map_values(|e: String| e@) =~= spec_matching(
                        self.contents().take(i as int),
                        query@,
                    ).push(self.contents()[i as int]));
                }
            }
            i = i + 1;
        }
        proof {
            assert(self.contents().take(self.events@.len() as int) =~= self.contents());
        }
        r
    }
}

/// The contents of a store of capacity `cap`, initially `s`, after the
/// payloads of `ps` are appended in order.
pub open spec fn spec_appended_all(s: Seq<Seq<char>>, ps: Seq<Seq<char>>, cap: nat) -> Seq<
    Seq<char>,
>
    decreases ps.len(),
{
    if ps.len() == 0 {
        s
    } else {
        spec_appended(spec_appended_all(s, ps.drop_last(), cap), ps.last(), cap)
    }
}

/// Appending never grows a store beyond its capacity, and the appended
/// payload is the newest entry (for positive capacity): no update is lost
/// to a concurrent reader holding a snapshot taken after the append.
pub proof fn lemma_append_bounded(s: Seq<Seq<char>>, p: Seq<char>, cap: nat)
    requires
        s.len() <= cap,
    ensures
        spec_appended(s, p, cap).len() <= cap,
        cap > 0 ==> spec_appended(s, p, cap).last() == p,
        cap > 0 ==> spec_appended(s, p, cap).len() == if s.len() < cap {
            s.len() + 1
        } else {
            cap as nat
        },
{
}

/// After any sequence of `N > C` appends to an initially empty store of
/// capacity `C > 0`, the store holds exactly the `C` most recent payloads,
/// oldest first.
pub proof fn lemma_store_keeps_most_recent(ps: Seq<Seq<char>>, cap: nat)
    requires
        cap > 0,
        ps.len() > cap,
    ensures
        spec_appended_all(Seq::empty(), ps, cap) == ps.skip(ps.len() - cap),
    decreases ps.len(),
{
    lemma_appended_all_general(Seq::empty(), ps, cap);
    assert(spec_appended_all(Seq::empty(), ps, cap) =~= ps.skip(ps.len() - cap));
}

/// After appending the payloads of `ps` to a well-formed store of capacity
/// `cap > 0`, the store holds the last `min(cap, s.len() + ps.len())`
/// payloads of `s + ps`, in order.
pub proof fn lemma_appended_all_general(s: Seq<Seq<char>>, ps: Seq<Seq<char>>, cap: nat)
    requires
        cap > 0,
        s.len() <= cap,
    ensures
        s.len() + ps.len() <= cap ==> spec_appended_all(s, ps, cap) == s + ps,
        s.len() + ps.len() > cap ==> spec_appended_all(s, ps, cap) == (s + ps).skip(
            s.len() + ps.len() - cap,
        ),
    decreases ps.len(),
{
    if ps.len() == 0 {
        assert(s + ps =~= s);
    } else {
        lemma_appended_all_general(s, ps.drop_last(), cap);
        let prev = spec_appended_all(s, ps.drop_last(), cap);
        if s.len() + ps.len() <= cap {
            assert(prev == s + ps.drop_last());
            assert(prev.push(ps.last()) =~= s + ps);
        } else if s.len() + ps.len() - 1 <= cap {
            assert(prev == s + ps.drop_last());
            if prev.len() < cap {
                assert(prev.push(ps.last()) =~= (s + ps).skip(s.len() + ps.len() - cap));
            } else {
                assert(prev.drop_first().push(ps.last()) =~= (s + ps).skip(
                    s.len() + ps.len() - cap,
                ));
            }
        } else {
            assert(prev == (s + ps.drop_last()).skip(s.len() + ps.len() - 1 - cap));
            assert(prev.len() == cap);
            assert(prev.drop_first().push(ps.last()) =~= (s + ps).skip(s.len() + ps.len() - cap));
        }
    }
}

/// Two payloads appended to an empty store of capacity at least two — in
/// whichever order an interleaving runs them — leave exactly those two
/// payloads, the first appended first: never a singleton, never a
/// duplicate.
pub proof fn lemma_two_appends(x: Seq<char>, y: Seq<char>, cap: nat)
    requires
        cap >= 2,
    ensures
        spec_appended(spec_appended(Seq::empty(), x, cap), y, cap) == seq![x, y],
{
    assert(spec_appended(spec_appended(Seq::empty(), x, cap), y, cap) =~= seq![x, y]);
}

/// Matching entries keep their arrival order: the matches of any prefix of
/// the store are a prefix of the matches of the whole store.
pub proof fn lemma_matching_prefix(s: Seq<Seq<char>>, q: Seq<char>, k: int)
    requires
        0 <= k <= s.len(),
    ensures
        spec_matching(s.take(k), q).is_prefix_of(spec_matching(s, q)),
    decreases s.len(),
{
    if k == s.len() {
        assert(s.take(k) =~= s);
    } else {
        assert(s.take(k) =~= s.drop_last().take(k));
        lemma_matching_prefix(s.drop_last(), q, k);
    }
}

/// Every entry returned by a search contains the query as a literal
/// substring, and matching entries keep their arrival order; a store with
/// no matching entry yields the empty sequence, never an error.
pub proof fn lemma_matching_sound(s: Seq<Seq<char>>, q: Seq<char>)
    ensures
        forall|i: int|
            0 <= i < spec_matching(s, q).len() ==> is_substring(q, spec_matching(s, q)[i]),
        spec_matching(s, q).len() <= s.len(),
        (forall|i: int| 0 <= i < s.len() ==> !is_substring(q, s[i])) ==> spec_matching(s, q)
            == Seq::<Seq<char>>::empty(),
    decreases s.len(),
{
    if s.len() == 0 {
        assert(spec_matching(s, q) =~= Seq::<Seq<char>>::empty());
    } else {
        lemma_matching_sound(s.drop_last(), q);
        assert(forall|i: int| 0 <= i < s.len() - 1 ==> s.drop_last()[i] == s[i]);
        if !(exists|i: int| 0 <= i < s.len() && is_substring(q, s[i]))
            && spec_matching(s, q).len() > 0 {
            assert(is_substring(q, s.last()));
        }
    }
}

} // verus!
