//! The dispatch table: route keys mapped to handlers, kept sorted by key, and
//! a default handler for every key that is not registered.

use crate::route::{compare_to_key, key_lt, lemma_key_lt_total, lemma_key_lt_transitive, KeyView, RouteKey};
use core::cmp::Ordering;
use vstd::prelude::*;

verus! {

/// A list of registrations as keys and handlers.
pub open spec fn route_views<H>(routes: Seq<(RouteKey, H)>) -> Seq<(KeyView, H)> {
    routes.map_values(|r: (RouteKey, H)| (r.0@, r.1))
}

/// The mapping that registering `routes` in order gives: a later registration
/// of a key replaces an earlier one.
pub open spec fn routes_map<H>(routes: Seq<(KeyView, H)>) -> Map<KeyView, H>
    decreases routes.len(),
{
    if routes.len() == 0 {
        Map::empty()
    } else {
        routes_map(routes.drop_last()).insert(routes.last().0, routes.last().1)
    }
}

/// The handler a request with key `k` goes to: the one registered under `k`,
/// else the default.
pub open spec fn select<H>(routes: Map<KeyView, H>, default: H, k: KeyView) -> H {
    if routes.contains_key(k) {
        routes[k]
    } else {
        default
    }
}

/// Entry `i` of `entries` has key `k`.
pub open spec fn has_key_at<H>(entries: Seq<(RouteKey, H)>, i: int, k: KeyView) -> bool {
    0 <= i < entries.len() && entries[i].0@ == k
}

/// Keys strictly increase along the entries.
pub open spec fn sorted_keys<H>(entries: Seq<(RouteKey, H)>) -> bool {
    forall|i: int, j: int|
        0 <= i < j < entries.len() ==> #[trigger] key_lt(entries[i].0@, entries[j].0@)
}

/// A request whose key was registered goes to the handler of the last
/// registration of that key, and to no other.
pub proof fn lemma_registered_key_selected<H>(routes: Seq<(KeyView, H)>, default: H, j: int)
    requires
        0 <= j < routes.len(),
        forall|l: int| j < l < routes.len() ==> #[trigger] routes[l].0 != routes[j].0,
    ensures
        routes_map(routes).contains_key(routes[j].0),
        select(routes_map(routes), default, routes[j].0) == routes[j].1,
    decreases routes.len(),
{
    if j < routes.len() - 1 {
        let rest = routes.drop_last();
        assert forall|l: int| j < l < rest.len() implies #[trigger] rest[l].0 != rest[j].0 by {
            assert(routes[l].0 != routes[j].0);
        }
        lemma_registered_key_selected(rest, default, j);
        assert(routes[routes.len() - 1].0 != routes[j].0);
    }
}

/// A request whose key no registration names goes to the default handler,
/// whatever its method or path.
pub proof fn lemma_unregistered_key_default<H>(routes: Seq<(KeyView, H)>, default: H, k: KeyView)
    requires
        forall|l: int| 0 <= l < routes.len() ==> #[trigger] routes[l].0 != k,
    ensures
        !routes_map(routes).contains_key(k),
        select(routes_map(routes), default, k) == default,
    decreases routes.len(),
{
    if routes.len() > 0 {
        let rest = routes.drop_last();
        assert forall|l: int| 0 <= l < rest.len() implies #[trigger] rest[l].0 != k by {
            assert(routes[l].0 != k);
        }
        lemma_unregistered_key_default(rest, default, k);
        assert(routes[routes.len() - 1].0 != k);
    }
}

/// Matching is exact: a key is matched only when a registration names that
/// very method and path, with no folding of case or trailing slashes.
pub proof fn lemma_match_is_exact<H>(routes: Seq<(KeyView, H)>, k: KeyView)
    ensures
        routes_map(routes).contains_key(k) == exists|l: int| 0 <= l < routes.len() && #[trigger] routes[l].0 == k,
    decreases routes.len(),
{
    if routes.len() > 0 {
        let rest = routes.drop_last();
        lemma_match_is_exact(rest, k);
        if exists|l: int| 0 <= l < rest.len() && #[trigger] rest[l].0 == k {
            let l = choose|l: int| 0 <= l < rest.len() && #[trigger] rest[l].0 == k;
            assert(routes[l].0 == k);
        }
        if exists|l: int| 0 <= l < routes.len() && #[trigger] routes[l].0 == k {
            let l = choose|l: int| 0 <= l < routes.len() && #[trigger] routes[l].0 == k;
            if l < rest.len() {
                assert(rest[l].0 == k);
            }
        }
    }
}

/// Registering a key twice leaves only the later handler reachable.
pub proof fn lemma_later_registration_wins<H>(routes: Seq<(KeyView, H)>, default: H, i: int, j: int)
    requires
        0 <= i < j < routes.len(),
        routes[i].0 == routes[j].0,
        forall|l: int| j < l < routes.len() ==> #[trigger] routes[l].0 != routes[j].0,
    ensures
        select(routes_map(routes), default, routes[i].0) == routes[j].1,
        routes[i].1 != routes[j].1 ==> select(routes_map(routes), default, routes[i].0) != routes[i].1,
{
    lemma_registered_key_selected(routes, default, j);
}

/// An immutable-after-startup routing table: handlers by route key, and a
/// default handler for keys that have none.
pub struct DispatchTable<H> {
    entries: Vec<(RouteKey, H)>,
    default: H,
}

impl<H> View for DispatchTable<H> {
    type V = Map<KeyView, H>;

    /// The registered handlers by key.
    closed spec fn view(&self) -> Map<KeyView, H> {
        Map::new(
            |k: KeyView| exists|i: int| has_key_at(self.entries@, i, k),
            |k: KeyView| self.entries@[choose|i: int| has_key_at(self.entries@, i, k)].1,
        )
    }
}

impl<H> DispatchTable<H> {
    /// The handler for requests that match no registered key.
    pub closed spec fn default_handler(&self) -> H {
        self.default
    }

    /// The entries are sorted by key, so each key occurs once.
    pub closed spec fn wf(&self) -> bool {
        sorted_keys(self.entries@)
    }

    /// The handler a request with key `k` goes to.
    pub open spec fn handler_for(&self, k: KeyView) -> H {
        select(self@, self.default_handler(), k)
    }

    proof fn lemma_entry(&self, i: int)
        requires
            self.wf(),
            0 <= i < self.entries@.len(),
        ensures
            self@.contains_key(self.entries@[i].0@),
            self@[self.entries@[i].0@] == self.entries@[i].1,
    {
        let k = self.entries@[i].0@;
        assert(has_key_at(self.entries@, i, k));
        let j = choose|j: int| has_key_at(self.entries@, j, k);
        lemma_key_lt_total(k, k);
        if j < i {
            assert(key_lt(self.entries@[j].0@, self.entries@[i].0@));
        } else if i < j {
            assert(key_lt(self.entries@[i].0@, self.entries@[j].0@));
        }
    }

    /// A table with no routes.
    pub fn new(default: H) -> (r: DispatchTable<H>)
        ensures
            r.wf(),
            r@ == Map::<KeyView, H>::empty(),
            r.default_handler() == default,
    {
        let r = DispatchTable { entries: Vec::new(), default };
        assert(r@ =~= Map::<KeyView, H>::empty());
        r
    }

    /// The number of registered keys.
    pub fn len(&self) -> (n: usize)
        requires
            self.wf(),
        ensures
            n == self@.len(),
    {
        proof {
            self.lemma_len();
        }
        self.entries.len()
    }

    proof fn lemma_len(&self)
        requires
            self.wf(),
        ensures
            self@.len() == self.entries@.len(),
            self@.dom().finite(),
    {
        let keys = self.entries@.map_values(|e: (RouteKey, H)| e.0@);
        assert forall|k: KeyView| self@.dom().contains(k) == keys.to_set().contains(k) by {
            if self@.dom().contains(k) {
                let i = choose|i: int| has_key_at(self.entries@, i, k);
                assert(keys[i] == k);
            }
            if keys.to_set().contains(k) {
                let i = choose|i: int| 0 <= i < keys.len() && keys[i] == k;
                assert(has_key_at(self.entries@, i, k));
            }
        }
        assert(self@.dom() =~= keys.to_set());
        assert forall|i: int, j: int| 0 <= i < keys.len() && 0 <= j < keys.len() && i != j
            implies keys[i] != keys[j] by {
            lemma_key_lt_total(keys[i], keys[i]);
            if i < j {
                assert(key_lt(self.entries@[i].0@, self.entries@[j].0@));
            } else {
                assert(key_lt(self.entries@[j].0@, self.entries@[i].0@));
            }
        }
        assert(keys.no_duplicates());
        keys.unique_seq_to_set();
    }

    /// Binary search for a key: `Ok` with its index, or `Err` with the index
    /// where it would be inserted.
    fn find(&self, method: &str, path: &str) -> (r: Result<usize, usize>)
        requires
            self.wf(),
        ensures
            match r {
                Ok(i) => has_key_at(self.entries@, i as int, (method@, path@)),
                Err(i) => {
                    &&& i <= self.entries@.len()
                    &&& forall|j: int| 0 <= j < i ==> key_lt(#[trigger] self.entries@[j].0@, (method@, path@))
                    &&& forall|j: int| i <= j < self.entries@.len() ==> key_lt((method@, path@), #[trigger] self.entries@[j].0@)
                },
            },
    {
        let ghost k: KeyView = (method@, path@);
        let mut lo: usize = 0;
        let mut hi: usize = self.entries.len();
        while lo < hi
            invariant
                self.wf(),
                k == (method@, path@),
                lo <= hi <= self.entries@.len(),
                forall|j: int| 0 <= j < lo ==> key_lt(#[trigger] self.entries@[j].0@, k),
                forall|j: int| hi <= j < self.entries@.len() ==> key_lt(k, #[trigger] self.entries@[j].0@),
            decreases hi - lo,
        {
            let mid = lo + (hi - lo) / 2;
            let c = compare_to_key(method, path, &self.entries[mid].0);
            match c {
                Ordering::Equal => {
                    return Ok(mid);
                },
                Ordering::Greater => {
                    assert(key_lt(self.entries@[mid as int].0@, k));
                    assert forall|j: int| 0 <= j <= mid implies key_lt(#[trigger] self.entries@[j].0@, k) by {
                        if j < mid {
                            assert(key_lt(self.entries@[j].0@, self.entries@[mid as int].0@));
                            lemma_key_lt_transitive(self.entries@[j].0@, self.entries@[mid as int].0@, k);
                        }
                    }
                    lo = mid + 1;
                },
                Ordering::Less => {
                    assert(key_lt(k, self.entries@[mid as int].0@));
                    assert forall|j: int| mid <= j < self.entries@.len() implies key_lt(k, #[trigger] self.entries@[j].0@) by {
                        if mid < j {
                            assert(key_lt(self.entries@[mid as int].0@, self.entries@[j].0@));
                            lemma_key_lt_transitive(k, self.entries@[mid as int].0@, self.entries@[j].0@);
                        }
                    }
                    hi = mid;
                },
            }
        }
        Err(lo)
    }

    /// The handler registered under a method and a path, if any.
    pub fn lookup(&self, method: &str, path: &str) -> (r: Option<&H>)
        requires
            self.wf(),
        ensures
            match r {
                Some(h) => self@.contains_key((method@, path@)) && *h == self@[(method@, path@)],
                None => !self@.contains_key((method@, path@)),
            },
    {
        match self.find(method, path) {
            Ok(i) => {
                proof {
                    self.lemma_entry(i as int);
                }
                Some(&self.entries[i].1)
            },
            Err(i) => {
                proof {
                    let k = (method@, path@);
                    if self@.contains_key(k) {
                        let j = choose|j: int| has_key_at(self.entries@, j, k);
                        lemma_key_lt_total(k, k);
                        if j < i {
                            assert(key_lt(self.entries@[j].0@, k));
                        } else {
                            assert(key_lt(k, self.entries@[j].0@));
                        }
                    }
                }
                None
            },
        }
    }

    /// The handler a request with this method and path goes to: the one
    /// registered under exactly that key, else the default.
    pub fn dispatch(&self, method: &str, path: &str) -> (r: &H)
        requires
            self.wf(),
        ensures
            *r == self.handler_for((method@, path@)),
    {
        match self.lookup(method, path) {
            Some(h) => h,
            None => &self.default,
        }
    }

    /// Registers `handler` under `key`; a handler already registered under
    /// that key is replaced.
    pub fn insert(&mut self, key: RouteKey, handler: H)
        requires
            old(self).wf(),
        ensures
            final(self).wf(),
            final(self)@ == old(self)@.insert(key@, handler),
            final(self).default_handler() == old(self).default_handler(),
    {
        let ghost k: KeyView = key@;
        let ghost before = self.entries@;
        let found = self.find(key.method.as_str(), key.path.as_str());
        match found {
            Ok(i) => {
                self.entries.set(i, (key, handler));
                proof {
                    let after = self.entries@;
                    assert forall|a: int, b: int| 0 <= a < b < after.len()
                        implies #[trigger] key_lt(after[a].0@, after[b].0@) by {
                        assert(key_lt(before[a].0@, before[b].0@));
                    }
                    assert forall|k2: KeyView| #[trigger] self@.contains_key(k2) == old(self)@.insert(k, handler).contains_key(k2) by {
                        if exists|j: int| has_key_at(before, j, k2) {
                            let j = choose|j: int| has_key_at(before, j, k2);
                            assert(has_key_at(after, j, k2));
                        }
                        if exists|j: int| has_key_at(after, j, k2) {
                            let j = choose|j: int| has_key_at(after, j, k2);
                            assert(has_key_at(before, j, k2));
                        }
                    }
                    assert forall|k2: KeyView| #[trigger] self@.contains_key(k2)
                        implies self@[k2] == old(self)@.insert(k, handler)[k2] by {
                        let j = choose|j: int| has_key_at(after, j, k2);
                        self.lemma_entry(j);
                        if j != i {
                            old(self).lemma_entry(j);
                            lemma_key_lt_total(k, k);
                            if j < i {
                                assert(key_lt(before[j].0@, before[i as int].0@));
                            } else {
                                assert(key_lt(before[i as int].0@, before[j].0@));
                            }
                        }
                    }
                    assert(self@ =~= old(self)@.insert(k, handler));
                }
            },
            Err(i) => {
                self.entries.insert(i, (key, handler));
                proof {
                    let after = self.entries@;
                    assert forall|a: int, b: int| 0 <= a < b < after.len()
                        implies #[trigger] key_lt(after[a].0@, after[b].0@) by {
                        if b < i {
                            assert(key_lt(before[a].0@, before[b].0@));
                        } else if b == i {
                            assert(key_lt(before[a].0@, k));
                        } else if a < i {
                            assert(key_lt(before[a].0@, k));
                            assert(key_lt(k, before[b - 1].0@));
                            lemma_key_lt_transitive(before[a].0@, k, before[b - 1].0@);
                        } else if a == i {
                            assert(key_lt(k, before[b - 1].0@));
                        } else {
                            assert(key_lt(before[a - 1].0@, before[b - 1].0@));
                        }
                    }
                    assert forall|k2: KeyView| #[trigger] self@.contains_key(k2) == old(self)@.insert(k, handler).contains_key(k2) by {
                        if exists|j: int| has_key_at(before, j, k2) {
                            let j = choose|j: int| has_key_at(before, j, k2);
                            if j < i {
                                assert(has_key_at(after, j, k2));
                            } else {
                                assert(has_key_at(after, j + 1, k2));
                            }
                        }
                        assert(has_key_at(after, i as int, k));
                        if exists|j: int| has_key_at(after, j, k2) {
                            let j = choose|j: int| has_key_at(after, j, k2);
                            if j < i {
                                assert(has_key_at(before, j, k2));
                            } else if j > i {
                                assert(has_key_at(before, j - 1, k2));
                            }
                        }
                    }
                    assert forall|k2: KeyView| #[trigger] self@.contains_key(k2)
                        implies self@[k2] == old(self)@.insert(k, handler)[k2] by {
                        let j = choose|j: int| has_key_at(after, j, k2);
                        self.lemma_entry(j);
                        lemma_key_lt_total(k, k);
                        if j < i {
                            old(self).lemma_entry(j);
                            assert(key_lt(k2, k));
                        } else if j > i {
                            old(self).lemma_entry(j - 1);
                            assert(key_lt(k, k2));
                        }
                    }
                    assert(self@ =~= old(self)@.insert(k, handler));
                }
            },
        }
    }

    /// Builds a table from registrations taken in order, a later registration
    /// of a key replacing an earlier one, and a default handler.
    pub fn from_routes(routes: Vec<(RouteKey, H)>, default: H) -> (r: DispatchTable<H>)
        ensures
            r.wf(),
            r@ == routes_map(route_views(routes@)),
            r.default_handler() == default,
    {
        let ghost all = route_views(routes@);
        let mut table = DispatchTable::new(default);
        let mut rest = routes;
        let ghost mut done: int = 0;
        assert(all.take(0) =~= Seq::<(KeyView, H)>::empty());
        while rest.len() > 0
            invariant
                0 <= done <= all.len(),
                route_views(rest@) == all.skip(done),
                table.wf(),
                table@ == routes_map(all.take(done)),
                table.default_handler() == default,
            decreases rest@.len(),
        {
            let ghost rest_before = rest@;
            let entry = rest.remove(0);
            let (key, handler) = entry;
            proof {
                assert(route_views(rest_before).len() == rest_before.len());
                assert(entry == rest_before[0]);
                assert(all.skip(done)[0] == all[done]);
                assert(route_views(rest_before)[0] == (rest_before[0].0@, rest_before[0].1));
                assert(route_views(rest_before)[0] == all.skip(done)[0]);
                assert(all[done] == (key@, handler));
                assert forall|x: int| 0 <= x < rest@.len()
                    implies #[trigger] route_views(rest@)[x] == all.skip(done + 1)[x] by {
                    assert(rest@[x] == rest_before[x + 1]);
                    assert(route_views(rest@)[x] == (rest@[x].0@, rest@[x].1));
                    assert(route_views(rest_before)[x + 1] == (rest_before[x + 1].0@, rest_before[x + 1].1));
                    assert(route_views(rest_before)[x + 1] == all.skip(done)[x + 1]);
                }
                assert(route_views(rest@) =~= all.skip(done + 1));
            }
            table.insert(key, handler);
            proof {
                assert(all.take(done + 1).drop_last() =~= all.take(done));
                done = done + 1;
            }
        }
        assert(all.take(done) =~= all);
        table
    }

    /// The default handler.
    pub fn default_ref(&self) -> (r: &H)
        ensures
            *r == self.default_handler(),
    {
        &self.default
    }
}

} // verus!
