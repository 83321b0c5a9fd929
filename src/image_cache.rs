use vstd::prelude::*;

use lru::LruCache;

verus! {

/// Declares `lru::LruCache`, held opaquely.
#[verifier::external_type_specification]
#[verifier::external_body]
#[verifier::reject_recursive_types(K)]
#[verifier::reject_recursive_types(V)]
#[verifier::reject_recursive_types(S)]
pub struct ExLruCache<K, V, S>(LruCache<K, V, S>);

/// Declares the hasher type `lru::LruCache` uses by default, held opaquely.
#[verifier::external_type_specification]
#[verifier::external_body]
pub struct ExLruDefaultHasher(lru::DefaultHasher);

/// What an LRU cache holds: (key, value) pairs, most recently used first.
pub uninterp spec fn lru_entries(c: LruCache<u64, u64>) -> Seq<(u64, u64)>;

/// The capacity an LRU cache was made with.
pub uninterp spec fn lru_capacity(c: LruCache<u64, u64>) -> nat;

/// Some pair of `e` has key `k`.
pub open spec fn has_key(e: Seq<(u64, u64)>, k: u64) -> bool {
    exists|i: int| 0 <= i < e.len() && e[i].0 == k
}

/// The position of key `k` in `e`.
pub open spec fn key_pos(e: Seq<(u64, u64)>, k: u64) -> int {
    choose|i: int| 0 <= i < e.len() && e[i].0 == k
}

/// No key occurs twice.
pub open spec fn keys_unique(e: Seq<(u64, u64)>) -> bool {
    forall|i: int, j: int| 0 <= i < e.len() && 0 <= j < e.len() && i != j ==> e[i].0 != e[j].0
}

/// Well-formed cache contents: unique keys, within capacity.
pub open spec fn lru_ok(e: Seq<(u64, u64)>, cap: nat) -> bool {
    keys_unique(e) && e.len() <= cap && cap > 0
}

/// The contents after pushing `(k, v)`: a present key is updated and moved
/// first; otherwise the pair goes first and, at capacity, the least
/// recently used pair is dropped.
pub open spec fn pushed(e: Seq<(u64, u64)>, cap: nat, k: u64, v: u64) -> Seq<(u64, u64)> {
    if has_key(e, k) {
        seq![(k, v)] + e.remove(key_pos(e, k))
    } else if e.len() == cap {
        seq![(k, v)] + e.drop_last()
    } else {
        seq![(k, v)] + e
    }
}

/// The contents after a `get` of `k`: a present key moves first.
pub open spec fn touched(e: Seq<(u64, u64)>, k: u64) -> Seq<(u64, u64)> {
    if has_key(e, k) {
        seq![e[key_pos(e, k)]] + e.remove(key_pos(e, k))
    } else {
        e
    }
}

/// Relies on `LruCache::new`: an empty cache holding at most `cap` pairs.
#[verifier::external_body]
fn lru_new(cap: usize) -> (r: LruCache<u64, u64>)
    requires
        cap > 0,
    ensures
        lru_entries(r) == Seq::<(u64, u64)>::empty(),
        lru_capacity(r) == cap,
{
    LruCache::new(std::num::NonZeroUsize::new(cap).unwrap())
}

/// Relies on `LruCache::push`: see `pushed`; returns the replaced pair for a
/// present key, the evicted least recently used pair at capacity, else
/// nothing.
#[verifier::external_body]
fn lru_push(c: &mut LruCache<u64, u64>, k: u64, v: u64) -> (r: Option<(u64, u64)>)
    requires
        lru_ok(lru_entries(*old(c)), lru_capacity(*old(c))),
    ensures
        lru_capacity(*final(c)) == lru_capacity(*old(c)),
        lru_entries(*final(c)) == pushed(lru_entries(*old(c)), lru_capacity(*old(c)), k, v),
        r == if has_key(lru_entries(*old(c)), k) {
            Some((k, lru_entries(*old(c))[key_pos(lru_entries(*old(c)), k)].1))
        } else if lru_entries(*old(c)).len() == lru_capacity(*old(c)) {
            Some(lru_entries(*old(c)).last())
        } else {
            None::<(u64, u64)>
        },
{
    c.push(k, v)
}

/// Relies on `LruCache::get`: the value of a present key, which becomes the
/// most recently used.
#[verifier::external_body]
fn lru_get(c: &mut LruCache<u64, u64>, k: u64) -> (r: Option<u64>)
    requires
        lru_ok(lru_entries(*old(c)), lru_capacity(*old(c))),
    ensures
        lru_capacity(*final(c)) == lru_capacity(*old(c)),
        lru_entries(*final(c)) == touched(lru_entries(*old(c)), k),
        r == if has_key(lru_entries(*old(c)), k) {
            Some(lru_entries(*old(c))[key_pos(lru_entries(*old(c)), k)].1)
        } else {
            None::<u64>
        },
{
    c.get(&k).copied()
}

/// Relies on `LruCache::peek`: the value of a present key; the order is
/// left as it was.
#[verifier::external_body]
fn lru_peek(c: &LruCache<u64, u64>, k: u64) -> (r: Option<u64>)
    ensures
        r == if has_key(lru_entries(*c), k) {
            Some(lru_entries(*c)[key_pos(lru_entries(*c), k)].1)
        } else {
            None::<u64>
        },
{
    c.peek(&k).copied()
}

/// Relies on `LruCache::contains`: whether the key is present; the order is
/// left as it was.
#[verifier::external_body]
fn lru_contains(c: &LruCache<u64, u64>, k: u64) -> (r: bool)
    ensures
        r == has_key(lru_entries(*c), k),
{
    c.contains(&k)
}

/// Relies on `LruCache::len`: the number of pairs held.
#[verifier::external_body]
fn lru_len(c: &LruCache<u64, u64>) -> (r: usize)
    ensures
        r == lru_entries(*c).len(),
{
    c.len()
}

/// Cache of decoded images: entry id -> handle of the decoded image, with a
/// fixed capacity and least-recently-used eviction. `peek` does not count
/// as a use; `get` and `insert` do.
pub struct ImageCache {
    cache: LruCache<u64, u64>,
}

impl ImageCache {
    /// The (id, handle) pairs, most recently used first.
    pub closed spec fn entries(&self) -> Seq<(u64, u64)> {
        lru_entries(self.cache)
    }

    /// The capacity.
    pub closed spec fn capacity(&self) -> nat {
        lru_capacity(self.cache)
    }

    /// Unique ids, within capacity.
    pub open spec fn wf(&self) -> bool {
        lru_ok(self.entries(), self.capacity())
    }

    /// A cache holding at most `capacity` images; 0 stands for the default
    /// of 20.
    pub fn new(capacity: usize) -> (r: ImageCache)
        ensures
            r.wf(),
            r.entries() == Seq::<(u64, u64)>::empty(),
            r.capacity() == if capacity == 0 { 20 } else { capacity as nat },
    {
        let cap = if capacity == 0 { 20 } else { capacity };
        ImageCache { cache: lru_new(cap) }
    }

    /// Whether the image of `id` is cached; does not count as a use.
    pub fn contains(&self, id: u64) -> (r: bool)
        ensures
            r == has_key(self.entries(), id),
    {
        lru_contains(&self.cache, id)
    }

    /// Whether a newly selected entry needs a decode request: it is an image
    /// and not cached yet.
    pub fn needs_decode(&self, id: u64, is_image: bool) -> (r: bool)
        ensures
            r == (is_image && !has_key(self.entries(), id)),
    {
        is_image && !self.contains(id)
    }

    /// Cache a decoded image under `id`; returns the handle that left the
    /// cache (the one `id` had, or the evicted least recently used one).
    pub fn insert(&mut self, id: u64, handle: u64) -> (r: Option<u64>)
        requires
            old(self).wf(),
        ensures
            final(self).wf(),
            final(self).capacity() == old(self).capacity(),
            final(self).entries() == pushed(old(self).entries(), old(self).capacity(), id, handle),
            r == if has_key(old(self).entries(), id) {
                Some(old(self).entries()[key_pos(old(self).entries(), id)].1)
            } else if old(self).entries().len() == old(self).capacity() {
                Some(old(self).entries().last().1)
            } else {
                None::<u64>
            },
    {
        let ghost e = self.entries();
        let r = lru_push(&mut self.cache, id, handle);
        proof {
            lemma_pushed_ok(e, self.capacity(), id, handle);
        }
        match r {
            Some(pair) => Some(pair.1),
            None => None,
        }
    }

    /// Take a decode outcome: a decoded image (its handle) is cached, a
    /// failure is not, so a later request can retry. Returns the handle
    /// that left the cache, if any.
    pub fn record_result(&mut self, id: u64, decoded: Option<u64>) -> (r: Option<u64>)
        requires
            old(self).wf(),
        ensures
            final(self).wf(),
            final(self).capacity() == old(self).capacity(),
            decoded is None ==> final(self).entries() == old(self).entries() && r is None,
            decoded matches Some(h) ==> final(self).entries() == pushed(
                old(self).entries(),
                old(self).capacity(),
                id,
                h,
            ),
    {
        match decoded {
            Some(h) => self.insert(id, h),
            None => None,
        }
    }

    /// The handle cached for `id`, counting as a use (moves it first).
    pub fn get(&mut self, id: u64) -> (r: Option<u64>)
        requires
            old(self).wf(),
        ensures
            final(self).wf(),
            final(self).capacity() == old(self).capacity(),
            final(self).entries() == touched(old(self).entries(), id),
            r == if has_key(old(self).entries(), id) {
                Some(old(self).entries()[key_pos(old(self).entries(), id)].1)
            } else {
                None::<u64>
            },
    {
        let ghost e = self.entries();
        let r = lru_get(&mut self.cache, id);
        proof {
            lemma_touched_ok(e, self.capacity(), id);
        }
        r
    }

    /// The handle cached for `id`, without counting as a use.
    pub fn peek(&self, id: u64) -> (r: Option<u64>)
        ensures
            r == if has_key(self.entries(), id) {
                Some(self.entries()[key_pos(self.entries(), id)].1)
            } else {
                None::<u64>
            },
    {
        lru_peek(&self.cache, id)
    }

    /// Number of cached images.
    pub fn len(&self) -> (r: usize)
        ensures
            r == self.entries().len(),
    {
        lru_len(&self.cache)
    }
}

proof fn lemma_pushed_ok(e: Seq<(u64, u64)>, cap: nat, k: u64, v: u64)
    requires
        lru_ok(e, cap),
    ensures
        lru_ok(pushed(e, cap, k, v), cap),
{
    let r = pushed(e, cap, k, v);
    if has_key(e, k) {
        let p = key_pos(e, k);
        let t = e.remove(p);
        assert forall|i: int| 0 <= i < t.len() implies t[i] == e[if i < p { i } else { i + 1 }] by {}
        assert forall|i: int, j: int| 0 <= i < r.len() && 0 <= j < r.len() && i != j implies r[i].0 != r[j].0 by {
            if i > 0 && j > 0 {
                assert(r[i] == t[i - 1] && r[j] == t[j - 1]);
            } else if i == 0 {
                assert(r[j] == t[j - 1]);
            } else {
                assert(r[i] == t[i - 1]);
            }
        }
    } else {
        let t = if e.len() == cap { e.drop_last() } else { e };
        assert(r == seq![(k, v)] + t);
        assert forall|i: int| 0 <= i < t.len() implies t[i] == e[i] by {}
        assert forall|i: int, j: int| 0 <= i < r.len() && 0 <= j < r.len() && i != j implies r[i].0 != r[j].0 by {
            if i > 0 && j > 0 {
                assert(r[i] == t[i - 1] && r[j] == t[j - 1]);
            } else if i == 0 {
                assert(r[j] == t[j - 1]);
            } else {
                assert(r[i] == t[i - 1]);
            }
        }
    }
}

proof fn lemma_touched_ok(e: Seq<(u64, u64)>, cap: nat, k: u64)
    requires
        lru_ok(e, cap),
    ensures
        lru_ok(touched(e, k), cap),
{
    if has_key(e, k) {
        let p = key_pos(e, k);
        let t = e.remove(p);
        let r = touched(e, k);
        assert forall|i: int| 0 <= i < t.len() implies t[i] == e[if i < p { i } else { i + 1 }] by {}
        assert forall|i: int, j: int| 0 <= i < r.len() && 0 <= j < r.len() && i != j implies r[i].0 != r[j].0 by {
            if i > 0 && j > 0 {
                assert(r[i] == t[i - 1] && r[j] == t[j - 1]);
            } else if i == 0 {
                assert(r[j] == t[j - 1]);
            } else {
                assert(r[i] == t[i - 1]);
            }
        }
    }
}

/// The cache contents after pushing each (id, handle) of `ps` in turn.
pub open spec fn pushed_all(e: Seq<(u64, u64)>, cap: nat, ps: Seq<(u64, u64)>) -> Seq<(u64, u64)>
    decreases ps.len(),
{
    if ps.len() == 0 {
        e
    } else {
        pushed(pushed_all(e, cap, ps.drop_last()), cap, ps.last().0, ps.last().1)
    }
}

/// Decoding distinct images into an empty cache of capacity `cap`: it holds
/// `min(count, cap)` of them, the most recently inserted first.
pub proof fn lemma_cache_bound(cap: nat, ps: Seq<(u64, u64)>)
    requires
        cap > 0,
        keys_unique(ps),
    ensures
        pushed_all(Seq::empty(), cap, ps).len() == if ps.len() < cap { ps.len() } else { cap },
        forall|i: int|
            0 <= i < pushed_all(Seq::empty(), cap, ps).len() ==> #[trigger] pushed_all(
                Seq::empty(),
                cap,
                ps,
            )[i] == ps[ps.len() - 1 - i],
    decreases ps.len(),
{
    if ps.len() > 0 {
        let q = ps.drop_last();
        assert forall|i: int, j: int| 0 <= i < q.len() && 0 <= j < q.len() && i != j implies q[i].0 != q[j].0 by {
            assert(q[i] == ps[i] && q[j] == ps[j]);
        }
        lemma_cache_bound(cap, q);
        let e = pushed_all(Seq::empty(), cap, q);
        let k = ps.last().0;
        assert(!has_key(e, k)) by {
            if has_key(e, k) {
                let p = key_pos(e, k);
                assert(e[p] == q[q.len() - 1 - p]);
                assert(ps[q.len() - 1 - p].0 == ps[ps.len() - 1].0);
            }
        }
        let r = pushed_all(Seq::empty(), cap, ps);
        assert(r == pushed(e, cap, k, ps.last().1));
        assert forall|i: int| 0 <= i < r.len() implies #[trigger] r[i] == ps[ps.len() - 1 - i] by {
            if i > 0 {
                assert(r[i] == e[i - 1]);
                assert(e[i - 1] == q[q.len() - 1 - (i - 1)]);
            }
        }
    }
}


/// One use of the cache: inserting a decoded image, or reading one with
/// `get` (a use) or `peek` (not a use).
pub enum CacheUse {
    Insert(u64, u64),
    Get(u64),
    Peek(u64),
}

/// The contents after one use.
pub open spec fn apply_use(e: Seq<(u64, u64)>, cap: nat, u: CacheUse) -> Seq<(u64, u64)> {
    match u {
        CacheUse::Insert(k, v) => pushed(e, cap, k, v),
        CacheUse::Get(k) => touched(e, k),
        CacheUse::Peek(_) => e,
    }
}

/// The contents after a run of uses from an empty cache.
pub open spec fn after_uses(cap: nat, us: Seq<CacheUse>) -> Seq<(u64, u64)>
    decreases us.len(),
{
    if us.len() == 0 {
        Seq::empty()
    } else {
        apply_use(after_uses(cap, us.drop_last()), cap, us.last())
    }
}

/// The ids a run of uses inserted.
pub open spec fn inserted_ids(us: Seq<CacheUse>) -> Set<u64>
    decreases us.len(),
{
    if us.len() == 0 {
        Set::empty()
    } else {
        match us.last() {
            CacheUse::Insert(k, _) => inserted_ids(us.drop_last()).insert(k),
            _ => inserted_ids(us.drop_last()),
        }
    }
}

/// The ids held.
pub open spec fn key_set(e: Seq<(u64, u64)>) -> Set<u64> {
    Set::new(|k: u64| has_key(e, k))
}

proof fn lemma_key_set_len(e: Seq<(u64, u64)>)
    requires
        keys_unique(e),
    ensures
        key_set(e).finite(),
        key_set(e).len() == e.len(),
{
    let ks = e.map_values(|p: (u64, u64)| p.0);
    assert(ks.no_duplicates());
    assert forall|k: u64| #[trigger] ks.to_set().contains(k) <==> key_set(e).contains(k) by {
        if key_set(e).contains(k) {
            let i = choose|i: int| 0 <= i < e.len() && e[i].0 == k;
            assert(ks[i] == k);
        }
        if ks.contains(k) {
            let i = choose|i: int| 0 <= i < ks.len() && ks[i] == k;
            assert(e[i].0 == k);
        }
    }
    assert(ks.to_set() =~= key_set(e));
    ks.unique_seq_to_set();
}

/// What one use does to the ids held and their number.
proof fn lemma_use_step(e: Seq<(u64, u64)>, cap: nat, u: CacheUse)
    requires
        lru_ok(e, cap),
    ensures
        lru_ok(apply_use(e, cap, u), cap),
        forall|k: u64| has_key(apply_use(e, cap, u), k) ==> has_key(e, k) || (u matches CacheUse::Insert(x, _) && x == k),
        apply_use(e, cap, u).len() == match u {
            CacheUse::Insert(k, _) => if has_key(e, k) || e.len() == cap { e.len() } else { e.len() + 1 },
            _ => e.len(),
        },
{
    let r = apply_use(e, cap, u);
    match u {
        CacheUse::Insert(k, v) => {
            lemma_pushed_ok(e, cap, k, v);
            assert forall|x: u64| has_key(r, x) implies has_key(e, x) || x == k by {
                let i = choose|i: int| 0 <= i < r.len() && r[i].0 == x;
                if i > 0 {
                    if has_key(e, k) {
                        let p = key_pos(e, k);
                        let j = if i - 1 < p { i - 1 } else { i };
                        assert(r[i] == e[j]);
                    } else {
                        assert(r[i] == e[i - 1]);
                    }
                }
            }
        },
        CacheUse::Get(k) => {
            lemma_touched_ok(e, cap, k);
            assert forall|x: u64| has_key(r, x) implies has_key(e, x) by {
                let i = choose|i: int| 0 <= i < r.len() && r[i].0 == x;
                if has_key(e, k) {
                    let p = key_pos(e, k);
                    let j = if i == 0 { p } else if i - 1 < p { i - 1 } else { i };
                    assert(r[i] == e[j]);
                }
            }
        },
        CacheUse::Peek(_) => {},
    }
}

/// Any run of inserts, gets and peeks from an empty cache of capacity `cap`
/// leaves it holding `min(distinct ids inserted, cap)` images, all of them
/// inserted ones.
pub proof fn lemma_cache_count(cap: nat, us: Seq<CacheUse>)
    requires
        cap > 0,
    ensures
        lru_ok(after_uses(cap, us), cap),
        inserted_ids(us).finite(),
        key_set(after_uses(cap, us)).subset_of(inserted_ids(us)),
        after_uses(cap, us).len() == if inserted_ids(us).len() < cap {
            inserted_ids(us).len()
        } else {
            cap
        },
    decreases us.len(),
{
    if us.len() > 0 {
        let pre = us.drop_last();
        lemma_cache_count(cap, pre);
        let e = after_uses(cap, pre);
        let d = inserted_ids(pre);
        let u = us.last();
        lemma_use_step(e, cap, u);
        let r = after_uses(cap, us);
        assert(r == apply_use(e, cap, u));
        lemma_key_set_len(e);
        match u {
            CacheUse::Insert(k, v) => {
                let d2 = d.insert(k);
                assert(inserted_ids(us) == d2);
                if !has_key(e, k) && e.len() < cap {
                    assert(e.len() == d.len());
                    if d.contains(k) {
                        assert(key_set(e).insert(k).subset_of(d));
                        vstd::set_lib::lemma_len_subset(key_set(e).insert(k), d);
                        assert(!key_set(e).contains(k));
                    }
                    assert(d2.len() == d.len() + 1);
                } else if !has_key(e, k) {
                    vstd::set_lib::lemma_len_subset(d, d2);
                } else {
                    assert(d.contains(k));
                    assert(d2 =~= d);
                }
            },
            _ => {
                assert(inserted_ids(us) == d);
            },
        }
    }
}

} // verus!
