use vstd::prelude::*;

use std::collections::{HashMap, HashSet};

use crate::clip::{clock_now, fresh_entry, opt_view, ClipContent, ClipEntry, EntryModel};

verus! {

/// The values of a run of entries.
pub open spec fn models(s: Seq<ClipEntry>) -> Seq<EntryModel> {
    s.map_values(|e: ClipEntry| e@)
}

/// No two entries share an id or a content hash (I2), and every id is below
/// the counter.
pub open spec fn ledger_wf(s: Seq<EntryModel>, next_id: u64) -> bool {
    &&& forall|i: int, j: int|
        0 <= i < s.len() && 0 <= j < s.len() && i != j ==> s[i].id != s[j].id
    &&& forall|i: int, j: int|
        0 <= i < s.len() && 0 <= j < s.len() && i != j ==> s[i].content_hash
            != s[j].content_hash
    &&& forall|i: int| 0 <= i < s.len() ==> s[i].id < next_id
}

/// Some entry of `s` has content hash `h`.
pub open spec fn has_hash(s: Seq<EntryModel>, h: u64) -> bool {
    exists|i: int| 0 <= i < s.len() && s[i].content_hash == h
}

/// The position of the entry with content hash `h`.
pub open spec fn hash_pos(s: Seq<EntryModel>, h: u64) -> int {
    choose|i: int| 0 <= i < s.len() && s[i].content_hash == h
}

/// Some entry of `s` has id `id`.
pub open spec fn has_id(s: Seq<EntryModel>, id: u64) -> bool {
    exists|i: int| 0 <= i < s.len() && s[i].id == id
}

/// The position of the entry with id `id`.
pub open spec fn id_pos(s: Seq<EntryModel>, id: u64) -> int {
    choose|i: int| 0 <= i < s.len() && s[i].id == id
}

/// The entries that survive clearing: the protected ones, in order.
pub open spec fn protected_only() -> spec_fn(EntryModel) -> bool {
    |e: EntryModel| e.is_protected()
}

/// The pinned ones, in order.
pub open spec fn pinned_only() -> spec_fn(EntryModel) -> bool {
    |e: EntryModel| e.pinned
}

/// `m` maps exactly the content hashes of `s` to their entries' ids.
pub open spec fn indexes(m: Map<u64, u64>, s: Seq<EntryModel>) -> bool {
    &&& forall|h: u64| #[trigger] m.contains_key(h) <==> has_hash(s, h)
    &&& forall|i: int| 0 <= i < s.len() ==> m[#[trigger] s[i].content_hash] == s[i].id
}

/// `m` maps exactly the content hashes of `s`, each to the id of the last
/// entry of `s` that has it.
pub open spec fn index_of_last(m: Map<u64, u64>, s: Seq<EntryModel>) -> bool {
    &&& forall|h: u64| #[trigger] m.contains_key(h) <==> has_hash(s, h)
    &&& forall|i: int|
        0 <= i < s.len() && (forall|j: int| i < j < s.len() ==> s[j].content_hash != s[i].content_hash)
            ==> m[#[trigger] s[i].content_hash] == s[i].id
}

/// Rotation: walking from the most recent entry, keep every protected entry
/// and the first `budget` unprotected ones; drop the older unprotected ones.
pub open spec fn rotated(s: Seq<EntryModel>, budget: nat) -> Seq<EntryModel>
    decreases s.len(),
{
    if s.len() == 0 {
        s
    } else if s[0].is_protected() {
        seq![s[0]] + rotated(s.drop_first(), budget)
    } else if budget > 0 {
        seq![s[0]] + rotated(s.drop_first(), (budget - 1) as nat)
    } else {
        rotated(s.drop_first(), budget)
    }
}

/// The ledger after capturing `c` at `now`: a duplicate (same content hash)
/// is touched and moved to the front under its own id; new content gets the
/// next id at the front, then rotation runs. Yields the entries, the next id
/// counter and the id returned.
pub open spec fn after_insert(
    s: Seq<EntryModel>,
    next_id: u64,
    max_entries: nat,
    c: crate::clip::ContentModel,
    name: Option<Seq<char>>,
    description: Option<Seq<char>>,
    now: u64,
) -> (Seq<EntryModel>, u64, u64) {
    let h = c.hash();
    if has_hash(s, h) {
        let i = hash_pos(s, h);
        (seq![s[i].touched(name, description, now)] + s.remove(i), next_id, s[i].id)
    } else {
        (
            rotated(seq![fresh_entry(next_id, c, name, description, now)] + s, max_entries),
            (next_id + 1) as u64,
            next_id,
        )
    }
}

/// Rotation keeps a subsequence: everything it keeps was there, and every
/// protected entry is kept.
pub proof fn lemma_rotated_keeps(s: Seq<EntryModel>, budget: nat)
    ensures
        forall|x: EntryModel| #[trigger] rotated(s, budget).contains(x) ==> s.contains(x),
        forall|i: int| 0 <= i < s.len() && s[i].is_protected() ==> #[trigger] rotated(s, budget).contains(s[i]),
        rotated(s, budget).len() <= s.len(),
    decreases s.len(),
{
    if s.len() > 0 {
        let t = s.drop_first();
        let b2: nat = if !s[0].is_protected() && budget > 0 { (budget - 1) as nat } else { budget };
        lemma_rotated_keeps(t, b2);
        let r = rotated(s, budget);
        let rt = rotated(t, b2);
        let kept = s[0].is_protected() || budget > 0;
        if kept {
            assert(r == seq![s[0]] + rt);
        } else {
            assert(r == rt);
        }
        assert forall|x: EntryModel| #[trigger] r.contains(x) implies s.contains(x) by {
            let i = choose|i: int| 0 <= i < r.len() && r[i] == x;
            if kept && i == 0 {
                assert(s[0] == x);
            } else {
                let i2 = if kept { i - 1 } else { i };
                assert(rt[i2] == x);
                assert(rt.contains(x));
                let q = choose|q: int| 0 <= q < t.len() && t[q] == x;
                assert(s[q + 1] == x);
            }
        }
        assert forall|i: int| 0 <= i < s.len() && s[i].is_protected() implies #[trigger] r.contains(s[i]) by {
            if i == 0 {
                assert(r[0] == s[0]);
            } else {
                assert(t[i - 1] == s[i]);
                assert(rt.contains(s[i]));
                let q = choose|q: int| 0 <= q < rt.len() && rt[q] == s[i];
                if kept {
                    assert(r[q + 1] == s[i]);
                } else {
                    assert(r[q] == s[i]);
                }
            }
        }
    }
}

/// Number of entries that are neither pinned nor registered.
pub open spec fn unprotected_count(s: Seq<EntryModel>) -> nat
    decreases s.len(),
{
    if s.len() == 0 {
        0
    } else {
        (if s[0].is_protected() { 0nat } else { 1nat }) + unprotected_count(s.drop_first())
    }
}

/// Rotation keeps the ledger's uniqueness.
pub proof fn lemma_rotated_wf(s: Seq<EntryModel>, budget: nat, next_id: u64)
    requires
        ledger_wf(s, next_id),
    ensures
        ledger_wf(rotated(s, budget), next_id),
    decreases s.len(),
{
    if s.len() > 0 {
        let t = s.drop_first();
        let b2: nat = if !s[0].is_protected() && budget > 0 { (budget - 1) as nat } else { budget };
        assert forall|i: int| 0 <= i < t.len() implies t[i] == s[i + 1] by {}
        lemma_rotated_wf(t, b2, next_id);
        lemma_rotated_keeps(t, b2);
        let rt = rotated(t, b2);
        if s[0].is_protected() || budget > 0 {
            let r = seq![s[0]] + rt;
            assert(rotated(s, budget) == r);
            assert forall|i: int| 0 < i < r.len() implies r[i].id != s[0].id && r[i].content_hash != s[0].content_hash by {
                assert(r[i] == rt[i - 1]);
                assert(rt.contains(rt[i - 1]));
                let q = choose|q: int| 0 <= q < t.len() && t[q] == rt[i - 1];
                assert(s[q + 1] == r[i]);
            }
            assert forall|i: int, j: int| 0 <= i < r.len() && 0 <= j < r.len() && i != j implies r[i].id != r[j].id && r[i].content_hash != r[j].content_hash by {
                if i > 0 && j > 0 {
                    assert(r[i] == rt[i - 1] && r[j] == rt[j - 1]);
                }
            }
            assert forall|i: int| 0 <= i < r.len() implies r[i].id < next_id by {
                if i > 0 {
                    assert(r[i] == rt[i - 1]);
                }
            }
        }
    }
}

/// Rotation keeps every protected entry, keeps nothing new, and leaves
/// exactly `min(unprotected, budget)` unprotected entries.
pub proof fn lemma_rotation_protects(s: Seq<EntryModel>, budget: nat)
    ensures
        unprotected_count(rotated(s, budget)) == if unprotected_count(s) < budget {
            unprotected_count(s)
        } else {
            budget
        },
        forall|i: int| 0 <= i < s.len() && s[i].is_protected() ==> #[trigger] rotated(s, budget).contains(s[i]),
        forall|x: EntryModel| #[trigger] rotated(s, budget).contains(x) ==> s.contains(x),
    decreases s.len(),
{
    lemma_rotated_keeps(s, budget);
    if s.len() > 0 {
        let t = s.drop_first();
        let b2: nat = if !s[0].is_protected() && budget > 0 { (budget - 1) as nat } else { budget };
        lemma_rotation_protects(t, b2);
        let rt = rotated(t, b2);
        if s[0].is_protected() || budget > 0 {
            let r = seq![s[0]] + rt;
            assert(r.drop_first() =~= rt);
            assert(r[0] == s[0]);
        }
    }
}

/// A map sending each content hash of `s` to its entry's id.
pub open spec fn canonical_index(s: Seq<EntryModel>) -> Map<u64, u64> {
    Map::new(|h: u64| has_hash(s, h), |h: u64| s[hash_pos(s, h)].id)
}

proof fn lemma_canonical_index(s: Seq<EntryModel>, next_id: u64)
    requires
        ledger_wf(s, next_id),
    ensures
        indexes(canonical_index(s), s),
{
    assert forall|i: int| 0 <= i < s.len() implies canonical_index(s)[#[trigger] s[i].content_hash] == s[i].id by {
        assert(has_hash(s, s[i].content_hash));
        let q = hash_pos(s, s[i].content_hash);
        assert(s[q].content_hash == s[i].content_hash);
    }
}

/// Recording a capture keeps the ledger's uniqueness; the entry for the
/// capture's hash comes first with the returned id, unless rotation with a
/// zero cap dropped a new one.
pub proof fn lemma_insert_wf(
    s: Seq<EntryModel>,
    next_id: u64,
    max_entries: nat,
    c: crate::clip::ContentModel,
    name: Option<Seq<char>>,
    description: Option<Seq<char>>,
    now: u64,
)
    requires
        ledger_wf(s, next_id),
        next_id < u64::MAX || has_hash(s, c.hash()),
    ensures
        ({
            let (s1, n1, id1) = after_insert(s, next_id, max_entries, c, name, description, now);
            &&& ledger_wf(s1, n1)
            &&& (has_hash(s, c.hash()) || max_entries > 0) ==> s1.len() > 0 && s1[0].id == id1
                && s1[0].content_hash == c.hash() && s1[0].timestamp == now
        }),
{
    let m = canonical_index(s);
    lemma_canonical_index(s, next_id);
    let h = c.hash();
    if has_hash(s, h) {
        let p = hash_pos(s, h);
        lemma_move_front(s, p, s[p].touched(name, description, now), m, next_id);
    } else {
        let e = fresh_entry(next_id, c, name, description, now);
        lemma_add_front(s, e, m, next_id);
        lemma_rotated_wf(seq![e] + s, max_entries, (next_id + 1) as u64);
        if max_entries > 0 {
            let t = seq![e] + s;
            assert(t[0] == e);
            assert(rotated(t, max_entries) == seq![t[0]] + rotated(t.drop_first(), (max_entries - 1) as nat));
        }
    }
}

/// Capturing the same content twice: the second capture returns the same
/// id, consumes no id, adds no entry, and leaves that entry first with the
/// later time as the only entry with that content hash. (With a zero cap a
/// new entry is dropped at once, so the cap must be positive.)
pub proof fn lemma_dedup_idempotent(
    s: Seq<EntryModel>,
    next_id: u64,
    max_entries: nat,
    c: crate::clip::ContentModel,
    t1: u64,
    t2: u64,
)
    requires
        ledger_wf(s, next_id),
        next_id < u64::MAX,
        max_entries > 0,
    ensures
        ({
            let (s1, n1, id1) = after_insert(s, next_id, max_entries, c, None, None, t1);
            let (s2, n2, id2) = after_insert(s1, n1, max_entries, c, None, None, t2);
            &&& id2 == id1
            &&& n2 == n1
            &&& s2.len() == s1.len()
            &&& s2[0].id == id1
            &&& s2[0].timestamp == t2
            &&& s2[0].content_hash == c.hash()
            &&& forall|i: int| 0 < i < s2.len() ==> s2[i].content_hash != c.hash()
        }),
{
    lemma_insert_wf(s, next_id, max_entries, c, None, None, t1);
    let (s1, n1, id1) = after_insert(s, next_id, max_entries, c, None, None, t1);
    lemma_insert_wf(s1, n1, max_entries, c, None, None, t2);
    assert(has_hash(s1, c.hash()));
    let p = hash_pos(s1, c.hash());
    assert(p == 0);
}

/// Moving the entry at `a` back to position `b <= a` keeps I2 and the index.
proof fn lemma_reinsert(s: Seq<EntryModel>, a: int, b: int, m: Map<u64, u64>, next_id: u64)
    requires
        0 <= b <= a < s.len(),
        ledger_wf(s, next_id),
        indexes(m, s),
    ensures
        ledger_wf(s.remove(a).insert(b, s[a]), next_id),
        indexes(m, s.remove(a).insert(b, s[a])),
{
    let t = s.remove(a).insert(b, s[a]);
    let src = |i: int| if i < b { i } else if i == b { a } else if i <= a { i - 1 } else { i };
    assert forall|i: int| 0 <= i < t.len() implies #[trigger] src(i) < s.len() && 0 <= src(i) && t[i] == s[src(i)] by {}
    assert forall|i: int, j: int|
        0 <= i < t.len() && 0 <= j < t.len() && i != j implies t[i].id != t[j].id
        && t[i].content_hash != t[j].content_hash by {
        assert(src(i) != src(j));
        assert(t[i] == s[src(i)] && t[j] == s[src(j)]);
    }
    assert forall|i: int| 0 <= i < t.len() implies t[i].id < next_id by {
        assert(t[i] == s[src(i)]);
    }
    assert forall|h: u64| #[trigger] m.contains_key(h) <==> has_hash(t, h) by {
        if has_hash(s, h) {
            let q = hash_pos(s, h);
            let i = if q < b { q } else if q == a { b } else if q < a { q + 1 } else { q };
            assert(src(i) == q);
            assert(t[i] == s[q]);
        }
        if has_hash(t, h) {
            let q = choose|q: int| 0 <= q < t.len() && t[q].content_hash == h;
            assert(t[q] == s[src(q)]);
        }
    }
    assert forall|i: int| 0 <= i < t.len() implies m[#[trigger] t[i].content_hash] == t[i].id by {
        assert(t[i] == s[src(i)]);
        assert(m[s[src(i)].content_hash] == s[src(i)].id);
    }
}

/// `x` placed into a run sorted newest first, after every entry at least as
/// recent.
pub open spec fn insert_by_time(s: Seq<EntryModel>, x: EntryModel) -> Seq<EntryModel>
    decreases s.len(),
{
    if s.len() == 0 {
        seq![x]
    } else if s[0].timestamp < x.timestamp {
        seq![x] + s
    } else {
        seq![s[0]] + insert_by_time(s.drop_first(), x)
    }
}

/// `s` ordered newest first; entries with equal times keep their order.
pub open spec fn sort_by_time(s: Seq<EntryModel>) -> Seq<EntryModel>
    decreases s.len(),
{
    if s.len() == 0 {
        s
    } else {
        insert_by_time(sort_by_time(s.drop_last()), s.last())
    }
}

proof fn lemma_insert_by_time_split(s: Seq<EntryModel>, x: EntryModel, p: int)
    requires
        0 <= p <= s.len(),
        forall|j: int| 0 <= j < p ==> s[j].timestamp >= x.timestamp,
        p == s.len() || s[p].timestamp < x.timestamp,
    ensures
        insert_by_time(s, x) == s.insert(p, x),
    decreases p,
{
    if p == 0 {
        assert(s.insert(0, x) =~= seq![x] + s);
        if s.len() == 0 {
            assert(seq![x] + s =~= seq![x]);
        }
    } else {
        let t = s.drop_first();
        assert forall|j: int| 0 <= j < p - 1 implies t[j].timestamp >= x.timestamp by {
            assert(t[j] == s[j + 1]);
        }
        lemma_insert_by_time_split(t, x, p - 1);
        assert(seq![s[0]] + t.insert(p - 1, x) =~= s.insert(p, x));
    }
}

/// `e`'s entry is still in `s` under its id, with its content, hash, pin and
/// registers (its time and metadata may have changed).
pub open spec fn kept_in(s: Seq<EntryModel>, e: EntryModel) -> bool {
    has_id(s, e.id) && {
        let f = s[id_pos(s, e.id)];
        &&& f.content == e.content
        &&& f.content_hash == e.content_hash
        &&& f.pinned == e.pinned
        &&& f.temporary_registers == e.temporary_registers
        &&& f.permanent_registers == e.permanent_registers
    }
}

/// An element of a run with distinct ids is the one its id finds.
pub proof fn lemma_member_pos(s: Seq<EntryModel>, i: int)
    requires
        0 <= i < s.len(),
        forall|a: int, b: int| 0 <= a < s.len() && 0 <= b < s.len() && a != b ==> s[a].id != s[b].id,
    ensures
        has_id(s, s[i].id),
        id_pos(s, s[i].id) == i,
{
    assert(s[i].id == s[i].id);
}

/// Recording a capture keeps every protected entry (I3), and the entry a
/// duplicate capture touches.
pub proof fn lemma_insert_keeps(
    s: Seq<EntryModel>,
    next_id: u64,
    max_entries: nat,
    c: crate::clip::ContentModel,
    name: Option<Seq<char>>,
    description: Option<Seq<char>>,
    now: u64,
    i: int,
)
    requires
        ledger_wf(s, next_id),
        next_id < u64::MAX || has_hash(s, c.hash()),
        0 <= i < s.len(),
        s[i].is_protected() || s[i].content_hash == c.hash(),
    ensures
        kept_in(after_insert(s, next_id, max_entries, c, name, description, now).0, s[i]),
        s[i].content_hash != c.hash() ==> ({
            let t = after_insert(s, next_id, max_entries, c, name, description, now).0;
            t[id_pos(t, s[i].id)] == s[i]
        }),
{
    lemma_insert_wf(s, next_id, max_entries, c, name, description, now);
    let t = after_insert(s, next_id, max_entries, c, name, description, now).0;
    let h = c.hash();
    if has_hash(s, h) {
        let p = hash_pos(s, h);
        let j = if i == p { 0 } else if i < p { i + 1 } else { i };
        if i == p {
            assert(t[0] == s[p].touched(name, description, now));
        } else {
            assert(t[j] == s[i]);
        }
        lemma_member_pos(t, j);
    } else {
        assert(s[i].is_protected());
        let e = fresh_entry(next_id, c, name, description, now);
        let t0 = seq![e] + s;
        assert(t0[i + 1] == s[i]);
        lemma_rotated_keeps(t0, max_entries);
        assert(t.contains(s[i]));
        let j = choose|j: int| 0 <= j < t.len() && t[j] == s[i];
        lemma_member_pos(t, j);
    }
}

/// The entry with id `id` in `s` has content hash `h`.
pub open spec fn holds_hash(s: Seq<EntryModel>, id: u64, h: u64) -> bool {
    has_id(s, id) && s[id_pos(s, id)].content_hash == h
}

/// Changing entries while keeping each position's id and hash keeps
/// `holds_hash`.
pub proof fn lemma_holds_frame(s: Seq<EntryModel>, r: Seq<EntryModel>, id: u64, h: u64)
    requires
        r.len() == s.len(),
        forall|i: int| 0 <= i < s.len() ==> r[i].id == s[i].id && r[i].content_hash == s[i].content_hash,
        forall|a: int, b: int| 0 <= a < s.len() && 0 <= b < s.len() && a != b ==> s[a].id != s[b].id,
        holds_hash(s, id, h),
    ensures
        holds_hash(r, id, h),
{
    let p = id_pos(s, id);
    assert(r[p].id == id);
    let q = id_pos(r, id);
    assert(s[q].id == id);
}

/// A new capture's entry, if rotation kept it, has that capture's hash.
pub proof fn lemma_new_entry_hash(
    s: Seq<EntryModel>,
    next_id: u64,
    max_entries: nat,
    c: crate::clip::ContentModel,
    name: Option<Seq<char>>,
    description: Option<Seq<char>>,
    now: u64,
)
    requires
        ledger_wf(s, next_id),
        next_id < u64::MAX,
        !has_hash(s, c.hash()),
    ensures
        has_id(after_insert(s, next_id, max_entries, c, name, description, now).0, next_id)
            ==> holds_hash(after_insert(s, next_id, max_entries, c, name, description, now).0, next_id, c.hash()),
        has_id(after_insert(s, next_id, max_entries, c, name, description, now).0, next_id) ==> ({
            let t = after_insert(s, next_id, max_entries, c, name, description, now).0;
            t[id_pos(t, next_id)] == fresh_entry(next_id, c, name, description, now)
        }),
{
    let t = after_insert(s, next_id, max_entries, c, name, description, now).0;
    let e = fresh_entry(next_id, c, name, description, now);
    let t0 = seq![e] + s;
    if has_id(t, next_id) {
        lemma_rotated_keeps(t0, max_entries);
        let q = id_pos(t, next_id);
        assert(t.contains(t[q]));
        let w = choose|w: int| 0 <= w < t0.len() && t0[w] == t[q];
        if w > 0 {
            assert(t0[w] == s[w - 1]);
            assert(s[w - 1].id < next_id);
        }
    }
}

/// Capturing new content (no entry has its hash) leaves
/// `min(unprotected + 1, cap)` unprotected entries: with a cap of `k`, any
/// run of distinct unprotected captures ends with exactly `k` of them once
/// more than `k` were made.
pub proof fn lemma_insert_caps(
    s: Seq<EntryModel>,
    next_id: u64,
    max_entries: nat,
    c: crate::clip::ContentModel,
    name: Option<Seq<char>>,
    description: Option<Seq<char>>,
    now: u64,
)
    requires
        !has_hash(s, c.hash()),
    ensures
        unprotected_count(after_insert(s, next_id, max_entries, c, name, description, now).0) == if unprotected_count(s) + 1 < max_entries {
            unprotected_count(s) + 1
        } else {
            max_entries
        },
{
    let t0 = seq![fresh_entry(next_id, c, name, description, now)] + s;
    assert(t0.drop_first() =~= s);
    assert(!t0[0].is_protected());
    assert(unprotected_count(t0) == 1 + unprotected_count(s));
    lemma_rotation_protects(t0, max_entries);
}

/// Recording a capture adds no content hash but its own.
pub proof fn lemma_insert_hashes(
    s: Seq<EntryModel>,
    next_id: u64,
    max_entries: nat,
    c: crate::clip::ContentModel,
    name: Option<Seq<char>>,
    description: Option<Seq<char>>,
    now: u64,
    h: u64,
)
    ensures
        has_hash(after_insert(s, next_id, max_entries, c, name, description, now).0, h) ==> has_hash(s, h)
            || h == c.hash(),
{
    let t = after_insert(s, next_id, max_entries, c, name, description, now).0;
    if has_hash(t, h) && h != c.hash() {
        let q = choose|q: int| 0 <= q < t.len() && t[q].content_hash == h;
        if has_hash(s, c.hash()) {
            let p = hash_pos(s, c.hash());
            if q == 0 {
                assert(t[0].content_hash == s[p].content_hash);
            } else if q - 1 < p {
                assert(t[q] == s[q - 1]);
            } else {
                assert(t[q] == s[q]);
            }
        } else {
            let t0 = seq![fresh_entry(next_id, c, name, description, now)] + s;
            lemma_rotated_keeps(t0, max_entries);
            assert(t.contains(t[q]));
            let w = choose|w: int| 0 <= w < t0.len() && t0[w] == t[q];
            assert(w > 0);
            assert(s[w - 1] == t[q]);
        }
    }
}

/// Keeping each position's id keeps where an id is found.
pub proof fn lemma_pos_frame(s: Seq<EntryModel>, r: Seq<EntryModel>, id: u64)
    requires
        r.len() == s.len(),
        forall|i: int| 0 <= i < s.len() ==> r[i].id == s[i].id,
        forall|a: int, b: int| 0 <= a < s.len() && 0 <= b < s.len() && a != b ==> s[a].id != s[b].id,
        has_id(s, id),
    ensures
        has_id(r, id),
        id_pos(r, id) == id_pos(s, id),
{
    let p = id_pos(s, id);
    assert(r[p].id == id);
    let q = id_pos(r, id);
    assert(s[q].id == id);
}

/// The ledger after capturing `c` once at each time of `ts`, in order:
/// entries, id counter, and the ids returned.
pub open spec fn captures(
    s: Seq<EntryModel>,
    next_id: u64,
    max_entries: nat,
    c: crate::clip::ContentModel,
    ts: Seq<u64>,
) -> (Seq<EntryModel>, u64, Seq<u64>)
    decreases ts.len(),
{
    if ts.len() == 0 {
        (s, next_id, Seq::empty())
    } else {
        let (s1, n1, ids) = captures(s, next_id, max_entries, c, ts.drop_last());
        let (s2, n2, id) = after_insert(s1, n1, max_entries, c, None, None, ts.last());
        (s2, n2, ids.push(id))
    }
}

/// Capturing the same content N times (N >= 1): every capture returns the
/// first capture's id, only the first may consume an id or add an entry,
/// and that entry ends first, with the last time, as the only entry with
/// that content hash. (A zero cap drops a new entry at once, so the cap must
/// be positive.)
pub proof fn lemma_repeated_capture(
    s: Seq<EntryModel>,
    next_id: u64,
    max_entries: nat,
    c: crate::clip::ContentModel,
    ts: Seq<u64>,
)
    requires
        ledger_wf(s, next_id),
        next_id < u64::MAX,
        max_entries > 0,
        ts.len() > 0,
    ensures
        ({
            let (sn, nn, ids) = captures(s, next_id, max_entries, c, ts);
            let (s1, n1, id1) = after_insert(s, next_id, max_entries, c, None, None, ts[0]);
            &&& ledger_wf(sn, nn)
            &&& ids.len() == ts.len()
            &&& forall|i: int| 0 <= i < ids.len() ==> #[trigger] ids[i] == id1
            &&& nn == n1
            &&& sn.len() == s1.len()
            &&& sn[0].id == id1
            &&& sn[0].timestamp == ts.last()
            &&& sn[0].content_hash == c.hash()
            &&& forall|i: int| 0 < i < sn.len() ==> #[trigger] sn[i].content_hash != c.hash()
        }),
    decreases ts.len(),
{
    let pre = ts.drop_last();
    if ts.len() == 1 {
        assert(pre.len() == 0);
        assert(ts.last() == ts[0]);
        lemma_insert_wf(s, next_id, max_entries, c, None, None, ts[0]);
        let (s1, n1, id1) = after_insert(s, next_id, max_entries, c, None, None, ts[0]);
        assert forall|i: int| 0 < i < s1.len() implies #[trigger] s1[i].content_hash != c.hash() by {
            assert(s1[0].content_hash == c.hash());
        }
    } else {
        lemma_repeated_capture(s, next_id, max_entries, c, pre);
        assert(pre[0] == ts[0]);
        let (sp, np, idsp) = captures(s, next_id, max_entries, c, pre);
        assert(has_hash(sp, c.hash()));
        lemma_insert_wf(sp, np, max_entries, c, None, None, ts.last());
        assert(hash_pos(sp, c.hash()) == 0);
        let (sn, nn, ids) = captures(s, next_id, max_entries, c, ts);
        assert forall|i: int| 0 < i < sn.len() implies #[trigger] sn[i].content_hash != c.hash() by {
            assert(sn[i] == sp[i]);
        }
        assert forall|i: int| 0 <= i < ids.len() implies #[trigger] ids[i] == idsp.push(sp[0].id)[i] by {}
    }
}

/// Rotating a run with no protected entry keeps its first `budget` entries.
pub proof fn lemma_rotated_unprotected(s: Seq<EntryModel>, budget: nat)
    requires
        forall|i: int| 0 <= i < s.len() ==> !#[trigger] s[i].is_protected(),
    ensures
        rotated(s, budget) == s.take(if budget < s.len() { budget as int } else { s.len() as int }),
    decreases s.len(),
{
    if s.len() == 0 {
        assert(s.take(0) =~= s);
    } else {
        let t = s.drop_first();
        assert forall|i: int| 0 <= i < t.len() implies !#[trigger] t[i].is_protected() by {
            assert(t[i] == s[i + 1]);
        }
        if budget > 0 {
            lemma_rotated_unprotected(t, (budget - 1) as nat);
            let n = if budget < s.len() { budget as int } else { s.len() as int };
            assert(seq![s[0]] + t.take(n - 1) =~= s.take(n));
        } else {
            lemma_rotated_unprotected(t, 0);
            assert(t.take(0) =~= s.take(0));
        }
    }
}

/// The ledger after capturing each content of `cs` at the matching time of
/// `ts`, in order: entries and id counter.
pub open spec fn captures_of(
    s: Seq<EntryModel>,
    next_id: u64,
    max_entries: nat,
    cs: Seq<crate::clip::ContentModel>,
    ts: Seq<u64>,
) -> (Seq<EntryModel>, u64)
    decreases cs.len(),
{
    if cs.len() == 0 {
        (s, next_id)
    } else {
        let (s1, n1) = captures_of(s, next_id, max_entries, cs.drop_last(), ts.drop_last());
        let (s2, n2, _) = after_insert(s1, n1, max_entries, cs.last(), None, None, ts.last());
        (s2, n2)
    }
}

/// From a fresh ledger with cap `k`, capturing `m` contents with pairwise
/// distinct hashes, with nothing pinned or registered, leaves exactly the
/// newest `min(m, k)` of them, newest first: ids `m, m - 1, ...`.
pub proof fn lemma_distinct_captures(
    max_entries: nat,
    cs: Seq<crate::clip::ContentModel>,
    ts: Seq<u64>,
)
    requires
        cs.len() == ts.len(),
        cs.len() + 1 < u64::MAX,
        forall|a: int, b: int| 0 <= a < cs.len() && 0 <= b < cs.len() && a != b ==> #[trigger] cs[a].hash() != #[trigger] cs[b].hash(),
    ensures
        ({
            let (sn, nn) = captures_of(Seq::empty(), 1, max_entries, cs, ts);
            &&& nn == cs.len() + 1
            &&& sn.len() == if cs.len() < max_entries { cs.len() } else { max_entries }
            &&& forall|i: int|
                0 <= i < sn.len() ==> #[trigger] sn[i].id == cs.len() - i && sn[i].content_hash
                    == cs[cs.len() - 1 - i].hash() && !sn[i].is_protected()
        }),
    decreases cs.len(),
{
    if cs.len() > 0 {
        let pc = cs.drop_last();
        let pt = ts.drop_last();
        assert forall|a: int, b: int| 0 <= a < pc.len() && 0 <= b < pc.len() && a != b implies #[trigger] pc[a].hash() != #[trigger] pc[b].hash() by {
            assert(pc[a] == cs[a] && pc[b] == cs[b]);
        }
        lemma_distinct_captures(max_entries, pc, pt);
        let (sp, np) = captures_of(Seq::empty(), 1, max_entries, pc, pt);
        let c = cs.last();
        let m = cs.len();
        assert(!has_hash(sp, c.hash())) by {
            if has_hash(sp, c.hash()) {
                let q = choose|q: int| 0 <= q < sp.len() && sp[q].content_hash == c.hash();
                assert(sp[q].content_hash == cs[m - 2 - q].hash());
                assert(cs[m - 2 - q].hash() != cs[m - 1].hash());
            }
        }
        let e = fresh_entry(np, c, None, None, ts.last());
        let t0 = seq![e] + sp;
        assert forall|i: int| 0 <= i < t0.len() implies !#[trigger] t0[i].is_protected() by {
            if i > 0 {
                assert(t0[i] == sp[i - 1]);
                assert(sp[i - 1].id == pc.len() - (i - 1));
            } else {
                assert(t0[0] == e);
                assert(e.temporary_registers.len() == 0 && e.permanent_registers.len() == 0);
            }
        }
        lemma_rotated_unprotected(t0, max_entries);
        let (sn, nn) = captures_of(Seq::empty(), 1, max_entries, cs, ts);
        assert(np == pc.len() + 1);
        assert(sn == rotated(t0, max_entries));
        assert(nn == cs.len() + 1);
        assert(t0.len() == sp.len() + 1);
        assert(sn.len() == if cs.len() < max_entries { cs.len() } else { max_entries });
        assert forall|i: int| 0 <= i < sn.len() implies #[trigger] sn[i].id == cs.len() - i && sn[i].content_hash
            == cs[cs.len() - 1 - i].hash() && !sn[i].is_protected() by {
            assert(sn[i] == t0[i]);
            if i > 0 {
                assert(t0[i] == sp[i - 1]);
                assert(sp[i - 1].id == pc.len() - (i - 1));
                assert(pc[pc.len() - 1 - (i - 1)] == cs[cs.len() - 1 - i]);
            } else {
                assert(t0[0] == e);
                assert(e.temporary_registers.len() == 0 && e.permanent_registers.len() == 0);
            }
        }
    }
}

/// Dropping one entry keeps I2 and, with its hash removed, the index.
proof fn lemma_drop_entry(s: Seq<EntryModel>, p: int, m: Map<u64, u64>, next_id: u64)
    requires
        0 <= p < s.len(),
        ledger_wf(s, next_id),
        indexes(m, s),
    ensures
        ledger_wf(s.remove(p), next_id),
        indexes(m.remove(s[p].content_hash), s.remove(p)),
{
    let t = s.remove(p);
    let m2 = m.remove(s[p].content_hash);
    assert forall|i: int| 0 <= i < t.len() implies (i < p ==> t[i] == s[i]) && (i >= p ==> t[i]
        == s[i + 1]) by {}
    assert forall|h: u64| #[trigger] m2.contains_key(h) <==> has_hash(t, h) by {
        if m2.contains_key(h) {
            let q = hash_pos(s, h);
            assert(s[q].content_hash == h);
            assert(q != p);
            if q < p {
                assert(t[q] == s[q]);
            } else {
                assert(t[q - 1] == s[q]);
            }
        }
        if has_hash(t, h) {
            let q = choose|q: int| 0 <= q < t.len() && t[q].content_hash == h;
            if q < p {
                assert(s[q].content_hash == h && q != p);
            } else {
                assert(s[q + 1].content_hash == h && q + 1 != p);
            }
        }
    }
    assert forall|i: int| 0 <= i < t.len() implies m2[#[trigger] t[i].content_hash] == t[i].id by {
        if i < p {
            assert(t[i] == s[i]);
            assert(m[s[i].content_hash] == s[i].id);
        } else {
            assert(t[i] == s[i + 1]);
            assert(m[s[i + 1].content_hash] == s[i + 1].id);
        }
    }
}

/// Putting a new entry with a fresh id and an unseen hash at the front keeps
/// I2 and, with that hash added, the index.
proof fn lemma_add_front(s: Seq<EntryModel>, e: EntryModel, m: Map<u64, u64>, next_id: u64)
    requires
        ledger_wf(s, next_id),
        indexes(m, s),
        e.id == next_id,
        next_id < u64::MAX,
        !has_hash(s, e.content_hash),
    ensures
        ledger_wf(seq![e] + s, (next_id + 1) as u64),
        indexes(m.insert(e.content_hash, e.id), seq![e] + s),
{
    let t = seq![e] + s;
    let m2 = m.insert(e.content_hash, e.id);
    assert forall|i: int| 0 < i < t.len() implies t[i] == s[i - 1] by {}
    assert forall|i: int, j: int|
        0 <= i < t.len() && 0 <= j < t.len() && i != j implies t[i].content_hash
        != t[j].content_hash by {
        if i == 0 {
            assert(s[j - 1].content_hash == t[j].content_hash);
        } else if j == 0 {
            assert(s[i - 1].content_hash == t[i].content_hash);
        }
    }
    assert forall|h: u64| #[trigger] m2.contains_key(h) <==> has_hash(t, h) by {
        if m2.contains_key(h) && h != e.content_hash {
            let q = hash_pos(s, h);
            assert(t[q + 1].content_hash == h);
        }
        if has_hash(t, h) && h != e.content_hash {
            let q = choose|q: int| 0 <= q < t.len() && t[q].content_hash == h;
            assert(s[q - 1].content_hash == h);
        }
        if h == e.content_hash {
            assert(t[0].content_hash == h);
        }
    }
    assert forall|i: int| 0 <= i < t.len() implies m2[#[trigger] t[i].content_hash] == t[i].id by {
        if i > 0 {
            assert(m[s[i - 1].content_hash] == s[i - 1].id);
        }
    }
}

/// Moving an entry to the front, with its id and hash unchanged, keeps I2
/// and the index.
proof fn lemma_move_front(s: Seq<EntryModel>, p: int, e: EntryModel, m: Map<u64, u64>, next_id: u64)
    requires
        0 <= p < s.len(),
        ledger_wf(s, next_id),
        indexes(m, s),
        e.id == s[p].id,
        e.content_hash == s[p].content_hash,
    ensures
        ledger_wf(seq![e] + s.remove(p), next_id),
        indexes(m, seq![e] + s.remove(p)),
{
    let t = seq![e] + s.remove(p);
    // position in `s` of each position in `t`
    let src = |i: int| if i == 0 { p } else if i - 1 < p { i - 1 } else { i };
    assert forall|i: int| 0 <= i < t.len() implies #[trigger] src(i) < s.len() && t[i].id == s[src(i)].id
        && t[i].content_hash == s[src(i)].content_hash by {}
    assert forall|i: int, j: int|
        0 <= i < t.len() && 0 <= j < t.len() && i != j implies t[i].id != t[j].id
        && t[i].content_hash != t[j].content_hash by {
        assert(src(i) != src(j));
        assert(src(i) < s.len() && src(j) < s.len());
    }
    assert forall|i: int| 0 <= i < t.len() implies t[i].id < next_id by {
        assert(src(i) < s.len());
    }
    assert forall|h: u64| #[trigger] m.contains_key(h) <==> has_hash(t, h) by {
        if has_hash(s, h) {
            let q = hash_pos(s, h);
            if q == p {
                assert(t[0].content_hash == h);
            } else if q < p {
                assert(t[q + 1].content_hash == h);
            } else {
                assert(t[q].content_hash == h);
            }
        }
        if has_hash(t, h) {
            let q = choose|q: int| 0 <= q < t.len() && t[q].content_hash == h;
            assert(src(q) < s.len());
            assert(s[src(q)].content_hash == h);
        }
    }
    assert forall|i: int| 0 <= i < t.len() implies m[#[trigger] t[i].content_hash] == t[i].id by {
        assert(src(i) < s.len());
        assert(m[s[src(i)].content_hash] == s[src(i)].id);
    }
}

/// `rotated` takes one step: the head is kept or dropped, the rest follows.
proof fn lemma_rotated_step(kept: Seq<EntryModel>, t: Seq<EntryModel>, budget: nat)
    requires
        t.len() > 0,
    ensures
        t[0].is_protected() ==> kept.push(t[0]) + rotated(t.drop_first(), budget) == kept
            + rotated(t, budget),
        !t[0].is_protected() && budget > 0 ==> kept.push(t[0]) + rotated(
            t.drop_first(),
            (budget - 1) as nat,
        ) == kept + rotated(t, budget),
        !t[0].is_protected() && budget == 0 ==> kept + rotated(t.drop_first(), budget) == kept
            + rotated(t, budget),
{
    if t[0].is_protected() {
        assert(kept.push(t[0]) + rotated(t.drop_first(), budget) =~= kept + (seq![t[0]]
            + rotated(t.drop_first(), budget)));
    } else if budget > 0 {
        assert(kept.push(t[0]) + rotated(t.drop_first(), (budget - 1) as nat) =~= kept + (seq![
            t[0],
        ] + rotated(t.drop_first(), (budget - 1) as nat)));
    }
}

/// Changing an entry in place, with its id and hash unchanged, keeps I2 and
/// the index.
pub proof fn lemma_update_keeps_wf(
    s: Seq<EntryModel>,
    p: int,
    e: EntryModel,
    m: Map<u64, u64>,
    next_id: u64,
)
    requires
        0 <= p < s.len(),
        ledger_wf(s, next_id),
        indexes(m, s),
        e.id == s[p].id,
        e.content_hash == s[p].content_hash,
    ensures
        ledger_wf(s.update(p, e), next_id),
        indexes(m, s.update(p, e)),
{
    let t = s.update(p, e);
    assert forall|i: int| 0 <= i < t.len() implies t[i].id == s[i].id && t[i].content_hash
        == s[i].content_hash by {}
    assert forall|h: u64| #[trigger] m.contains_key(h) <==> has_hash(t, h) by {
        if has_hash(s, h) {
            let q = hash_pos(s, h);
            assert(t[q].content_hash == h);
        }
        if has_hash(t, h) {
            let q = choose|q: int| 0 <= q < t.len() && t[q].content_hash == h;
            assert(s[q].content_hash == h);
        }
    }
    assert forall|i: int| 0 <= i < t.len() implies m[#[trigger] t[i].content_hash] == t[i].id by {
        assert(m[s[i].content_hash] == s[i].id);
    }
}

/// Clipboard history: entries most recent first, deduplicated by content
/// hash, with unprotected entries capped at `max_entries`.
#[derive(Debug)]
pub struct ClipboardHistory {
    /// All entries, most recent first.
    pub entries: Vec<ClipEntry>,
    /// Cap on entries that are neither pinned nor registered.
    pub max_entries: usize,
    /// Next id to assign.
    next_id: u64,
    /// content hash -> entry id, for every entry.
    hash_to_id: HashMap<u64, u64>,
}

impl ClipboardHistory {
    /// The values of the entries, most recent first.
    pub closed spec fn model(&self) -> Seq<EntryModel> {
        models(self.entries@)
    }

    /// The cap on unprotected entries.
    pub closed spec fn spec_max_entries(&self) -> usize {
        self.max_entries
    }

    /// The id the next new entry will get.
    pub closed spec fn spec_next_id(&self) -> u64 {
        self.next_id
    }

    /// The hash index.
    pub closed spec fn index(&self) -> Map<u64, u64> {
        self.hash_to_id@
    }

    /// Well-formed: I2 holds, ids are below the counter, and the hash index
    /// matches the entries exactly.
    pub open spec fn wf(&self) -> bool {
        &&& ledger_wf(self.model(), self.spec_next_id())
        &&& indexes(self.index(), self.model())
    }

    /// An empty history with the given cap.
    pub fn new(max_entries: usize) -> (r: ClipboardHistory)
        ensures
            r.wf(),
            r.model() == Seq::<EntryModel>::empty(),
            r.spec_max_entries() == max_entries,
            r.spec_next_id() == 1,
    {
        let r = ClipboardHistory {
            entries: Vec::new(),
            max_entries,
            next_id: 1,
            hash_to_id: HashMap::new(),
        };
        assert(r.model() =~= Seq::<EntryModel>::empty());
        assert(r.index() =~= Map::<u64, u64>::empty());
        r
    }

    /// Rebuild the hash index from the entries (after a bulk load). Each
    /// hash maps to the id of its last entry in list order.
    pub fn rebuild_hash_map(&mut self)
        ensures
            final(self).model() == old(self).model(),
            final(self).spec_max_entries() == old(self).spec_max_entries(),
            final(self).spec_next_id() == old(self).spec_next_id(),
            index_of_last(final(self).index(), final(self).model()),
            ledger_wf(old(self).model(), old(self).spec_next_id()) ==> final(self).wf(),
    {
        self.hash_to_id.clear();
        let ghost s = self.model();
        let mut i: usize = 0;
        while i < self.entries.len()
            invariant
                s == self.model(),
                self.entries@ == old(self).entries@,
                self.max_entries == old(self).max_entries,
                self.next_id == old(self).next_id,
                i <= self.entries.len(),
                forall|h: u64| #[trigger]
                    self.hash_to_id@.contains_key(h) <==> exists|k: int|
                        0 <= k < i && s[k].content_hash == h,
                forall|k: int|
                    0 <= k < i && (forall|j: int|
                        k < j < i ==> s[j].content_hash != s[k].content_hash)
                        ==> self.hash_to_id@[s[k].content_hash] == s[k].id,
            decreases self.entries.len() - i,
        {
            let h = self.entries[i].content_hash;
            let id = self.entries[i].id;
            self.hash_to_id.insert(h, id);
            proof {
                assert(s[i as int].content_hash == h && s[i as int].id == id);
            }
            i = i + 1;
        }
    }

    /// Enforce the cap: keep every protected entry and the `max_entries`
    /// most recent unprotected ones, in order; purge the dropped hashes.
    fn rotate_history(&mut self)
        requires
            old(self).wf(),
        ensures
            final(self).wf(),
            final(self).model() == rotated(old(self).model(), old(self).max_entries as nat),
            final(self).max_entries == old(self).max_entries,
            final(self).next_id == old(self).next_id,
    {
        let mut rest: Vec<ClipEntry> = Vec::new();
        std::mem::swap(&mut self.entries, &mut rest);
        let ghost orig = models(rest@);
        let ghost max = self.max_entries as nat;
        let mut budget: usize = self.max_entries;
        proof {
            assert(models(self.entries@) =~= Seq::<EntryModel>::empty());
            assert(orig.skip(0) =~= orig);
            assert(models(self.entries@) + orig.skip(0) =~= orig);
        }
        for e in it: rest.into_iter()
            invariant
                orig == models(it.seq()),
                self.max_entries as nat == max,
                self.next_id == old(self).next_id,
                models(self.entries@) + rotated(orig.skip(it.index()), budget as nat)
                    == rotated(orig, max),
                ledger_wf(models(self.entries@) + orig.skip(it.index()), self.next_id),
                indexes(self.hash_to_id@, models(self.entries@) + orig.skip(it.index())),
        {
            let ghost k = it.index();
            let ghost kept = models(self.entries@);
            let ghost t = orig.skip(k);
            proof {
                assert(t[0] == e@);
                assert(t.drop_first() =~= orig.skip(k + 1));
                lemma_rotated_step(kept, t, budget as nat);
            }
            if e.should_keep() {
                self.entries.push(e);
                proof {
                    assert(models(self.entries@) =~= kept.push(e@));
                    assert(kept.push(e@) + orig.skip(k + 1) =~= kept + t);
                }
            } else if budget > 0 {
                budget = budget - 1;
                self.entries.push(e);
                proof {
                    assert(models(self.entries@) =~= kept.push(e@));
                    assert(kept.push(e@) + orig.skip(k + 1) =~= kept + t);
                }
            } else {
                proof {
                    lemma_drop_entry(kept + t, kept.len() as int, self.hash_to_id@, self.next_id);
                    assert((kept + t).remove(kept.len() as int) =~= kept + orig.skip(k + 1));
                }
                self.hash_to_id.remove(&e.content_hash);
            }
        }
        proof {
            assert(orig.skip(orig.len() as int) =~= Seq::<EntryModel>::empty());
            assert(models(self.entries@) + Seq::<EntryModel>::empty() =~= models(self.entries@));
        }
    }

    /// Record `content` as captured at `now`. A duplicate (same content
    /// hash) keeps its id, moves to the front with its time bumped, and takes
    /// a supplied, non-empty name or description; new content gets the next
    /// id at the front, then rotation runs.
    pub fn insert_at(
        &mut self,
        content: ClipContent,
        name: Option<String>,
        description: Option<String>,
        now: u64,
    ) -> (r: u64)
        requires
            old(self).wf(),
            old(self).spec_next_id() < u64::MAX || has_hash(old(self).model(), content@.hash()),
        ensures
            final(self).wf(),
            final(self).spec_max_entries() == old(self).spec_max_entries(),
            (final(self).model(), final(self).spec_next_id(), r) == after_insert(
                old(self).model(),
                old(self).spec_next_id(),
                old(self).spec_max_entries() as nat,
                content@,
                opt_view(name),
                opt_view(description),
                now,
            ),
            forall|i: int|
                0 <= i < old(self).model().len() && #[trigger] old(self).model()[i].is_protected()
                    ==> kept_in(final(self).model(), old(self).model()[i]),
    {
        proof {
            assert forall|i: int|
                0 <= i < old(self).model().len() && #[trigger] old(self).model()[i].is_protected()
                    implies kept_in(
                    after_insert(
                        old(self).model(),
                        old(self).spec_next_id(),
                        old(self).spec_max_entries() as nat,
                        content@,
                        opt_view(name),
                        opt_view(description),
                        now,
                    ).0,
                    old(self).model()[i],
                ) by {
                lemma_insert_keeps(
                    old(self).model(),
                    old(self).spec_next_id(),
                    old(self).spec_max_entries() as nat,
                    content@,
                    opt_view(name),
                    opt_view(description),
                    now,
                    i,
                );
            }
        }
        let ghost s = self.model();
        let ghost c = content@;
        let hash = content.content_hash();
        match self.hash_to_id.get(&hash) {
            Some(existing) => {
                let existing_id = *existing;
                let ghost q = hash_pos(s, hash);
                proof {
                    assert(s[q].content_hash == hash);
                }
                let pos = self.position_of(existing_id);
                match pos {
                    Some(p) => {
                        let ghost old_entries = self.entries@;
                        let mut entry = self.entries.remove(p);
                        proof {
                            assert(p == q);
                            assert(models(self.entries@) =~= s.remove(p as int));
                        }
                        let ghost before = entry@;
                        entry.bump_timestamp_to(now);
                        match name {
                            Some(n) => {
                                if !n.as_str().is_empty() {
                                    entry.name = Some(n);
                                }
                            },
                            None => {},
                        }
                        match description {
                            Some(d) => {
                                if !d.as_str().is_empty() {
                                    entry.description = Some(d);
                                }
                            },
                            None => {},
                        }
                        proof {
                            assert(entry@ == before.touched(opt_view(name), opt_view(description), now));
                        }
                        self.entries.insert(0, entry);
                        proof {
                            assert(models(self.entries@) =~= seq![entry@] + s.remove(p as int));
                            lemma_move_front(s, p as int, entry@, self.hash_to_id@, self.next_id);
                        }
                        existing_id
                    },
                    None => {
                        proof {
                            assert(false);
                        }
                        existing_id
                    },
                }
            },
            None => {
                let id = self.next_id;
                self.next_id = self.next_id + 1;
                let entry = ClipEntry::new_at(id, content, name, description, now);
                proof {
                    lemma_add_front(s, entry@, self.hash_to_id@, id);
                }
                self.hash_to_id.insert(hash, id);
                self.entries.insert(0, entry);
                proof {
                    assert(models(self.entries@) =~= seq![entry@] + s);
                }
                self.rotate_history();
                id
            },
        }
    }

    /// Record `content` now, without metadata; returns the entry's id.
    pub fn add_entry(&mut self, content: ClipContent) -> (r: u64)
        requires
            old(self).wf(),
            old(self).spec_next_id() < u64::MAX || has_hash(old(self).model(), content@.hash()),
        ensures
            final(self).wf(),
            final(self).spec_max_entries() == old(self).spec_max_entries(),
            exists|now: u64|
                (final(self).model(), final(self).spec_next_id(), r) == #[trigger] after_insert(
                    old(self).model(),
                    old(self).spec_next_id(),
                    old(self).spec_max_entries() as nat,
                    content@,
                    None,
                    None,
                    now,
                ),
            forall|i: int|
                0 <= i < old(self).model().len() && #[trigger] old(self).model()[i].is_protected()
                    ==> kept_in(final(self).model(), old(self).model()[i]),
    {
        let now = clock_now();
        self.insert_at(content, None, None, now)
    }

    /// Record `content` now with optional metadata; on a duplicate, only a
    /// supplied, non-empty name or description replaces the stored one.
    pub fn add_entry_with_metadata(
        &mut self,
        content: ClipContent,
        name: Option<String>,
        description: Option<String>,
    ) -> (r: u64)
        requires
            old(self).wf(),
            old(self).spec_next_id() < u64::MAX || has_hash(old(self).model(), content@.hash()),
        ensures
            final(self).wf(),
            final(self).spec_max_entries() == old(self).spec_max_entries(),
            exists|now: u64|
                (final(self).model(), final(self).spec_next_id(), r) == #[trigger] after_insert(
                    old(self).model(),
                    old(self).spec_next_id(),
                    old(self).spec_max_entries() as nat,
                    content@,
                    opt_view(name),
                    opt_view(description),
                    now,
                ),
            forall|i: int|
                0 <= i < old(self).model().len() && #[trigger] old(self).model()[i].is_protected()
                    ==> kept_in(final(self).model(), old(self).model()[i]),
    {
        let now = clock_now();
        self.insert_at(content, name, description, now)
    }

    /// Remove the entry with id `id`; false (and no change) if absent. The
    /// entry's hash leaves the index with it.
    pub fn remove_entry(&mut self, id: u64) -> (r: bool)
        requires
            old(self).wf(),
        ensures
            final(self).wf(),
            r == has_id(old(self).model(), id),
            r ==> final(self).model() == old(self).model().remove(id_pos(old(self).model(), id)),
            !r ==> final(self).model() == old(self).model(),
            final(self).spec_next_id() == old(self).spec_next_id(),
            final(self).spec_max_entries() == old(self).spec_max_entries(),
    {
        let ghost s = self.model();
        match self.position_of(id) {
            Some(pos) => {
                proof {
                    let q = id_pos(s, id);
                    assert(s[q].id == id);
                    assert(q == pos);
                    lemma_drop_entry(s, pos as int, self.hash_to_id@, self.next_id);
                }
                let entry = self.entries.remove(pos);
                self.hash_to_id.remove(&entry.content_hash);
                proof {
                    assert(models(self.entries@) =~= s.remove(pos as int));
                }
                true
            },
            None => false,
        }
    }

    /// The pinned entries, most recent first.
    pub fn get_pinned(&self) -> (r: Vec<&ClipEntry>)
        ensures
            models(r@.map_values(|e: &ClipEntry| *e)) == self.model().filter(pinned_only()),
    {
        let mut r: Vec<&ClipEntry> = Vec::new();
        let mut i: usize = 0;
        while i < self.entries.len()
            invariant
                i <= self.entries.len(),
                models(r@.map_values(|e: &ClipEntry| *e)) == self.model().take(i as int).filter(
                    pinned_only(),
                ),
            decreases self.entries.len() - i,
        {
            proof {
                assert(self.model().take(i + 1) =~= self.model().take(i as int).push(
                    self.model()[i as int],
                ));
                self.model().take(i as int).lemma_filter_push(self.model()[i as int], pinned_only());
            }
            let ghost before = r@;
            if self.entries[i].pinned {
                r.push(&self.entries[i]);
                proof {
                    assert(models(r@.map_values(|e: &ClipEntry| *e)) =~= models(
                        before.map_values(|e: &ClipEntry| *e),
                    ).push(self.model()[i as int]));
                }
            }
            i = i + 1;
        }
        proof {
            assert(self.model().take(i as int) =~= self.model());
        }
        r
    }

    /// The entry with id `id`, if present.
    pub fn get_entry(&self, id: u64) -> (r: Option<&ClipEntry>)
        requires
            self.wf(),
        ensures
            r is Some <==> has_id(self.model(), id),
            r is Some ==> r->0@ == self.model()[id_pos(self.model(), id)],
    {
        match self.position_of(id) {
            Some(pos) => {
                proof {
                    assert(self.model()[id_pos(self.model(), id)].id == id);
                }
                Some(&self.entries[pos])
            },
            None => None,
        }
    }

    /// Mutable access to the entry with id `id`, if present. Changing its id
    /// or content hash through it breaks the ledger's invariant.
    pub fn get_entry_mut(&mut self, id: u64) -> (r: Option<&mut ClipEntry>)
        requires
            old(self).wf(),
        ensures
            r is Some <==> has_id(old(self).model(), id),
            r is None ==> final(self).model() == old(self).model(),
            r is Some ==> (*r->0)@ == old(self).model()[id_pos(old(self).model(), id)],
            r is Some ==> final(self).model() == old(self).model().update(
                id_pos(old(self).model(), id),
                (*final(r->0))@,
            ),
            final(self).index() == old(self).index(),
            final(self).spec_next_id() == old(self).spec_next_id(),
            final(self).spec_max_entries() == old(self).spec_max_entries(),
    {
        match self.position_of(id) {
            Some(pos) => {
                proof {
                    assert(self.model()[id_pos(self.model(), id)].id == id);
                }
                Some(&mut self.entries[pos])
            },
            None => None,
        }
    }

    /// A history made of loaded entries, or `None` when they break the
    /// invariant (two entries share an id or a content hash, or an id is
    /// not below `next_id`).
    pub fn from_entries(entries: Vec<ClipEntry>, max_entries: usize, next_id: u64) -> (r: Option<
        ClipboardHistory,
    >)
        ensures
            r is Some <==> ledger_wf(models(entries@), next_id),
            r matches Some(h) ==> h.wf() && h.model() == models(entries@) && h.spec_max_entries()
                == max_entries && h.spec_next_id() == next_id,
    {
        let ghost s = models(entries@);
        let mut ids: HashSet<u64> = HashSet::new();
        let mut index: HashMap<u64, u64> = HashMap::new();
        let mut i: usize = 0;
        while i < entries.len()
            invariant
                s == models(entries@),
                i <= entries.len(),
                ledger_wf(s.take(i as int), next_id),
                indexes(index@, s.take(i as int)),
                forall|x: u64| #[trigger] ids@.contains(x) <==> has_id(s.take(i as int), x),
            decreases entries.len() - i,
        {
            let id = entries[i].id;
            let h = entries[i].content_hash;
            let ghost t = s.take(i as int);
            let ghost t2 = s.take(i + 1);
            proof {
                assert(t2 =~= t.push(s[i as int]));
                assert(forall|k: int| 0 <= k < i ==> t[k] == s[k]);
            }
            if id >= next_id {
                proof {
                    assert(s[i as int].id >= next_id);
                }
                return None;
            }
            if ids.contains(&id) {
                proof {
                    let k = choose|k: int| 0 <= k < t.len() && t[k].id == id;
                    assert(s[k].id == s[i as int].id && k != i);
                }
                return None;
            }
            if index.contains_key(&h) {
                proof {
                    let k = hash_pos(t, h);
                    assert(s[k].content_hash == s[i as int].content_hash && k != i);
                }
                return None;
            }
            ids.insert(id);
            index.insert(h, id);
            proof {
                assert forall|a: int, b: int|
                    0 <= a < t2.len() && 0 <= b < t2.len() && a != b implies t2[a].id != t2[b].id
                    && t2[a].content_hash != t2[b].content_hash by {
                    if a == i {
                        assert(!has_id(t, t2[b].id) ==> t2[b].id != id);
                        if b < i {
                            assert(t[b] == t2[b]);
                            assert(has_hash(t, t2[b].content_hash));
                        }
                    }
                    if b == i {
                        if a < i {
                            assert(t[a] == t2[a]);
                            assert(has_id(t, t2[a].id));
                            assert(has_hash(t, t2[a].content_hash));
                        }
                    }
                }
                assert forall|x: u64| #[trigger] ids@.contains(x) <==> has_id(t2, x) by {
                    if has_id(t, x) {
                        let k = choose|k: int| 0 <= k < t.len() && t[k].id == x;
                        assert(t2[k].id == x);
                    }
                    if has_id(t2, x) && x != id {
                        let k = choose|k: int| 0 <= k < t2.len() && t2[k].id == x;
                        assert(k != i);
                        assert(t[k].id == x);
                    }
                    if x == id {
                        assert(t2[i as int].id == x);
                    }
                }
                assert forall|x: u64| #[trigger] index@.contains_key(x) <==> has_hash(t2, x) by {
                    if has_hash(t, x) {
                        let k = hash_pos(t, x);
                        assert(t2[k].content_hash == x);
                    }
                    if has_hash(t2, x) && x != h {
                        let k = hash_pos(t2, x);
                        assert(k != i);
                        assert(t[k].content_hash == x);
                    }
                    if x == h {
                        assert(t2[i as int].content_hash == x);
                    }
                }
                assert forall|k: int| 0 <= k < t2.len() implies index@[#[trigger] t2[k].content_hash]
                    == t2[k].id by {
                    if k < i {
                        assert(t[k] == t2[k]);
                        assert(has_hash(t, t2[k].content_hash));
                    }
                }
            }
            i = i + 1;
        }
        proof {
            assert(s.take(i as int) =~= s);
        }
        Some(ClipboardHistory { entries, max_entries, next_id, hash_to_id: index })
    }

    /// Remove every entry that is neither pinned nor registered, with its
    /// hash; the index keeps matching the survivors.
    pub fn clear_unpinned(&mut self)
        requires
            old(self).wf(),
        ensures
            final(self).wf(),
            final(self).model() == old(self).model().filter(protected_only()),
            final(self).spec_next_id() == old(self).spec_next_id(),
            final(self).spec_max_entries() == old(self).spec_max_entries(),
    {
        let mut rest: Vec<ClipEntry> = Vec::new();
        std::mem::swap(&mut self.entries, &mut rest);
        let ghost orig = models(rest@);
        proof {
            assert(models(self.entries@) =~= Seq::<EntryModel>::empty());
            assert(orig.take(0) =~= Seq::<EntryModel>::empty());
            assert(models(self.entries@) + orig.skip(0) =~= orig);
            reveal(Seq::filter);
        }
        for e in it: rest.into_iter()
            invariant
                orig == models(it.seq()),
                self.max_entries == old(self).max_entries,
                self.next_id == old(self).next_id,
                models(self.entries@) == orig.take(it.index()).filter(protected_only()),
                ledger_wf(models(self.entries@) + orig.skip(it.index()), self.next_id),
                indexes(self.hash_to_id@, models(self.entries@) + orig.skip(it.index())),
        {
            let ghost k = it.index();
            let ghost kept = models(self.entries@);
            let ghost t = orig.skip(k);
            proof {
                assert(t[0] == e@);
                assert(t.drop_first() =~= orig.skip(k + 1));
                assert(orig.take(k + 1) =~= orig.take(k).push(orig[k]));
                orig.take(k).lemma_filter_push(orig[k], protected_only());
            }
            if e.should_keep() {
                self.entries.push(e);
                proof {
                    assert(models(self.entries@) =~= kept.push(e@));
                    assert(kept.push(e@) + orig.skip(k + 1) =~= kept + t);
                }
            } else {
                proof {
                    lemma_drop_entry(kept + t, kept.len() as int, self.hash_to_id@, self.next_id);
                    assert((kept + t).remove(kept.len() as int) =~= kept + orig.skip(k + 1));
                }
                self.hash_to_id.remove(&e.content_hash);
            }
        }
        proof {
            assert(orig.take(orig.len() as int) =~= orig);
            assert(orig.skip(orig.len() as int) =~= Seq::<EntryModel>::empty());
            assert(models(self.entries@) + Seq::<EntryModel>::empty() =~= models(self.entries@));
        }
    }

    /// Flip the pinned flag of the entry with id `id`; false if absent.
    pub fn toggle_pin(&mut self, id: u64) -> (r: bool)
        requires
            old(self).wf(),
        ensures
            final(self).wf(),
            r == has_id(old(self).model(), id),
            r ==> final(self).model() == old(self).model().update(
                id_pos(old(self).model(), id),
                EntryModel {
                    pinned: !old(self).model()[id_pos(old(self).model(), id)].pinned,
                    ..old(self).model()[id_pos(old(self).model(), id)]
                },
            ),
            !r ==> final(self).model() == old(self).model(),
            final(self).spec_next_id() == old(self).spec_next_id(),
            final(self).spec_max_entries() == old(self).spec_max_entries(),
    {
        let ghost s = self.model();
        match self.get_entry_mut(id) {
            Some(e) => {
                e.toggle_pin();
                proof {
                    lemma_update_keeps_wf(s, id_pos(s, id), self.model()[id_pos(s, id)], self.index(), self.next_id);
                }
                true
            },
            None => false,
        }
    }

    /// Order the entries newest first by timestamp; entries with equal
    /// times keep their order.
    pub fn sort_by_timestamp(&mut self)
        requires
            old(self).wf(),
        ensures
            final(self).wf(),
            final(self).model() == sort_by_time(old(self).model()),
            final(self).spec_next_id() == old(self).spec_next_id(),
            final(self).spec_max_entries() == old(self).spec_max_entries(),
    {
        let mut rest: Vec<ClipEntry> = Vec::new();
        std::mem::swap(&mut self.entries, &mut rest);
        let ghost orig = models(rest@);
        proof {
            assert(models(self.entries@) =~= Seq::<EntryModel>::empty());
            assert(orig.take(0) =~= Seq::<EntryModel>::empty());
            assert(models(self.entries@) + orig.skip(0) =~= orig);
        }
        for e in it: rest.into_iter()
            invariant
                orig == models(it.seq()),
                self.max_entries == old(self).max_entries,
                self.next_id == old(self).next_id,
                models(self.entries@) == sort_by_time(orig.take(it.index())),
                ledger_wf(models(self.entries@) + orig.skip(it.index()), self.next_id),
                indexes(self.hash_to_id@, models(self.entries@) + orig.skip(it.index())),
        {
            let ghost k = it.index();
            let ghost kept = models(self.entries@);
            let ghost t = orig.skip(k);
            let mut p: usize = 0;
            while p < self.entries.len() && self.entries[p].timestamp >= e.timestamp
                invariant
                    p <= self.entries.len(),
                    forall|j: int| 0 <= j < p ==> self.entries@[j].timestamp >= e.timestamp,
                decreases self.entries.len() - p,
            {
                p = p + 1;
            }
            proof {
                assert(t[0] == e@);
                assert(t.drop_first() =~= orig.skip(k + 1));
                assert(orig.take(k + 1).drop_last() =~= orig.take(k));
                assert(orig.take(k + 1).last() == e@);
                assert forall|j: int| 0 <= j < p implies kept[j].timestamp >= e@.timestamp by {
                    assert(kept[j] == self.entries@[j]@);
                }
                if p < kept.len() {
                    assert(kept[p as int] == self.entries@[p as int]@);
                }
                lemma_insert_by_time_split(kept, e@, p as int);
                let whole = kept + t;
                assert(whole[kept.len() as int] == e@);
                lemma_reinsert(whole, kept.len() as int, p as int, self.hash_to_id@, self.next_id);
                assert(whole.remove(kept.len() as int).insert(p as int, e@) =~= kept.insert(p as int, e@) + orig.skip(k + 1));
            }
            self.entries.insert(p, e);
            proof {
                assert(models(self.entries@) =~= kept.insert(p as int, e@));
            }
        }
        proof {
            assert(orig.take(orig.len() as int) =~= orig);
            assert(orig.skip(orig.len() as int) =~= Seq::<EntryModel>::empty());
            assert(models(self.entries@) + Seq::<EntryModel>::empty() =~= models(self.entries@));
        }
    }

    /// The id the next new entry will get.
    pub fn next_id(&self) -> (r: u64)
        ensures
            r == self.spec_next_id(),
    {
        self.next_id
    }

    /// Number of entries.
    pub fn len(&self) -> (r: usize)
        ensures
            r == self.model().len(),
    {
        self.entries.len()
    }

    /// Whether there are no entries.
    pub fn is_empty(&self) -> (r: bool)
        ensures
            r == (self.model().len() == 0),
    {
        self.entries.is_empty()
    }

    /// All entries, most recent first.
    pub fn entries(&self) -> (r: &[ClipEntry])
        ensures
            models(r@) == self.model(),
    {
        self.entries.as_slice()
    }

    /// The position of the entry with the given id.
    fn position_of(&self, id: u64) -> (r: Option<usize>)
        ensures
            match r {
                Some(i) => i < self.entries.len() && self.model()[i as int].id == id,
                None => forall|i: int| 0 <= i < self.model().len() ==> self.model()[i].id != id,
            },
    {
        let mut i: usize = 0;
        while i < self.entries.len()
            invariant
                i <= self.entries.len(),
                forall|k: int| 0 <= k < i ==> self.model()[k].id != id,
            decreases self.entries.len() - i,
        {
            if self.entries[i].id == id {
                return Some(i);
            }
            i = i + 1;
        }
        None
    }

    /// The id of the entry whose content hash is `hash`, if any.
    pub fn find_by_hash(&self, hash: u64) -> (r: Option<u64>)
        requires
            self.wf(),
        ensures
            r is Some <==> has_hash(self.model(), hash),
            r is Some ==> r->0 == self.model()[hash_pos(self.model(), hash)].id,
    {
        match self.hash_to_id.get(&hash) {
            Some(id) => {
                proof {
                    let s = self.model();
                    let p = hash_pos(s, hash);
                    assert(s[p].content_hash == hash);
                }
                Some(*id)
            },
            None => None,
        }
    }
}

} // verus!
