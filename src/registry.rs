use vstd::prelude::*;

use crate::config::{Config, PermanentRegisterValue};
use crate::clip::{ContentModel, fresh_entry, lemma_key_sets, opt_view, with_key, without_key, ClipEntry, EntryModel};
use crate::history::{holds_hash, kept_in, lemma_holds_frame, lemma_new_entry_hash, protected_only, after_insert, has_hash, hash_pos, has_id, id_pos, ledger_wf, lemma_rotated_keeps, rotated, lemma_update_keeps_wf, models, ClipboardHistory};

verus! {

/// Number of register keys: `0-9`, `a-z`, `A-Z`.
pub const REGISTER_COUNT: usize = 62;

/// A register key: an ASCII digit or letter.
pub open spec fn is_register_key(c: char) -> bool {
    ('0' <= c && c <= '9') || ('a' <= c && c <= 'z') || ('A' <= c && c <= 'Z')
}

/// The table slot of a register key: digits, then lower case, then upper case.
pub open spec fn slot(c: char) -> int {
    if '0' <= c && c <= '9' {
        c as int - '0' as int
    } else if 'a' <= c && c <= 'z' {
        10 + (c as int - 'a' as int)
    } else {
        36 + (c as int - 'A' as int)
    }
}

/// The register key of a table slot.
pub open spec fn slot_key(i: int) -> char {
    if i < 10 {
        (i + '0' as int) as char
    } else if i < 36 {
        (i - 10 + 'a' as int) as char
    } else {
        (i - 36 + 'A' as int) as char
    }
}

/// Why a register operation was refused.
#[derive(Debug, Clone, Copy, PartialEq, Eq, Structural)]
pub enum RegisterError {
    /// The key is not one of the 62 register symbols.
    InvalidKey(char),
    /// No entry has this id.
    UnknownEntry(u64),
    /// The entry holds a permanent register and cannot be deleted.
    CannotDelete(u64),
}

/// Validate that a character is a register key: `0-9`, `a-z` or `A-Z`.
pub fn is_valid_register_key(key: char) -> (r: bool)
    ensures
        r == is_register_key(key),
{
    ('0' <= key && key <= '9') || ('a' <= key && key <= 'z') || ('A' <= key && key <= 'Z')
}

fn slot_of(key: char) -> (r: usize)
    requires
        is_register_key(key),
    ensures
        r == slot(key),
        r < REGISTER_COUNT,
{
    if '0' <= key && key <= '9' {
        (key as u32 - '0' as u32) as usize
    } else if 'a' <= key && key <= 'z' {
        10 + (key as u32 - 'a' as u32) as usize
    } else {
        36 + (key as u32 - 'A' as u32) as usize
    }
}

fn key_of_slot(i: usize) -> (r: char)
    requires
        i < REGISTER_COUNT,
    ensures
        r == slot_key(i as int),
        is_register_key(r),
        slot(r) == i,
{
    if i < 10 {
        (i as u8 + 48u8) as char
    } else if i < 36 {
        (i as u8 - 10 + 97u8) as char
    } else {
        (i as u8 - 36 + 65u8) as char
    }
}

/// Keys `0..62` and slots correspond one to one.
proof fn lemma_slot_injective(a: char, b: char)
    requires
        is_register_key(a),
        is_register_key(b),
        slot(a) == slot(b),
    ensures
        a == b,
{
}

/// The register keys held by an entry, temporary or permanent.
pub open spec fn keys_of(e: EntryModel, permanent: bool) -> Seq<char> {
    if permanent { e.permanent_registers } else { e.temporary_registers }
}

/// An entry with `key` added to or dropped from one of its register lists.
pub open spec fn retag(e: EntryModel, key: char, permanent: bool, add: bool) -> EntryModel {
    if permanent {
        EntryModel {
            permanent_registers: if add {
                with_key(e.permanent_registers, key)
            } else {
                without_key(e.permanent_registers, key)
            },
            ..e
        }
    } else {
        EntryModel {
            temporary_registers: if add {
                with_key(e.temporary_registers, key)
            } else {
                without_key(e.temporary_registers, key)
            },
            ..e
        }
    }
}

/// The entries with `retag` applied to the one with id `id`, if any.
pub open spec fn retag_id(
    s: Seq<EntryModel>,
    id: u64,
    key: char,
    permanent: bool,
    add: bool,
) -> Seq<EntryModel> {
    if has_id(s, id) {
        s.update(id_pos(s, id), retag(s[id_pos(s, id)], key, permanent, add))
    } else {
        s
    }
}

/// Invariant I1 for one register kind: an entry lists key `k` exactly when
/// the map sends `k` to that entry's id, and every mapped id is present.
pub open spec fn linked(m: Map<char, u64>, s: Seq<EntryModel>, permanent: bool) -> bool {
    &&& forall|k: char, i: int|
        #![trigger keys_of(s[i], permanent).contains(k)]
        #![trigger m[k], s[i]]
        0 <= i < s.len() ==> (keys_of(s[i], permanent).contains(k) <==> (m.contains_key(k)
            && m[k] == s[i].id))
    &&& forall|k: char| #[trigger] m.contains_key(k) ==> has_id(s, m[k])
}

/// The map read back from the entries' register lists: each valid key goes
/// to the id of the last entry (in list order) that lists it.
pub open spec fn rebuilt(s: Seq<EntryModel>, permanent: bool) -> Map<char, u64>
    decreases s.len(),
{
    if s.len() == 0 {
        Map::empty()
    } else {
        rebuilt(s.drop_last(), permanent).union_prefer_right(
            listed(keys_of(s.last(), permanent), s.last().id),
        )
    }
}

/// Each valid key of `keys` sent to `id`.
pub open spec fn listed(keys: Seq<char>, id: u64) -> Map<char, u64> {
    Map::new(|k: char| is_register_key(k) && keys.contains(k), |k: char| id)
}

/// Distinct ids in `s`.
pub open spec fn ids_unique(s: Seq<EntryModel>) -> bool {
    forall|i: int, j: int| 0 <= i < s.len() && 0 <= j < s.len() && i != j ==> s[i].id != s[j].id
}

/// What `retag_id` changes: only one kind of list of the entry with `id`.
proof fn lemma_retag_frame(s: Seq<EntryModel>, id: u64, key: char, permanent: bool, add: bool)
    requires
        ids_unique(s),
    ensures
        ({
            let r = retag_id(s, id, key, permanent, add);
            &&& r.len() == s.len()
            &&& ids_unique(r)
            &&& has_id(r, id) == has_id(s, id)
            &&& forall|i: int|
                0 <= i < s.len() ==> r[i].id == s[i].id && r[i].content_hash == s[i].content_hash
                    && r[i].content == s[i].content && r[i].name == s[i].name
                    && r[i].description == s[i].description
                    && keys_of(r[i], !permanent) == keys_of(s[i], !permanent)
                    && keys_of(r[i], permanent) == if s[i].id == id {
                    if add {
                        with_key(keys_of(s[i], permanent), key)
                    } else {
                        without_key(keys_of(s[i], permanent), key)
                    }
                } else {
                    keys_of(s[i], permanent)
                }
        }),
{
    let r = retag_id(s, id, key, permanent, add);
    if has_id(s, id) {
        let p = id_pos(s, id);
        assert forall|i: int| 0 <= i < s.len() && s[i].id == id implies i == p by {}
        if has_id(r, id) {
        } else {
            assert(r[p].id == id);
        }
    } else {
        assert(r == s);
    }
    assert forall|i: int, j: int| 0 <= i < r.len() && 0 <= j < r.len() && i != j implies r[i].id
        != r[j].id by {
        assert(r[i].id == s[i].id && r[j].id == s[j].id);
    }
}

/// A list change that leaves one kind untouched keeps that kind linked.
pub proof fn lemma_linked_frame(m: Map<char, u64>, s: Seq<EntryModel>, r: Seq<EntryModel>, permanent: bool)
    requires
        linked(m, s, permanent),
        r.len() == s.len(),
        forall|i: int| 0 <= i < s.len() ==> r[i].id == s[i].id && keys_of(r[i], permanent) == keys_of(
            s[i],
            permanent,
        ),
    ensures
        linked(m, r, permanent),
{
    assert forall|k: char| #[trigger] m.contains_key(k) implies has_id(r, m[k]) by {
        let i = choose|i: int| 0 <= i < s.len() && s[i].id == m[k];
        assert(r[i].id == m[k]);
    }
    assert forall|k: char, i: int| 0 <= i < r.len() implies (keys_of(r[i], permanent).contains(k)
        <==> (m.contains_key(k) && m[k] == r[i].id)) by {
        assert(keys_of(s[i], permanent).contains(k) <==> (m.contains_key(k) && m[k] == s[i].id));
    }
}

/// Assigning `key` to an existing entry `id` (after detaching it from its
/// previous owner) keeps the kind linked, with `key` now sent to `id`.
proof fn lemma_assign_links(m: Map<char, u64>, s: Seq<EntryModel>, permanent: bool, key: char, id: u64)
    requires
        linked(m, s, permanent),
        ids_unique(s),
        has_id(s, id),
    ensures
        ({
            let s1 = if m.contains_key(key) {
                retag_id(s, m[key], key, permanent, false)
            } else {
                s
            };
            let s2 = retag_id(s1, id, key, permanent, true);
            &&& linked(m.insert(key, id), s2, permanent)
            &&& s2.len() == s.len()
            &&& ids_unique(s2)
            &&& forall|i: int|
                0 <= i < s.len() ==> s2[i].id == s[i].id && s2[i].content_hash == s[i].content_hash
                    && keys_of(s2[i], !permanent) == keys_of(s[i], !permanent)
        }),
{
    let s1 = if m.contains_key(key) {
        retag_id(s, m[key], key, permanent, false)
    } else {
        s
    };
    if m.contains_key(key) {
        lemma_retag_frame(s, m[key], key, permanent, false);
    }
    lemma_retag_frame(s1, id, key, permanent, true);
    let s2 = retag_id(s1, id, key, permanent, true);
    let m2 = m.insert(key, id);
    assert forall|k: char, i: int| 0 <= i < s2.len() implies (keys_of(s2[i], permanent).contains(k)
        <==> (m2.contains_key(k) && m2[k] == s2[i].id)) by {
        lemma_key_sets(keys_of(s[i], permanent), key, k);
        lemma_key_sets(keys_of(s1[i], permanent), key, k);
        assert(keys_of(s[i], permanent).contains(k) <==> (m.contains_key(k) && m[k] == s[i].id));
    }
    assert forall|k: char| #[trigger] m2.contains_key(k) implies has_id(s2, m2[k]) by {
        let i = choose|i: int| 0 <= i < s.len() && s[i].id == m2[k];
        assert(s2[i].id == m2[k]);
    }
}

/// Detaching `key` from its owner keeps the kind linked, with `key` unmapped.
proof fn lemma_remove_links(m: Map<char, u64>, s: Seq<EntryModel>, permanent: bool, key: char)
    requires
        linked(m, s, permanent),
        ids_unique(s),
    ensures
        ({
            let s1 = if m.contains_key(key) {
                retag_id(s, m[key], key, permanent, false)
            } else {
                s
            };
            &&& linked(m.remove(key), s1, permanent)
            &&& s1.len() == s.len()
            &&& ids_unique(s1)
            &&& forall|i: int|
                0 <= i < s.len() ==> s1[i].id == s[i].id && s1[i].content_hash == s[i].content_hash
                    && keys_of(s1[i], !permanent) == keys_of(s[i], !permanent)
        }),
{
    let s1 = if m.contains_key(key) {
        retag_id(s, m[key], key, permanent, false)
    } else {
        s
    };
    if m.contains_key(key) {
        lemma_retag_frame(s, m[key], key, permanent, false);
    }
    let m2 = m.remove(key);
    assert forall|k: char, i: int| 0 <= i < s1.len() implies (keys_of(s1[i], permanent).contains(k)
        <==> (m2.contains_key(k) && m2[k] == s1[i].id)) by {
        lemma_key_sets(keys_of(s[i], permanent), key, k);
        assert(keys_of(s[i], permanent).contains(k) <==> (m.contains_key(k) && m[k] == s[i].id));
    }
    assert forall|k: char| #[trigger] m2.contains_key(k) implies has_id(s1, m2[k]) by {
        let i = choose|i: int| 0 <= i < s.len() && s[i].id == m2[k];
        assert(s1[i].id == m2[k]);
    }
}

/// The entries after `key` is given to `id`: detached from its previous
/// owner (if any), then added to the entry with `id`.
pub open spec fn after_assign(
    s: Seq<EntryModel>,
    m: Map<char, u64>,
    permanent: bool,
    key: char,
    id: u64,
) -> Seq<EntryModel> {
    retag_id(after_unassign(s, m, permanent, key), id, key, permanent, true)
}

/// The entries after `key` is detached from its owner, if any.
pub open spec fn after_unassign(
    s: Seq<EntryModel>,
    m: Map<char, u64>,
    permanent: bool,
    key: char,
) -> Seq<EntryModel> {
    if m.contains_key(key) {
        retag_id(s, m[key], key, permanent, false)
    } else {
        s
    }
}

/// `pairs` lists exactly the assignments of `m`, each key once.
pub open spec fn lists_map(pairs: Seq<(char, u64)>, m: Map<char, u64>) -> bool {
    &&& forall|k: char, v: u64| pairs.contains((k, v)) <==> (m.contains_key(k) && m[k] == v)
    &&& forall|a: int, b: int| 0 <= a < b < pairs.len() ==> pairs[a].0 != pairs[b].0
}

/// `m` without the keys that send to `id`.
pub open spec fn without_id(m: Map<char, u64>, id: u64) -> Map<char, u64> {
    Map::new(|k: char| m.contains_key(k) && m[k] != id, |k: char| m[k])
}

/// Every entry with its temporary list emptied.
pub open spec fn temporaries_cleared(s: Seq<EntryModel>) -> Seq<EntryModel> {
    s.map_values(|e: EntryModel| EntryModel { temporary_registers: Seq::empty(), ..e })
}

/// What `rebuilt` holds for one key.
proof fn lemma_rebuilt(s: Seq<EntryModel>, permanent: bool, k: char)
    ensures
        rebuilt(s, permanent).contains_key(k) <==> (is_register_key(k) && exists|i: int|
            0 <= i < s.len() && #[trigger] keys_of(s[i], permanent).contains(k)),
        forall|i: int|
            0 <= i < s.len() && is_register_key(k) && keys_of(s[i], permanent).contains(k) && (forall|
                j: int,
            | i < j < s.len() ==> !#[trigger] keys_of(s[j], permanent).contains(k))
                ==> rebuilt(s, permanent)[k] == s[i].id,
    decreases s.len(),
{
    if s.len() > 0 {
        let t = s.drop_last();
        lemma_rebuilt(t, permanent, k);
        assert forall|i: int| 0 <= i < t.len() implies t[i] == s[i] by {}
        if is_register_key(k) && exists|i: int|
            0 <= i < s.len() && #[trigger] keys_of(s[i], permanent).contains(k) {
            let i = choose|i: int| 0 <= i < s.len() && #[trigger] keys_of(s[i], permanent).contains(k);
            if i < t.len() {
                assert(keys_of(t[i], permanent).contains(k));
            }
        }
    }
}

/// Reconstructing a linked map from the entries' lists gives the map back.
proof fn lemma_rebuilt_linked(m: Map<char, u64>, s: Seq<EntryModel>, permanent: bool)
    requires
        linked(m, s, permanent),
        ids_unique(s),
        forall|k: char| #[trigger] m.contains_key(k) ==> is_register_key(k),
    ensures
        rebuilt(s, permanent) == m,
{
    assert forall|k: char| #[trigger] rebuilt(s, permanent).contains_key(k) <==> m.contains_key(k) by {
        lemma_rebuilt(s, permanent, k);
        if m.contains_key(k) {
            let i = choose|i: int| 0 <= i < s.len() && s[i].id == m[k];
            assert(keys_of(s[i], permanent).contains(k));
        }
    }
    assert forall|k: char| #[trigger] m.contains_key(k) implies rebuilt(s, permanent)[k] == m[k] by {
        lemma_rebuilt(s, permanent, k);
        let i = choose|i: int| 0 <= i < s.len() && s[i].id == m[k];
        assert(keys_of(s[i], permanent).contains(k));
        assert forall|j: int| i < j < s.len() implies !#[trigger] keys_of(s[j], permanent).contains(k) by {
            if keys_of(s[j], permanent).contains(k) {
                assert(m[k] == s[j].id);
            }
        }
    }
    assert(rebuilt(s, permanent) =~= m);
}

/// Deleting an entry, with the keys that sent to it dropped, keeps a kind
/// linked.
proof fn lemma_delete_links(m: Map<char, u64>, s: Seq<EntryModel>, p: int, permanent: bool)
    requires
        linked(m, s, permanent),
        ids_unique(s),
        0 <= p < s.len(),
    ensures
        linked(without_id(m, s[p].id), s.remove(p), permanent),
{
    let t = s.remove(p);
    let m2 = without_id(m, s[p].id);
    assert forall|i: int| 0 <= i < t.len() implies t[i] == s[if i < p { i } else { i + 1 }] by {}
    assert forall|k: char, i: int| 0 <= i < t.len() implies (keys_of(t[i], permanent).contains(k)
        <==> (m2.contains_key(k) && m2[k] == t[i].id)) by {
        let j = if i < p { i } else { i + 1 };
        assert(t[i] == s[j]);
        assert(keys_of(s[j], permanent).contains(k) <==> (m.contains_key(k) && m[k] == s[j].id));
        assert(s[j].id != s[p].id);
    }
    assert forall|k: char| #[trigger] m2.contains_key(k) implies has_id(t, m2[k]) by {
        let j = choose|j: int| 0 <= j < s.len() && s[j].id == m[k];
        assert(j != p);
        if j < p {
            assert(t[j].id == m[k]);
        } else {
            assert(t[j - 1].id == m[k]);
        }
    }
}

/// A prefix grown by one element.
proof fn lemma_take_next(s: Seq<char>, j: int)
    requires
        0 <= j < s.len(),
    ensures
        forall|c: char| s.take(j + 1).contains(c) <==> (s.take(j).contains(c) || c == s[j]),
{
    let a = s.take(j);
    let b = s.take(j + 1);
    assert forall|c: char| b.contains(c) <==> (a.contains(c) || c == s[j]) by {
        if b.contains(c) && c != s[j] {
            let x = choose|x: int| 0 <= x < b.len() && b[x] == c;
            assert(a[x] == c);
        }
        if a.contains(c) {
            let x = choose|x: int| 0 <= x < a.len() && a[x] == c;
            assert(b[x] == c);
        }
        if c == s[j] {
            assert(b[j] == c);
        }
    }
}

/// Recording a capture keeps each register kind linked: a touched entry
/// keeps its lists, a new entry has none, and rotation drops only entries
/// without registers.
pub proof fn lemma_insert_links(
    m: Map<char, u64>,
    s: Seq<EntryModel>,
    next_id: u64,
    max_entries: nat,
    c: ContentModel,
    name: Option<Seq<char>>,
    description: Option<Seq<char>>,
    now: u64,
    permanent: bool,
)
    requires
        linked(m, s, permanent),
        ledger_wf(s, next_id),
    ensures
        linked(m, after_insert(s, next_id, max_entries, c, name, description, now).0, permanent),
{
    let t = after_insert(s, next_id, max_entries, c, name, description, now).0;
    // each entry of `t` is an entry of `s` up to time and metadata, or new
    if has_hash(s, c.hash()) {
        let p = hash_pos(s, c.hash());
        assert forall|i: int| 0 <= i < t.len() implies t[i].id == s[if i == 0 { p } else if i - 1 < p { i - 1 } else { i }].id
            && keys_of(t[i], permanent) == keys_of(s[if i == 0 { p } else if i - 1 < p { i - 1 } else { i }], permanent) by {}
        assert forall|k: char, i: int| 0 <= i < t.len() implies (keys_of(t[i], permanent).contains(k)
            <==> (m.contains_key(k) && m[k] == t[i].id)) by {
            let j = if i == 0 { p } else if i - 1 < p { i - 1 } else { i };
            assert(keys_of(s[j], permanent).contains(k) <==> (m.contains_key(k) && m[k] == s[j].id));
        }
        assert forall|k: char| #[trigger] m.contains_key(k) implies has_id(t, m[k]) by {
            let j = choose|j: int| 0 <= j < s.len() && s[j].id == m[k];
            if j == p {
                assert(t[0].id == m[k]);
            } else if j < p {
                assert(t[j + 1].id == m[k]);
            } else {
                assert(t[j].id == m[k]);
            }
        }
    } else {
        let e = fresh_entry(next_id, c, name, description, now);
        let t0 = seq![e] + s;
        lemma_rotated_keeps(t0, max_entries);
        assert forall|k: char, x: EntryModel| #[trigger] t0.contains(x) && #[trigger] keys_of(x, permanent).contains(k)
            ==> m.contains_key(k) && m[k] == x.id by {
            if t0.contains(x) && keys_of(x, permanent).contains(k) {
                let i = choose|i: int| 0 <= i < t0.len() && t0[i] == x;
                if i == 0 {
                    assert(keys_of(e, permanent) =~= Seq::<char>::empty());
                } else {
                    assert(t0[i] == s[i - 1]);
                }
            }
        }
        assert forall|k: char, i: int| 0 <= i < t.len() implies (keys_of(t[i], permanent).contains(k)
            <==> (m.contains_key(k) && m[k] == t[i].id)) by {
            assert(t.contains(t[i]));
            assert(t0.contains(t[i]));
            let q = choose|q: int| 0 <= q < t0.len() && t0[q] == t[i];
            if m.contains_key(k) && m[k] == t[i].id {
                if q == 0 {
                    let j = choose|j: int| 0 <= j < s.len() && s[j].id == m[k];
                    assert(s[j].id < next_id);
                } else {
                    assert(t0[q] == s[q - 1]);
                    assert(keys_of(s[q - 1], permanent).contains(k) <==> (m.contains_key(k) && m[k] == s[q - 1].id));
                }
            }
        }
        assert forall|k: char| #[trigger] m.contains_key(k) implies has_id(t, m[k]) by {
            let j = choose|j: int| 0 <= j < s.len() && s[j].id == m[k];
            assert(keys_of(s[j], permanent).contains(k));
            assert(keys_of(s[j], permanent).len() > 0);
            assert(t0[j + 1] == s[j]);
            assert(t0[j + 1].is_protected());
            assert(t.contains(t0[j + 1]));
            let q = choose|q: int| 0 <= q < t.len() && t[q] == t0[j + 1];
            assert(t[q].id == m[k]);
        }
    }
}

/// Dropping the entries without registers keeps a kind linked.
pub proof fn lemma_clear_links(m: Map<char, u64>, s: Seq<EntryModel>, permanent: bool)
    requires
        linked(m, s, permanent),
    ensures
        linked(m, s.filter(protected_only()), permanent),
{
    broadcast use vstd::seq_lib::group_filter_ensures;

    let t = s.filter(protected_only());
    assert forall|k: char, i: int| 0 <= i < t.len() implies (keys_of(t[i], permanent).contains(k)
        <==> (m.contains_key(k) && m[k] == t[i].id)) by {
        assert(t.contains(t[i]));
        s.lemma_filter_contains_rev(protected_only(), t[i]);
        let q = choose|q: int| 0 <= q < s.len() && s[q] == t[i];
        assert(keys_of(s[q], permanent).contains(k) <==> (m.contains_key(k) && m[k] == s[q].id));
    }
    assert forall|k: char| #[trigger] m.contains_key(k) implies has_id(t, m[k]) by {
        let j = choose|j: int| 0 <= j < s.len() && s[j].id == m[k];
        assert(keys_of(s[j], permanent).contains(k));
        assert(keys_of(s[j], permanent).len() > 0);
        s.lemma_filter_contains(protected_only(), j);
        let q = choose|q: int| 0 <= q < t.len() && t[q] == s[j];
        assert(t[q].id == m[k]);
    }
}

/// The predicate "`m` sends the key to `id`".
pub open spec fn owned_by(m: Map<char, u64>, id: u64) -> spec_fn(char) -> bool {
    |k: char| m.contains_key(k) && m[k] == id
}

/// An entry keeping only the keys that the tables send to it.
pub open spec fn pruned(e: EntryModel, temporary: Map<char, u64>, permanent: Map<char, u64>) -> EntryModel {
    EntryModel {
        temporary_registers: e.temporary_registers.filter(owned_by(temporary, e.id)),
        permanent_registers: e.permanent_registers.filter(owned_by(permanent, e.id)),
        ..e
    }
}

/// The entry that a rebuilt key comes from.
proof fn lemma_rebuilt_owner(s: Seq<EntryModel>, permanent: bool, k: char)
    requires
        rebuilt(s, permanent).contains_key(k),
    ensures
        exists|i: int|
            0 <= i < s.len() && keys_of(s[i], permanent).contains(k) && rebuilt(s, permanent)[k]
                == s[i].id,
    decreases s.len(),
{
    let t = s.drop_last();
    let l = listed(keys_of(s.last(), permanent), s.last().id);
    if l.contains_key(k) {
        assert(keys_of(s[s.len() - 1], permanent).contains(k));
    } else {
        lemma_rebuilt_owner(t, permanent, k);
        let i = choose|i: int|
            0 <= i < t.len() && keys_of(t[i], permanent).contains(k) && rebuilt(t, permanent)[k]
                == t[i].id;
        assert(t[i] == s[i]);
    }
}

/// Pruning the entries' lists to what rebuilt tables send to them links them.
proof fn lemma_pruned_links(s: Seq<EntryModel>, mt: Map<char, u64>, mp: Map<char, u64>, permanent: bool)
    requires
        ids_unique(s),
        mt == rebuilt(s, false),
        mp == rebuilt(s, true),
    ensures
        linked(
            if permanent { mp } else { mt },
            s.map_values(|e: EntryModel| pruned(e, mt, mp)),
            permanent,
        ),
{
    broadcast use vstd::seq_lib::group_filter_ensures;

    let m = if permanent { mp } else { mt };
    let r = s.map_values(|e: EntryModel| pruned(e, mt, mp));
    assert forall|k: char, i: int| 0 <= i < r.len() implies (keys_of(r[i], permanent).contains(k)
        <==> (m.contains_key(k) && m[k] == r[i].id)) by {
        let ks = keys_of(s[i], permanent);
        assert(keys_of(r[i], permanent) == ks.filter(owned_by(m, s[i].id)));
        if keys_of(r[i], permanent).contains(k) {
            ks.lemma_filter_contains_rev(owned_by(m, s[i].id), k);
            let f = ks.filter(owned_by(m, s[i].id));
            let j = choose|j: int| 0 <= j < f.len() && f[j] == k;
            ks.lemma_filter_pred(owned_by(m, s[i].id), j);
        }
        if m.contains_key(k) && m[k] == r[i].id {
            lemma_rebuilt_owner(s, permanent, k);
            let o = choose|o: int|
                0 <= o < s.len() && keys_of(s[o], permanent).contains(k) && rebuilt(s, permanent)[k]
                    == s[o].id;
            assert(o == i);
            let x = choose|x: int| 0 <= x < ks.len() && ks[x] == k;
            ks.lemma_filter_contains(owned_by(m, s[i].id), x);
        }
    }
    assert forall|k: char| #[trigger] m.contains_key(k) implies has_id(r, m[k]) by {
        lemma_rebuilt_owner(s, permanent, k);
        let o = choose|o: int|
            0 <= o < s.len() && keys_of(s[o], permanent).contains(k) && rebuilt(s, permanent)[k]
                == s[o].id;
        assert(r[o].id == m[k]);
    }
}

/// Configured register `j` is in place: its key goes to an entry holding
/// the hash of its configured content.
pub open spec fn in_place(
    m: Map<char, u64>,
    s: Seq<EntryModel>,
    defs: Seq<(char, PermanentRegisterValue)>,
    j: int,
) -> bool {
    placed(m, s, defs[j].0, defs[j].1.spec_content().hash())
}

/// `key` goes to an entry holding hash `h`.
pub open spec fn placed(m: Map<char, u64>, s: Seq<EntryModel>, key: char, h: u64) -> bool {
    m.contains_key(key) && holds_hash(s, m[key], h)
}

/// The entry with id `id` is still in `s2`, with its hash; unless its hash
/// is `h`, also with its content, name and description.
pub open spec fn follows(s: Seq<EntryModel>, s2: Seq<EntryModel>, id: u64, h: u64) -> bool {
    let e = s[id_pos(s, id)];
    let f = s2[id_pos(s2, id)];
    &&& has_id(s2, id)
    &&& f.content_hash == e.content_hash
    &&& e.content_hash != h ==> f.content == e.content && f.name == e.name && f.description
        == e.description
}

/// No definition after `j` and before `n` has `j`'s key.
pub open spec fn last_before(defs: Seq<(char, PermanentRegisterValue)>, j: int, n: int) -> bool {
    forall|x: int| j < x < n ==> #[trigger] defs[x].0 != defs[j].0
}

/// No entry of `s` and no other definition has the hash of definition
/// `j`'s content: loading creates its entry.
pub open spec fn fresh_def(s: Seq<EntryModel>, defs: Seq<(char, PermanentRegisterValue)>, j: int) -> bool {
    &&& !has_hash(s, defs[j].1.spec_content().hash())
    &&& forall|x: int|
        0 <= x < defs.len() && x != j ==> #[trigger] defs[x].1.spec_content().hash()
            != defs[j].1.spec_content().hash()
}

/// Definition `j`'s key goes to an entry with its content, name and
/// description.
pub open spec fn made(
    m: Map<char, u64>,
    s: Seq<EntryModel>,
    defs: Seq<(char, PermanentRegisterValue)>,
    j: int,
) -> bool {
    &&& m.contains_key(defs[j].0)
    &&& has_id(s, m[defs[j].0])
    &&& s[id_pos(s, m[defs[j].0])].content == defs[j].1.spec_content()
    &&& s[id_pos(s, m[defs[j].0])].name == defs[j].1.spec_name()
    &&& s[id_pos(s, m[defs[j].0])].description == defs[j].1.spec_description()
}

/// Registers: two tables (temporary, permanent) from key to entry id.
#[derive(Debug)]
pub struct Registry {
    temporary: Vec<Option<u64>>,
    permanent: Vec<Option<u64>>,
}

/// The map held by a table of slots.
pub open spec fn table_map(t: Seq<Option<u64>>) -> Map<char, u64> {
    Map::new(|k: char| is_register_key(k) && t[slot(k)] is Some, |k: char| t[slot(k)]->0)
}

/// Write the register change to the entry with id `id`, keeping the
/// ledger's invariant.
fn retag_entry(history: &mut ClipboardHistory, id: u64, key: char, permanent: bool, add: bool)
    requires
        old(history).wf(),
    ensures
        final(history).wf(),
        final(history).model() == retag_id(old(history).model(), id, key, permanent, add),
        final(history).spec_next_id() == old(history).spec_next_id(),
        final(history).spec_max_entries() == old(history).spec_max_entries(),
{
    let ghost s = history.model();
    let ghost m = history.index();
    match history.get_entry_mut(id) {
        Some(e) => {
            if permanent {
                if add {
                    e.add_permanent_register(key);
                } else {
                    e.remove_permanent_register(key);
                }
            } else {
                if add {
                    e.add_temporary_register(key);
                } else {
                    e.remove_temporary_register(key);
                }
            }
            proof {
                lemma_update_keeps_wf(s, id_pos(s, id), history.model()[id_pos(s, id)], m, history.spec_next_id());
            }
        },
        None => {},
    }
}

impl Registry {
    /// Both tables hold one slot per register key.
    pub closed spec fn wf(&self) -> bool {
        self.temporary@.len() == REGISTER_COUNT && self.permanent@.len() == REGISTER_COUNT
    }

    /// Temporary assignments: key -> entry id.
    pub closed spec fn temporary_map(&self) -> Map<char, u64> {
        table_map(self.temporary@)
    }

    /// Permanent assignments: key -> entry id.
    pub closed spec fn permanent_map(&self) -> Map<char, u64> {
        table_map(self.permanent@)
    }

    /// The assignments of one kind.
    pub open spec fn map_of(&self, permanent: bool) -> Map<char, u64> {
        if permanent { self.permanent_map() } else { self.temporary_map() }
    }

    /// I1: both kinds of register agree with the entries' lists.
    pub open spec fn consistent(&self, s: Seq<EntryModel>) -> bool {
        linked(self.temporary_map(), s, false) && linked(self.permanent_map(), s, true)
    }

    fn table(&self, permanent: bool) -> (r: &Vec<Option<u64>>)
        ensures
            table_map(r@) == self.map_of(permanent),
            r@.len() == if permanent { self.permanent@.len() } else { self.temporary@.len() },
    {
        if permanent { &self.permanent } else { &self.temporary }
    }

    fn set_slot(&mut self, permanent: bool, key: char, value: Option<u64>)
        requires
            old(self).wf(),
            is_register_key(key),
        ensures
            final(self).wf(),
            final(self).map_of(!permanent) == old(self).map_of(!permanent),
            final(self).map_of(permanent) == match value {
                Some(id) => old(self).map_of(permanent).insert(key, id),
                None => old(self).map_of(permanent).remove(key),
            },
    {
        let i = slot_of(key);
        proof {
            assert forall|a: char, b: char| is_register_key(a) && is_register_key(b) && slot(a)
                == slot(b) implies a == b by {
                lemma_slot_injective(a, b);
            }
        }
        if permanent {
            self.permanent.set(i, value);
        } else {
            self.temporary.set(i, value);
        }
        proof {
            match value {
                Some(id) => {
                    assert(self.map_of(permanent) =~= old(self).map_of(permanent).insert(key, id));
                },
                None => {
                    assert(self.map_of(permanent) =~= old(self).map_of(permanent).remove(key));
                },
            }
            assert(self.map_of(!permanent) =~= old(self).map_of(!permanent));
        }
    }

    fn lookup(&self, permanent: bool, key: char) -> (r: Option<u64>)
        requires
            self.wf(),
        ensures
            r == if self.map_of(permanent).contains_key(key) {
                Some(self.map_of(permanent)[key])
            } else {
                None::<u64>
            },
    {
        if !is_valid_register_key(key) {
            return None;
        }
        let i = slot_of(key);
        let t = self.table(permanent);
        t[i]
    }

    fn assign(&mut self, permanent: bool, key: char, clip_id: u64, history: &mut ClipboardHistory) -> (r: Result<(), RegisterError>)
        requires
            old(self).wf(),
            old(history).wf(),
        ensures
            final(self).wf(),
            final(history).wf(),
            final(history).spec_next_id() == old(history).spec_next_id(),
            final(history).spec_max_entries() == old(history).spec_max_entries(),
            !is_register_key(key) ==> r == Err::<(), RegisterError>(RegisterError::InvalidKey(key)),
            is_register_key(key) && !has_id(old(history).model(), clip_id) ==> r == Err::<(), RegisterError>(
                RegisterError::UnknownEntry(clip_id),
            ),
            is_register_key(key) && has_id(old(history).model(), clip_id) ==> r is Ok,
            r is Err ==> *final(self) == *old(self) && final(history).model() == old(history).model(),
            r is Ok ==> final(self).map_of(permanent) == old(self).map_of(permanent).insert(key, clip_id)
                && final(self).map_of(!permanent) == old(self).map_of(!permanent)
                && final(history).model() == after_assign(
                old(history).model(),
                old(self).map_of(permanent),
                permanent,
                key,
                clip_id,
            ),
            old(self).consistent(old(history).model()) ==> final(self).consistent(
                final(history).model(),
            ),
    {
        if !is_valid_register_key(key) {
            return Err(RegisterError::InvalidKey(key));
        }
        if history.get_entry(clip_id).is_none() {
            return Err(RegisterError::UnknownEntry(clip_id));
        }
        let ghost s = history.model();
        let ghost m = self.map_of(permanent);
        proof {
            if self.consistent(s) {
                lemma_assign_links(m, s, permanent, key, clip_id);
                lemma_retag_frame(s, clip_id, key, permanent, true);
                if m.contains_key(key) {
                    lemma_retag_frame(s, m[key], key, permanent, false);
                }
            }
        }
        match self.lookup(permanent, key) {
            Some(old_id) => {
                retag_entry(history, old_id, key, permanent, false);
            },
            None => {},
        }
        let ghost s1 = history.model();
        retag_entry(history, clip_id, key, permanent, true);
        self.set_slot(permanent, key, Some(clip_id));
        proof {
            if old(self).consistent(s) {
                let s2 = history.model();
                assert(forall|i: int| 0 <= i < s.len() ==> s2[i].id == s[i].id && keys_of(s2[i], !permanent) == keys_of(s[i], !permanent));
                lemma_linked_frame(self.map_of(!permanent), s, s2, !permanent);
                assert(!!permanent == permanent);
            }
        }
        Ok(())
    }

    fn unassign(&mut self, permanent: bool, key: char, history: &mut ClipboardHistory) -> (r: Result<(), RegisterError>)
        requires
            old(self).wf(),
            old(history).wf(),
        ensures
            final(self).wf(),
            final(history).wf(),
            final(history).spec_next_id() == old(history).spec_next_id(),
            final(history).spec_max_entries() == old(history).spec_max_entries(),
            !is_register_key(key) <==> r == Err::<(), RegisterError>(RegisterError::InvalidKey(key)),
            is_register_key(key) ==> r is Ok,
            r is Err ==> *final(self) == *old(self) && final(history).model() == old(history).model(),
            r is Ok ==> final(self).map_of(permanent) == old(self).map_of(permanent).remove(key)
                && final(self).map_of(!permanent) == old(self).map_of(!permanent)
                && final(history).model() == after_unassign(
                old(history).model(),
                old(self).map_of(permanent),
                permanent,
                key,
            ),
            old(self).consistent(old(history).model()) ==> final(self).consistent(
                final(history).model(),
            ),
    {
        if !is_valid_register_key(key) {
            return Err(RegisterError::InvalidKey(key));
        }
        let ghost s = history.model();
        let ghost m = self.map_of(permanent);
        proof {
            if self.consistent(s) {
                lemma_remove_links(m, s, permanent, key);
            }
        }
        match self.lookup(permanent, key) {
            Some(old_id) => {
                retag_entry(history, old_id, key, permanent, false);
            },
            None => {},
        }
        self.set_slot(permanent, key, None);
        proof {
            if old(self).consistent(s) {
                let s2 = history.model();
                lemma_linked_frame(self.map_of(!permanent), s, s2, !permanent);
                assert(!!permanent == permanent);
            }
        }
        Ok(())
    }

    fn list(&self, permanent: bool) -> (r: Vec<(char, u64)>)
        requires
            self.wf(),
        ensures
            lists_map(r@, self.map_of(permanent)),
    {
        let t = self.table(permanent);
        let ghost m = self.map_of(permanent);
        let mut r: Vec<(char, u64)> = Vec::new();
        let mut i: usize = 0;
        while i < REGISTER_COUNT
            invariant
                i <= REGISTER_COUNT,
                t@.len() == REGISTER_COUNT,
                table_map(t@) == m,
                forall|j: int| 0 <= j < r@.len() ==> slot(#[trigger] r@[j].0) < i && is_register_key(r@[j].0),
                forall|k: char, v: u64| r@.contains((k, v)) <==> (m.contains_key(k) && m[k] == v && slot(k) < i),
                forall|a: int, b: int| 0 <= a < b < r@.len() ==> slot(r@[a].0) < slot(r@[b].0),
            decreases REGISTER_COUNT - i,
        {
            let ghost before = r@;
            match t[i] {
                Some(id) => {
                    let k = key_of_slot(i);
                    r.push((k, id));
                    proof {
                        assert forall|k2: char, v: u64| r@.contains((k2, v)) <==> (m.contains_key(k2) && m[k2] == v && slot(k2) < i + 1) by {
                            if r@.contains((k2, v)) {
                                let j = choose|j: int| 0 <= j < r@.len() && r@[j] == (k2, v);
                                if j < before.len() {
                                    assert(before[j] == (k2, v));
                                    assert(before.contains((k2, v)));
                                }
                            }
                            if m.contains_key(k2) && m[k2] == v && slot(k2) < i + 1 {
                                if slot(k2) < i {
                                    assert(before.contains((k2, v)));
                                    let j = choose|j: int| 0 <= j < before.len() && before[j] == (k2, v);
                                    assert(r@[j] == (k2, v));
                                } else {
                                    lemma_slot_injective(k2, k);
                                    assert(r@[before.len() as int] == (k2, v));
                                }
                            }
                        }
                    }
                },
                None => {
                    proof {
                        assert forall|k2: char, v: u64| r@.contains((k2, v)) <==> (m.contains_key(k2) && m[k2] == v && slot(k2) < i + 1) by {
                            if m.contains_key(k2) && slot(k2) == i {
                                assert(t@[slot(k2)] is Some);
                            }
                        }
                    }
                },
            }
            i = i + 1;
        }
        proof {
            assert forall|k: char| #[trigger] m.contains_key(k) implies slot(k) < REGISTER_COUNT by {}
        }
        r
    }

    fn count(&self, permanent: bool) -> (r: usize)
        requires
            self.wf(),
        ensures
            r == self.map_of(permanent).dom().len(),
    {
        let pairs = self.list(permanent);
        let ghost m = self.map_of(permanent);
        proof {
            let keys = pairs@.map_values(|p: (char, u64)| p.0);
            assert(keys.no_duplicates());
            assert forall|k: char| #[trigger] keys.to_set().contains(k) <==> m.dom().contains(k) by {
                if m.dom().contains(k) {
                    assert(pairs@.contains((k, m[k])));
                    let j = choose|j: int| 0 <= j < pairs@.len() && pairs@[j] == (k, m[k]);
                    assert(keys[j] == k);
                    assert(keys.contains(k));
                }
                if keys.contains(k) {
                    let j = choose|j: int| 0 <= j < keys.len() && keys[j] == k;
                    assert(pairs@[j] == (pairs@[j].0, pairs@[j].1));
                    assert(pairs@.contains((pairs@[j].0, pairs@[j].1)));
                    assert(pairs@[j].0 == k);
                    assert(m.contains_key(pairs@[j].0));
                }
            }
            assert(keys.to_set() =~= m.dom());
            keys.unique_seq_to_set();
        }
        pairs.len()
    }

    /// Assign temporary register `key` to entry `clip_id`, detaching it from its previous entry.
    pub fn assign_temporary(
        &mut self,
        key: char,
        clip_id: u64,
        history: &mut ClipboardHistory,
    ) -> (r: Result<(), RegisterError>)
        requires
            old(self).wf(),
            old(history).wf(),
        ensures
            final(self).wf(),
            final(history).wf(),
            final(history).spec_next_id() == old(history).spec_next_id(),
            final(history).spec_max_entries() == old(history).spec_max_entries(),
            !is_register_key(key) ==> r == Err::<(), RegisterError>(RegisterError::InvalidKey(key)),
            is_register_key(key) && !has_id(old(history).model(), clip_id) ==> r == Err::<(), RegisterError>(
                RegisterError::UnknownEntry(clip_id),
            ),
            is_register_key(key) && has_id(old(history).model(), clip_id) ==> r is Ok,
            r is Err ==> *final(self) == *old(self) && final(history).model() == old(history).model(),
            r is Ok ==> final(self).map_of(false) == old(self).map_of(false).insert(key, clip_id)
                && final(self).map_of(!false) == old(self).map_of(!false)
                && final(history).model() == after_assign(
                old(history).model(),
                old(self).map_of(false),
                false,
                key,
                clip_id,
            ),
            old(self).consistent(old(history).model()) ==> final(self).consistent(
                final(history).model(),
            ),
    {
        self.assign(false, key, clip_id, history)
    }

    /// Remove temporary register `key`; nothing to do when unassigned.
    pub fn remove_temporary(&mut self, key: char, history: &mut ClipboardHistory) -> (r: Result<
        (),
        RegisterError,
    >)
        requires
            old(self).wf(),
            old(history).wf(),
        ensures
            final(self).wf(),
            final(history).wf(),
            final(history).spec_next_id() == old(history).spec_next_id(),
            final(history).spec_max_entries() == old(history).spec_max_entries(),
            !is_register_key(key) <==> r == Err::<(), RegisterError>(RegisterError::InvalidKey(key)),
            is_register_key(key) ==> r is Ok,
            r is Err ==> *final(self) == *old(self) && final(history).model() == old(history).model(),
            r is Ok ==> final(self).map_of(false) == old(self).map_of(false).remove(key)
                && final(self).map_of(!false) == old(self).map_of(!false)
                && final(history).model() == after_unassign(
                old(history).model(),
                old(self).map_of(false),
                false,
                key,
            ),
            old(self).consistent(old(history).model()) ==> final(self).consistent(
                final(history).model(),
            ),
    {
        self.unassign(false, key, history)
    }

    /// Assign permanent register `key` to entry `clip_id`, detaching it from its previous entry.
    pub fn assign_permanent(
        &mut self,
        key: char,
        clip_id: u64,
        history: &mut ClipboardHistory,
    ) -> (r: Result<(), RegisterError>)
        requires
            old(self).wf(),
            old(history).wf(),
        ensures
            final(self).wf(),
            final(history).wf(),
            final(history).spec_next_id() == old(history).spec_next_id(),
            final(history).spec_max_entries() == old(history).spec_max_entries(),
            !is_register_key(key) ==> r == Err::<(), RegisterError>(RegisterError::InvalidKey(key)),
            is_register_key(key) && !has_id(old(history).model(), clip_id) ==> r == Err::<(), RegisterError>(
                RegisterError::UnknownEntry(clip_id),
            ),
            is_register_key(key) && has_id(old(history).model(), clip_id) ==> r is Ok,
            r is Err ==> *final(self) == *old(self) && final(history).model() == old(history).model(),
            r is Ok ==> final(self).map_of(true) == old(self).map_of(true).insert(key, clip_id)
                && final(self).map_of(!true) == old(self).map_of(!true)
                && final(history).model() == after_assign(
                old(history).model(),
                old(self).map_of(true),
                true,
                key,
                clip_id,
            ),
            old(self).consistent(old(history).model()) ==> final(self).consistent(
                final(history).model(),
            ),
    {
        self.assign(true, key, clip_id, history)
    }

    /// Remove permanent register `key`; nothing to do when unassigned.
    pub fn remove_permanent(&mut self, key: char, history: &mut ClipboardHistory) -> (r: Result<
        (),
        RegisterError,
    >)
        requires
            old(self).wf(),
            old(history).wf(),
        ensures
            final(self).wf(),
            final(history).wf(),
            final(history).spec_next_id() == old(history).spec_next_id(),
            final(history).spec_max_entries() == old(history).spec_max_entries(),
            !is_register_key(key) <==> r == Err::<(), RegisterError>(RegisterError::InvalidKey(key)),
            is_register_key(key) ==> r is Ok,
            r is Err ==> *final(self) == *old(self) && final(history).model() == old(history).model(),
            r is Ok ==> final(self).map_of(true) == old(self).map_of(true).remove(key)
                && final(self).map_of(!true) == old(self).map_of(!true)
                && final(history).model() == after_unassign(
                old(history).model(),
                old(self).map_of(true),
                true,
                key,
            ),
            old(self).consistent(old(history).model()) ==> final(self).consistent(
                final(history).model(),
            ),
    {
        self.unassign(true, key, history)
    }

    /// The entry id of temporary register `key`.
    pub fn get_temporary(&self, key: char) -> (r: Option<u64>)
        requires
            self.wf(),
        ensures
            !is_register_key(key) ==> r is None,
            r == if self.map_of(false).contains_key(key) {
                Some(self.map_of(false)[key])
            } else {
                None::<u64>
            },
    {
        self.lookup(false, key)
    }

    /// The entry id of permanent register `key`.
    pub fn get_permanent(&self, key: char) -> (r: Option<u64>)
        requires
            self.wf(),
        ensures
            !is_register_key(key) ==> r is None,
            r == if self.map_of(true).contains_key(key) {
                Some(self.map_of(true)[key])
            } else {
                None::<u64>
            },
    {
        self.lookup(true, key)
    }

    /// Whether temporary register `key` is assigned.
    pub fn has_temporary(&self, key: char) -> (r: bool)
        requires
            self.wf(),
        ensures
            !is_register_key(key) ==> !r,
            r == self.map_of(false).contains_key(key),
    {
        self.lookup(false, key).is_some()
    }

    /// Whether permanent register `key` is assigned.
    pub fn has_permanent(&self, key: char) -> (r: bool)
        requires
            self.wf(),
        ensures
            !is_register_key(key) ==> !r,
            r == self.map_of(true).contains_key(key),
    {
        self.lookup(true, key).is_some()
    }

    /// All temporary assignments as (key, entry id) pairs, in key order.
    pub fn temporary_registers(&self) -> (r: Vec<(char, u64)>)
        requires
            self.wf(),
        ensures
            lists_map(r@, self.map_of(false)),
    {
        self.list(false)
    }

    /// All permanent assignments as (key, entry id) pairs, in key order.
    pub fn permanent_registers(&self) -> (r: Vec<(char, u64)>)
        requires
            self.wf(),
        ensures
            lists_map(r@, self.map_of(true)),
    {
        self.list(true)
    }

    /// Number of assigned temporary registers.
    pub fn temporary_count(&self) -> (r: usize)
        requires
            self.wf(),
        ensures
            r == self.map_of(false).dom().len(),
    {
        self.count(false)
    }

    /// Number of assigned permanent registers.
    pub fn permanent_count(&self) -> (r: usize)
        requires
            self.wf(),
        ensures
            r == self.map_of(true).dom().len(),
    {
        self.count(true)
    }

    /// Clear all temporary registers, detaching each from its entry.
    pub fn clear_temporary(&mut self, history: &mut ClipboardHistory)
        requires
            old(self).wf(),
            old(history).wf(),
            old(self).consistent(old(history).model()),
        ensures
            final(self).wf(),
            final(history).wf(),
            final(self).temporary_map() == Map::<char, u64>::empty(),
            final(self).permanent_map() == old(self).permanent_map(),
            final(history).model() == temporaries_cleared(old(history).model()),
            final(history).spec_next_id() == old(history).spec_next_id(),
            final(history).spec_max_entries() == old(history).spec_max_entries(),
            final(self).consistent(final(history).model()),
    {
        let ghost s = history.model();
        let ghost m = self.temporary_map();
        let mut i: usize = 0;
        proof {
            assert forall|j: int, k: char| 0 <= j < s.len() && #[trigger] s[j].temporary_registers.contains(k) implies slot(k) >= 0 by {
                assert(keys_of(s[j], false).contains(k));
            }
        }
        while i < REGISTER_COUNT
            invariant
                i <= REGISTER_COUNT,
                self.wf(),
                *self == *old(self),
                history.wf(),
                history.spec_next_id() == old(history).spec_next_id(),
                history.spec_max_entries() == old(history).spec_max_entries(),
                linked(m, s, false),
                ids_unique(s),
                m == self.temporary_map(),
                history.model().len() == s.len(),
                forall|j: int| #![trigger history.model()[j]] 0 <= j < s.len() ==> history.model()[j] == (EntryModel {
                    temporary_registers: history.model()[j].temporary_registers,
                    ..s[j]
                }),
                forall|j: int, k: char| #![trigger history.model()[j].temporary_registers.contains(k)]
                    0 <= j < s.len() ==> (history.model()[j].temporary_registers.contains(k) <==> (
                    s[j].temporary_registers.contains(k) && slot(k) >= i)),
            decreases REGISTER_COUNT - i,
        {
            let ghost cur = history.model();
            let entry = self.temporary[i];
            match entry {
                Some(id) => {
                    let key = key_of_slot(i);
                    proof {
                        assert(m.contains_key(key) && m[key] == id);
                        lemma_retag_frame(cur, id, key, false, false);
                        assert forall|j: int| 0 <= j < cur.len() implies cur[j].id == s[j].id by {
                            assert(cur[j] == history.model()[j]);
                        }
                    }
                    retag_entry(history, id, key, false, false);
                    proof {
                        assert forall|j: int, k: char| 0 <= j < s.len() implies (#[trigger] history.model()[j].temporary_registers.contains(k) <==> (
                            s[j].temporary_registers.contains(k) && slot(k) >= i + 1)) by {
                            lemma_key_sets(cur[j].temporary_registers, key, k);
                            assert(cur[j].temporary_registers.contains(k) <==> (s[j].temporary_registers.contains(k) && slot(k) >= i));
                            if s[j].temporary_registers.contains(k) {
                                assert(keys_of(s[j], false).contains(k));
                                assert(m.contains_key(k));
                                if slot(k) == i {
                                    lemma_slot_injective(k, key);
                                }
                            }
                        }
                    }
                },
                None => {
                    proof {
                        assert forall|j: int, k: char| 0 <= j < s.len() implies (#[trigger] history.model()[j].temporary_registers.contains(k) <==> (
                            s[j].temporary_registers.contains(k) && slot(k) >= i + 1)) by {
                            if s[j].temporary_registers.contains(k) {
                                assert(keys_of(s[j], false).contains(k));
                                assert(m.contains_key(k));
                                assert(slot(k) != i);
                            }
                        }
                    }
                },
            }
            i = i + 1;
        }
        self.temporary = vec![None; REGISTER_COUNT];
        proof {
            assert(self.temporary_map() =~= Map::<char, u64>::empty());
            let f = history.model();
            assert forall|j: int| 0 <= j < s.len() implies f[j].temporary_registers =~= Seq::<char>::empty() by {
                if f[j].temporary_registers.len() > 0 {
                    let k = f[j].temporary_registers[0];
                    assert(f[j].temporary_registers.contains(k));
                    assert(keys_of(s[j], false).contains(k));
                    assert(m.contains_key(k));
                }
            }
            assert(f =~= temporaries_cleared(s));
            assert(linked(self.temporary_map(), f, false));
            lemma_linked_frame(self.permanent_map(), s, f, true);
        }
    }

    /// Reconstruct both tables from the entries' register lists (after a
    /// bulk load). On a key listed by several entries the last one wins;
    /// characters that are not register keys are skipped.
    pub fn rebuild_from_history(&mut self, history: &ClipboardHistory)
        ensures
            final(self).wf(),
            final(self).temporary_map() == rebuilt(history.model(), false),
            final(self).permanent_map() == rebuilt(history.model(), true),
    {
        *self = Registry::new();
        let entries = history.entries();
        let ghost s = history.model();
        let mut i: usize = 0;
        proof {
            assert(self.temporary_map() =~= rebuilt(s.take(0), false));
            assert(self.permanent_map() =~= rebuilt(s.take(0), true));
        }
        while i < entries.len()
            invariant
                self.wf(),
                models(entries@) == s,
                i <= entries.len(),
                self.temporary_map() == rebuilt(s.take(i as int), false),
                self.permanent_map() == rebuilt(s.take(i as int), true),
            decreases entries.len() - i,
        {
            let e: &ClipEntry = &entries[i];
            proof {
                assert(s.take(i + 1).drop_last() =~= s.take(i as int));
                assert(s.take(i + 1).last() == e@);
            }
            self.absorb(e, false);
            self.absorb(e, true);
            i = i + 1;
        }
        proof {
            assert(s.take(i as int) =~= s);
        }
    }

    /// Send every valid key of one of `e`'s lists to `e`'s id.
    fn absorb(&mut self, e: &ClipEntry, permanent: bool)
        requires
            old(self).wf(),
        ensures
            final(self).wf(),
            final(self).map_of(permanent) == old(self).map_of(permanent).union_prefer_right(
                listed(keys_of(e@, permanent), e.id),
            ),
            final(self).map_of(!permanent) == old(self).map_of(!permanent),
    {
        let keys: &Vec<char> = if permanent { &e.permanent_registers } else { &e.temporary_registers };
        let ghost m0 = self.map_of(permanent);
        let mut j: usize = 0;
        proof {
            assert(m0 =~= m0.union_prefer_right(listed(keys@.take(0), e.id)));
        }
        while j < keys.len()
            invariant
                self.wf(),
                j <= keys.len(),
                keys@ == keys_of(e@, permanent),
                self.map_of(permanent) == m0.union_prefer_right(listed(keys@.take(j as int), e.id)),
                self.map_of(!permanent) == old(self).map_of(!permanent),
            decreases keys.len() - j,
        {
            let k = keys[j];
            proof {
                lemma_take_next(keys@, j as int);
            }
            if is_valid_register_key(k) {
                self.set_slot(permanent, k, Some(e.id));
                proof {
                    assert forall|c: char| #[trigger] listed(keys@.take(j + 1), e.id).contains_key(c) <==> listed(keys@.take(j as int), e.id).insert(k, e.id).contains_key(c) by {
                        assert(keys@.take(j + 1).contains(c) <==> (keys@.take(j as int).contains(c) || c == keys@[j as int]));
                    }
                    assert(listed(keys@.take(j + 1), e.id) =~= listed(keys@.take(j as int), e.id).insert(k, e.id));
                    assert(self.map_of(permanent) =~= m0.union_prefer_right(listed(keys@.take(j + 1), e.id)));
                }
            } else {
                proof {
                    assert(listed(keys@.take(j + 1), e.id) =~= listed(keys@.take(j as int), e.id));
                    assert(self.map_of(permanent) =~= m0.union_prefer_right(listed(keys@.take(j + 1), e.id)));
                }
            }
            j = j + 1;
        }
        proof {
            assert(keys@.take(j as int) =~= keys@);
        }
    }

    /// Rebuild both tables from the entries' lists (see
    /// `rebuild_from_history`), then drop from every list the keys the
    /// tables do not send to that entry (keys lost in a collision, or not
    /// register keys), so that registry and entries are linked.
    pub fn repair_from_history(&mut self, history: &mut ClipboardHistory)
        requires
            old(history).wf(),
        ensures
            final(self).wf(),
            final(history).wf(),
            final(self).temporary_map() == rebuilt(old(history).model(), false),
            final(self).permanent_map() == rebuilt(old(history).model(), true),
            final(history).model() == old(history).model().map_values(
                |e: EntryModel| pruned(e, final(self).temporary_map(), final(self).permanent_map()),
            ),
            final(self).consistent(final(history).model()),
            final(history).spec_next_id() == old(history).spec_next_id(),
            final(history).spec_max_entries() == old(history).spec_max_entries(),
    {
        self.rebuild_from_history(history);
        let ghost s = history.model();
        let ghost mt = self.temporary_map();
        let ghost mp = self.permanent_map();
        let n = history.len();
        let mut i: usize = 0;
        while i < n
            invariant
                self.wf(),
                history.wf(),
                mt == self.temporary_map(),
                mp == self.permanent_map(),
                n == s.len(),
                i <= n,
                history.model().len() == s.len(),
                history.spec_next_id() == old(history).spec_next_id(),
                history.spec_max_entries() == old(history).spec_max_entries(),
                forall|j: int| 0 <= j < i ==> #[trigger] history.model()[j] == pruned(s[j], mt, mp),
                forall|j: int| i <= j < n ==> #[trigger] history.model()[j] == s[j],
            decreases n - i,
        {
            let entries = history.entries();
            let id = entries[i].id;
            let temp = self.owned_keys(&entries[i].temporary_registers, id, false);
            let perm = self.owned_keys(&entries[i].permanent_registers, id, true);
            let ghost before = history.model();
            proof {
                assert(before[i as int] == entries@[i as int]@);
                assert(before[i as int] == s[i as int]);
                assert(forall|j: int| 0 <= j < before.len() && j != i ==> before[j].id != id);
                assert(has_id(before, id));
                assert(id_pos(before, id) == i);
            }
            match history.get_entry_mut(id) {
                Some(e) => {
                    e.temporary_registers = temp;
                    e.permanent_registers = perm;
                    proof {
                        lemma_update_keeps_wf(before, i as int, history.model()[i as int], history.index(), history.spec_next_id());
                    }
                },
                None => {},
            }
            proof {
                assert(history.model() == before.update(i as int, pruned(s[i as int], mt, mp)));
            }
            i = i + 1;
        }
        proof {
            assert(history.model() =~= s.map_values(|e: EntryModel| pruned(e, mt, mp)));
            lemma_pruned_links(s, mt, mp, false);
            lemma_pruned_links(s, mt, mp, true);
        }
    }

    /// The keys of `keys` that one table sends to `id`, in order.
    fn owned_keys(&self, keys: &Vec<char>, id: u64, permanent: bool) -> (r: Vec<char>)
        requires
            self.wf(),
        ensures
            r@ == keys@.filter(owned_by(self.map_of(permanent), id)),
    {
        let ghost p = owned_by(self.map_of(permanent), id);
        let mut r: Vec<char> = Vec::new();
        let mut j: usize = 0;
        while j < keys.len()
            invariant
                self.wf(),
                j <= keys.len(),
                p == owned_by(self.map_of(permanent), id),
                r@ == keys@.take(j as int).filter(p),
            decreases keys.len() - j,
        {
            proof {
                assert(keys@.take(j + 1) =~= keys@.take(j as int).push(keys@[j as int]));
                keys@.take(j as int).lemma_filter_push(keys@[j as int], p);
            }
            if self.lookup(permanent, keys[j]) == Some(id) {
                r.push(keys[j]);
            }
            j = j + 1;
        }
        proof {
            assert(keys@.take(j as int) =~= keys@);
        }
        r
    }

    /// Delete entry `clip_id` from the history together with the temporary
    /// registers that point at it. Refused, with nothing changed, when the
    /// entry holds a permanent register or does not exist.
    pub fn delete_entry(&mut self, clip_id: u64, history: &mut ClipboardHistory) -> (r: Result<
        (),
        RegisterError,
    >)
        requires
            old(self).wf(),
            old(history).wf(),
            old(self).consistent(old(history).model()),
        ensures
            final(self).wf(),
            final(history).wf(),
            final(self).consistent(final(history).model()),
            !has_id(old(history).model(), clip_id) ==> r == Err::<(), RegisterError>(
                RegisterError::UnknownEntry(clip_id),
            ),
            has_id(old(history).model(), clip_id) && old(history).model()[id_pos(
                old(history).model(),
                clip_id,
            )].permanent_registers.len() > 0 ==> r == Err::<(), RegisterError>(
                RegisterError::CannotDelete(clip_id),
            ),
            r is Err ==> *final(self) == *old(self) && final(history).model() == old(history).model(),
            has_id(old(history).model(), clip_id) && old(history).model()[id_pos(
                old(history).model(),
                clip_id,
            )].permanent_registers.len() == 0 ==> r is Ok,
            r is Ok ==> has_id(old(history).model(), clip_id) && final(history).model() == old(
                history,
            ).model().remove(id_pos(old(history).model(), clip_id)) && final(self).temporary_map()
                == without_id(old(self).temporary_map(), clip_id) && final(self).permanent_map()
                == old(self).permanent_map(),
            final(history).spec_next_id() == old(history).spec_next_id(),
            final(history).spec_max_entries() == old(history).spec_max_entries(),
    {
        let ghost s = history.model();
        let ghost m = self.temporary_map();
        let keys: Vec<char> = match history.get_entry(clip_id) {
            None => {
                return Err(RegisterError::UnknownEntry(clip_id));
            },
            Some(e) => {
                if !e.can_delete() {
                    return Err(RegisterError::CannotDelete(clip_id));
                }
                let k = e.temporary_registers.clone();
                assert(k@ =~= e.temporary_registers@);
                k
            },
        };
        let ghost p = id_pos(s, clip_id);
        let mut j: usize = 0;
        proof {
            assert(m.remove_keys(keys@.take(0).to_set()) =~= m);
        }
        while j < keys.len()
            invariant
                self.wf(),
                j <= keys.len(),
                keys@ == s[p].temporary_registers,
                0 <= p < s.len(),
                s[p].id == clip_id,
                linked(m, s, false),
                m == old(self).temporary_map(),
                self.temporary_map() == m.remove_keys(keys@.take(j as int).to_set()),
                self.permanent_map() == old(self).permanent_map(),
            decreases keys.len() - j,
        {
            let k = keys[j];
            proof {
                assert(keys_of(s[p], false).contains(k));
                assert(m.contains_key(k));
            }
            self.set_slot(false, k, None);
            proof {
                lemma_take_next(keys@, j as int);
                assert forall|c: char| keys@.take(j + 1).to_set().contains(c) <==> keys@.take(j as int).to_set().insert(k).contains(c) by {
                    assert(keys@.take(j + 1).contains(c) <==> (keys@.take(j as int).contains(c) || c == keys@[j as int]));
                }
                assert(keys@.take(j + 1).to_set() =~= keys@.take(j as int).to_set().insert(k));
                assert(self.temporary_map() =~= m.remove_keys(keys@.take(j + 1).to_set()));
            }
            j = j + 1;
        }
        proof {
            assert(keys@.take(j as int) =~= keys@);
            assert forall|k: char| keys@.contains(k) <==> (m.contains_key(k) && m[k] == clip_id) by {
                assert(keys_of(s[p], false).contains(k) <==> (m.contains_key(k) && m[k] == s[p].id));
            }
            assert(self.temporary_map() =~= without_id(m, clip_id));
            lemma_delete_links(m, s, p, false);
            lemma_delete_links(self.permanent_map(), s, p, true);
            assert forall|k: char| #[trigger] self.permanent_map().contains_key(k) implies self.permanent_map()[k] != clip_id by {
                if self.permanent_map()[k] == clip_id {
                    assert(keys_of(s[p], true).contains(k));
                }
            }
            assert(without_id(self.permanent_map(), clip_id) =~= self.permanent_map());
        }
        history.remove_entry(clip_id);
        Ok(())
    }

    /// Give each configured permanent register its entry: an entry with the
    /// same content hash if there is one, else a new entry carrying the
    /// configured name and description. Rerunning on the same configuration
    /// adds no entries, as content is deduplicated by hash.
    pub fn load_permanent_from_config(&mut self, config: &Config, history: &mut ClipboardHistory) -> (r: Result<
        (),
        RegisterError,
    >)
        requires
            old(self).wf(),
            old(history).wf(),
            old(history).spec_next_id() + config.permanent_registers@.len() < u64::MAX || (forall|j: int|
                0 <= j < config.permanent_registers@.len() ==> #[trigger] in_place(
                    old(self).permanent_map(),
                    old(history).model(),
                    config.permanent_registers@,
                    j,
                )),
        ensures
            final(history).spec_next_id() <= old(history).spec_next_id()
                + config.permanent_registers@.len(),
            config.keys_distinct() && old(self).consistent(old(history).model()) && r is Ok ==> forall|j: int|
                0 <= j < config.permanent_registers@.len() ==> #[trigger] in_place(
                    final(self).permanent_map(),
                    final(history).model(),
                    config.permanent_registers@,
                    j,
                ),
            old(self).consistent(old(history).model()) && r is Ok ==> forall|j: int|
                0 <= j < config.permanent_registers@.len() && last_before(
                    config.permanent_registers@,
                    j,
                    config.permanent_registers@.len() as int,
                ) && fresh_def(old(history).model(), config.permanent_registers@, j) ==> #[trigger] made(
                    final(self).permanent_map(),
                    final(history).model(),
                    config.permanent_registers@,
                    j,
                ),
            final(self).wf(),
            final(history).wf(),
            final(history).spec_max_entries() == old(history).spec_max_entries(),
            old(self).consistent(old(history).model()) ==> final(self).consistent(
                final(history).model(),
            ),
            (forall|j: int|
                0 <= j < config.permanent_registers@.len() ==> is_register_key(
                    #[trigger] config.permanent_registers@[j].0,
                )) && old(history).spec_max_entries() > 0 ==> r is Ok,
            r matches Err(RegisterError::InvalidKey(c)) ==> exists|j: int|
                0 <= j < config.permanent_registers@.len()
                    && #[trigger] config.permanent_registers@[j].0 == c && !is_register_key(c),
            r matches Err(RegisterError::UnknownEntry(_)) ==> old(history).spec_max_entries() == 0,
            r is Ok ==> forall|j: int|
                0 <= j < config.permanent_registers@.len() ==> final(self).permanent_map().contains_key(
                    #[trigger] config.permanent_registers@[j].0,
                ),
            old(self).consistent(old(history).model()) && r is Ok ==> forall|j: int|
                0 <= j < config.permanent_registers@.len() && last_before(
                    config.permanent_registers@,
                    j,
                    config.permanent_registers@.len() as int,
                ) ==> #[trigger] in_place(
                    final(self).permanent_map(),
                    final(history).model(),
                    config.permanent_registers@,
                    j,
                ),
            (forall|j: int|
                0 <= j < config.permanent_registers@.len() ==> #[trigger] in_place(
                    old(self).permanent_map(),
                    old(history).model(),
                    config.permanent_registers@,
                    j,
                )) ==> r is Ok && *final(self) == *old(self) && *final(history) == *old(history),
            final(self).temporary_map() == old(self).temporary_map(),
            forall|k: char|
                !(exists|j: int|
                    0 <= j < config.permanent_registers@.len()
                        && #[trigger] config.permanent_registers@[j].0 == k) ==> (
                #[trigger] final(self).permanent_map().contains_key(k) == old(self).permanent_map().contains_key(k)
                    && final(self).permanent_map()[k] == old(self).permanent_map()[k]),
    {
        let defs = &config.permanent_registers;
        let ghost start = history.spec_next_id();
        let ghost consistent0 = self.consistent(history.model());
        let ghost idem = forall|x: int|
            0 <= x < config.permanent_registers@.len() ==> #[trigger] in_place(
                old(self).permanent_map(),
                old(history).model(),
                config.permanent_registers@,
                x,
            );
        let mut j: usize = 0;
        while j < defs.len()
            invariant
                self.wf(),
                history.wf(),
                j <= defs.len(),
                defs == &config.permanent_registers,
                history.spec_max_entries() == old(history).spec_max_entries(),
                history.spec_next_id() <= start + j,
                start == old(history).spec_next_id(),
                start + defs@.len() < u64::MAX || idem,
                consistent0 ==> self.consistent(history.model()),
                consistent0 == old(self).consistent(old(history).model()),
                idem == (forall|x: int|
                    0 <= x < config.permanent_registers@.len() ==> #[trigger] in_place(
                        old(self).permanent_map(),
                        old(history).model(),
                        config.permanent_registers@,
                        x,
                    )),
                idem ==> *self == *old(self) && *history == *old(history),
                forall|x: int| 0 <= x < j ==> self.permanent_map().contains_key(#[trigger] config.permanent_registers@[x].0),
                self.temporary_map() == old(self).temporary_map(),
                forall|h: u64| has_hash(history.model(), h) ==> has_hash(old(history).model(), h) || exists|x: int|
                    0 <= x < j && #[trigger] config.permanent_registers@[x].1.spec_content().hash() == h,
                consistent0 ==> forall|x: int|
                    0 <= x < j && last_before(config.permanent_registers@, x, j as int) ==> #[trigger] in_place(
                        self.permanent_map(),
                        history.model(),
                        config.permanent_registers@,
                        x,
                    ),
                consistent0 ==> forall|x: int|
                    0 <= x < j && last_before(config.permanent_registers@, x, j as int) && fresh_def(
                        old(history).model(),
                        config.permanent_registers@,
                        x,
                    ) ==> #[trigger] made(self.permanent_map(), history.model(), config.permanent_registers@, x),
                forall|k: char|
                    !(exists|x: int| 0 <= x < j && #[trigger] config.permanent_registers@[x].0 == k) ==> (
                    #[trigger] self.permanent_map().contains_key(k) == old(self).permanent_map().contains_key(k)
                        && self.permanent_map()[k] == old(self).permanent_map()[k]),
            decreases defs.len() - j,
        {
            let key = defs[j].0;
            let ghost s = history.model();
            let ghost m = self.permanent_map();
            let ghost hj = config.permanent_registers@[j as int].1.spec_content().hash();
            proof {
                if idem {
                    assert(in_place(old(self).permanent_map(), old(history).model(), config.permanent_registers@, j as int));
                }
            }
            match self.load_one(key, &defs[j].1, history) {
                Ok(()) => {},
                Err(e) => {
                    proof {
                        assert forall|k: char|
                            !(exists|x: int|
                                0 <= x < config.permanent_registers@.len()
                                    && #[trigger] config.permanent_registers@[x].0 == k) implies (
                            self.permanent_map().contains_key(k) == old(self).permanent_map().contains_key(k)
                                && self.permanent_map()[k] == old(self).permanent_map()[k]) by {
                            assert(config.permanent_registers@[j as int].0 != k);
                            if exists|x: int| 0 <= x < j && #[trigger] config.permanent_registers@[x].0 == k {
                                let x = choose|x: int| 0 <= x < j && #[trigger] config.permanent_registers@[x].0 == k;
                                assert(0 <= x < config.permanent_registers@.len());
                            }
                        }
                    }
                    return Err(e);
                },
            }
            proof {
                let s2 = history.model();
                let m2 = self.permanent_map();
                let defs_s = config.permanent_registers@;
                assert forall|h: u64| has_hash(s2, h) implies has_hash(old(history).model(), h) || exists|x: int|
                    0 <= x < j + 1 && #[trigger] defs_s[x].1.spec_content().hash() == h by {
                    if !has_hash(s, h) {
                        assert(defs_s[j as int].1.spec_content().hash() == h);
                    }
                }
                assert forall|x: int| 0 <= x < j + 1 implies m2.contains_key(#[trigger] defs_s[x].0) by {
                    if x < j && defs_s[x].0 != key {
                        assert(m.contains_key(defs_s[x].0));
                    }
                }
                if consistent0 {
                    assert forall|x: int|
                        0 <= x < j + 1 && last_before(defs_s, x, j + 1) implies #[trigger] in_place(m2, s2, defs_s, x) by {
                        if x < j {
                            assert(defs_s[j as int].0 != defs_s[x].0);
                            assert(last_before(defs_s, x, j as int));
                            assert(in_place(m, s, defs_s, x));
                            assert(follows(s, s2, m[defs_s[x].0], hj));
                        }
                    }
                    assert forall|x: int|
                        0 <= x < j + 1 && last_before(defs_s, x, j + 1) && fresh_def(old(history).model(), defs_s, x)
                            implies #[trigger] made(m2, s2, defs_s, x) by {
                        if x < j {
                            assert(defs_s[j as int].0 != defs_s[x].0);
                            assert(last_before(defs_s, x, j as int));
                            assert(made(m, s, defs_s, x));
                            assert(in_place(m, s, defs_s, x));
                            assert(defs_s[j as int].1.spec_content().hash() != defs_s[x].1.spec_content().hash());
                            assert(s[id_pos(s, m[defs_s[x].0])].content_hash != hj);
                            assert(follows(s, s2, m[defs_s[x].0], hj));
                        } else {
                            assert(!has_hash(s, hj)) by {
                                if has_hash(s, hj) {
                                    assert(!has_hash(old(history).model(), hj));
                                    assert(exists|y: int| 0 <= y < j && #[trigger] defs_s[y].1.spec_content().hash() == hj);
                                    let y = choose|y: int| 0 <= y < j && #[trigger] defs_s[y].1.spec_content().hash() == hj;
                                    assert(defs_s[y].1.spec_content().hash() != defs_s[j as int].1.spec_content().hash());
                                }
                            }
                            assert(defs_s[x].0 == key);
                            assert(m2.contains_key(key));
                        }
                    }
                }
                assert forall|k: char|
                    !(exists|x: int| 0 <= x < j + 1 && #[trigger] defs_s[x].0 == k) implies (
                    m2.contains_key(k) == old(self).permanent_map().contains_key(k)
                        && m2[k] == old(self).permanent_map()[k]) by {
                    assert(defs_s[j as int].0 != k);
                    assert(!(exists|x: int| 0 <= x < j && #[trigger] defs_s[x].0 == k));
                }
            }
            j = j + 1;
        }
        proof {
            assert(j == config.permanent_registers@.len());
            assert forall|k: char|
                !(exists|x: int|
                    0 <= x < config.permanent_registers@.len()
                        && #[trigger] config.permanent_registers@[x].0 == k) implies (
                self.permanent_map().contains_key(k) == old(self).permanent_map().contains_key(k)
                    && self.permanent_map()[k] == old(self).permanent_map()[k]) by {
                if !(exists|x: int| 0 <= x < j && #[trigger] config.permanent_registers@[x].0 == k) {
                }
            }
            if config.keys_distinct() {
                assert forall|x: int| 0 <= x < config.permanent_registers@.len() implies last_before(
                    config.permanent_registers@,
                    x,
                    config.permanent_registers@.len() as int,
                ) by {
                    assert forall|y: int| x < y < config.permanent_registers@.len() implies #[trigger] config.permanent_registers@[y].0
                        != config.permanent_registers@[x].0 by {}
                }
            }
        }
        Ok(())
    }

    /// Give one configured register its entry (see
    /// `load_permanent_from_config`).
    #[verifier::rlimit(60)]
    fn load_one(&mut self, key: char, def: &PermanentRegisterValue, history: &mut ClipboardHistory) -> (r: Result<(), RegisterError>)
        requires
            old(self).wf(),
            old(history).wf(),
            old(history).spec_next_id() < u64::MAX || placed(
                old(self).permanent_map(),
                old(history).model(),
                key,
                def.spec_content().hash(),
            ),
        ensures
            final(self).wf(),
            final(history).wf(),
            final(history).spec_max_entries() == old(history).spec_max_entries(),
            final(history).spec_next_id() <= old(history).spec_next_id() + 1,
            final(self).temporary_map() == old(self).temporary_map(),
            old(self).consistent(old(history).model()) ==> final(self).consistent(final(history).model()),
            is_register_key(key) && old(history).spec_max_entries() > 0 ==> r is Ok,
            r matches Err(RegisterError::InvalidKey(c)) ==> c == key && !is_register_key(key),
            r matches Err(RegisterError::UnknownEntry(_)) ==> old(history).spec_max_entries() == 0,
            r is Ok ==> final(self).permanent_map().contains_key(key),
            forall|k: char|
                k != key ==> (#[trigger] final(self).permanent_map().contains_key(k)
                    == old(self).permanent_map().contains_key(k) && final(self).permanent_map()[k]
                    == old(self).permanent_map()[k]),
            forall|x: u64|
                has_hash(final(history).model(), x) ==> has_hash(old(history).model(), x) || x
                    == def.spec_content().hash(),
            old(self).consistent(old(history).model()) && r is Ok ==> placed(
                final(self).permanent_map(),
                final(history).model(),
                key,
                def.spec_content().hash(),
            ),
            old(self).consistent(old(history).model()) ==> forall|k: char|
                k != key && #[trigger] old(self).permanent_map().contains_key(k) ==> follows(
                    old(history).model(),
                    final(history).model(),
                    old(self).permanent_map()[k],
                    def.spec_content().hash(),
                ),
            old(self).consistent(old(history).model()) && r is Ok && !has_hash(
                old(history).model(),
                def.spec_content().hash(),
            ) ==> ({
                let f = final(history).model()[id_pos(final(history).model(), final(self).permanent_map()[key])];
                &&& has_id(final(history).model(), final(self).permanent_map()[key])
                &&& f.content == def.spec_content()
                &&& f.name == def.spec_name()
                &&& f.description == def.spec_description()
            }),
            placed(old(self).permanent_map(), old(history).model(), key, def.spec_content().hash())
                ==> r is Ok && *final(self) == *old(self) && *final(history) == *old(history),
    {
        let ghost consistent0 = self.consistent(history.model());
        let ghost s = history.model();
        let ghost m = self.permanent_map();
        let ghost h = def.spec_content().hash();
        let (content, name, description) = def.to_content();
        let hash = content.content_hash();
        proof {
            assert(content@.hash() == hash);
            if placed(m, s, key, h) {
                let p = id_pos(s, m[key]);
                assert(s[p].content_hash == hash);
            }
        }
        let ghost placed0 = placed(m, s, key, h);
        let target = match history.find_by_hash(hash) {
            Some(existing) => {
                proof {
                    let q = crate::history::hash_pos(s, hash);
                    assert(s[q].id == existing);
                    assert(id_pos(s, existing) == q);
                    assert(holds_hash(s, existing, h));
                    if placed0 {
                        let p = id_pos(s, m[key]);
                        assert(s[p].content_hash == hash);
                        assert(p == q);
                    }
                }
                existing
            },
            None => {
                proof {
                    if placed0 {
                        let p = id_pos(s, m[key]);
                        assert(s[p].content_hash == hash);
                        assert(false);
                    }
                }
                let ghost n0 = history.spec_next_id();
                let ghost mx = history.spec_max_entries() as nat;
                let ghost c = content@;
                let ghost nm = opt_view(name);
                let ghost ds = opt_view(description);
                let id = history.add_entry_with_metadata(content, name, description);
                proof {
                    let now = choose|now: u64|
                        (history.model(), history.spec_next_id(), id) == #[trigger] after_insert(
                            s,
                            n0,
                            mx,
                            c,
                            nm,
                            ds,
                            now,
                        );
                    let t = history.model();
                    lemma_new_entry_hash(s, n0, mx, c, nm, ds, now);
                    assert forall|x: u64| has_hash(t, x) implies has_hash(s, x) || x == h by {
                        crate::history::lemma_insert_hashes(s, n0, mx, c, nm, ds, now, x);
                    }
                    if consistent0 {
                        lemma_insert_links(self.temporary_map(), s, n0, mx, c, nm, ds, now, false);
                        lemma_insert_links(m, s, n0, mx, c, nm, ds, now, true);
                        assert forall|k: char| k != key && #[trigger] m.contains_key(k) implies follows(s, t, m[k], h) by {
                            let i = id_pos(s, m[k]);
                            assert(s[i].id == m[k]);
                            assert(keys_of(s[i], true).contains(k));
                            assert(s[i].permanent_registers.len() > 0);
                            crate::history::lemma_insert_keeps(s, n0, mx, c, nm, ds, now, i);
                        }
                    }
                    if mx > 0 {
                        let t0 = seq![fresh_entry(n0, c, nm, ds, now)] + s;
                        assert(t0[0] == fresh_entry(n0, c, nm, ds, now));
                        assert(rotated(t0, mx) == seq![t0[0]] + rotated(t0.drop_first(), (mx - 1) as nat));
                        assert(t[0].id == id);
                    }
                }
                id
            },
        };
        let ghost s_mid = history.model();
        let ghost m_mid = self.permanent_map();
        proof {
            assert(has_id(s_mid, target) ==> holds_hash(s_mid, target, h));
            assert(!has_hash(s, h) && has_id(s_mid, target) ==> ({
                let f = s_mid[id_pos(s_mid, target)];
                f.content == def.spec_content() && f.name == def.spec_name() && f.description
                    == def.spec_description()
            }));
        }
        if self.lookup(true, key) != Some(target) {
            proof {
                if m_mid.contains_key(key) {
                    lemma_retag_frame(s_mid, m_mid[key], key, true, false);
                }
                let s1 = after_unassign(s_mid, m_mid, true, key);
                lemma_retag_frame(s1, target, key, true, true);
            }
            match self.assign(true, key, target, history) {
                Ok(()) => {},
                Err(e) => {
                    return Err(e);
                },
            }
            proof {
                let s2 = history.model();
                assert(forall|i: int| 0 <= i < s_mid.len() ==> s2[i].id == s_mid[i].id && s2[i].content_hash == s_mid[i].content_hash
                    && s2[i].content == s_mid[i].content && s2[i].name == s_mid[i].name
                    && s2[i].description == s_mid[i].description);
                crate::history::lemma_pos_frame(s_mid, s2, target);
                assert forall|x: u64| has_hash(s2, x) implies has_hash(s_mid, x) by {
                    let q = choose|q: int| 0 <= q < s2.len() && s2[q].content_hash == x;
                    assert(s_mid[q].content_hash == x);
                }
                if consistent0 {
                    assert forall|k: char| k != key && #[trigger] m.contains_key(k) implies follows(s, s2, m[k], h) by {
                        assert(follows(s, s_mid, m[k], h));
                        crate::history::lemma_pos_frame(s_mid, s2, m[k]);
                    }
                }
            }
        } else {
            proof {
                assert(m_mid.contains_key(key) && m_mid[key] == target);
            }
        }
        Ok(())
    }

    /// The tables hold register keys only.
    pub proof fn lemma_keys_valid(&self)
        ensures
            forall|k: char| #[trigger] self.temporary_map().contains_key(k) ==> is_register_key(k),
            forall|k: char| #[trigger] self.permanent_map().contains_key(k) ==> is_register_key(k),
    {
    }

    /// An empty registry.
    pub fn new() -> (r: Registry)
        ensures
            r.wf(),
            r.temporary_map() == Map::<char, u64>::empty(),
            r.permanent_map() == Map::<char, u64>::empty(),
    {
        let r = Registry { temporary: vec![None; REGISTER_COUNT], permanent: vec![None; REGISTER_COUNT] };
        assert(r.temporary_map() =~= Map::<char, u64>::empty());
        assert(r.permanent_map() =~= Map::<char, u64>::empty());
        r
    }
}


impl Default for Registry {
    fn default() -> (r: Registry)
        ensures
            r.wf(),
            r.temporary_map() == Map::<char, u64>::empty(),
            r.permanent_map() == Map::<char, u64>::empty(),
    {
        Registry::new()
    }
}

/// Reading the registers back from the entries' lists gives exactly the
/// live tables, whenever the registry and the entries are linked (I1).
pub proof fn lemma_registers_rebuild(reg: &Registry, s: Seq<EntryModel>)
    requires
        reg.consistent(s),
        ids_unique(s),
    ensures
        rebuilt(s, false) == reg.temporary_map(),
        rebuilt(s, true) == reg.permanent_map(),
{
    lemma_rebuilt_linked(reg.temporary_map(), s, false);
    lemma_rebuilt_linked(reg.permanent_map(), s, true);
}

} // verus!
