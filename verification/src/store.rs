//! The in-memory cache of connection records: each record under a key, the
//! record's id where the library stores it, the data file's key where the
//! data file gave one.

use std::sync::Arc;
use vstd::prelude::*;
use crate::entry::{ConnectionEntry, EntryView};
use crate::entry::get_default_group;
use crate::text::{chars_equal, contains_str, strs};
use crate::wrappers::share;

verus! {

/// A stored record under its key (the id under which the cache holds it).
pub type Keyed = (Seq<char>, EntryView);

/// The views of a sequence of keyed, shared records.
pub open spec fn views(s: Seq<(String, Arc<ConnectionEntry>)>) -> Seq<Keyed> {
    s.map_values(|p: (String, Arc<ConnectionEntry>)| (p.0@, p.1@))
}

/// The views of a sequence of keyed records.
pub open spec fn given_views(s: Seq<(String, ConnectionEntry)>) -> Seq<Keyed> {
    s.map_values(|p: (String, ConnectionEntry)| (p.0@, p.1@))
}

/// The records of a sequence of keyed records, without their keys.
pub open spec fn values(s: Seq<Keyed>) -> Seq<EntryView> {
    s.map_values(|p: Keyed| p.1)
}

/// The views of a sequence of records.
pub open spec fn entry_views(s: Seq<ConnectionEntry>) -> Seq<EntryView> {
    s.map_values(|e: ConnectionEntry| e@)
}

/// No two records share a key.
pub open spec fn ids_unique(s: Seq<Keyed>) -> bool {
    forall|i: int, j: int|
        0 <= i < s.len() && 0 <= j < s.len() && i != j ==> #[trigger] s[i].0 != #[trigger] s[j].0
}

/// Some record is kept under `id`.
pub open spec fn has_id(s: Seq<Keyed>, id: Seq<char>) -> bool {
    exists|i: int| 0 <= i < s.len() && #[trigger] s[i].0 == id
}

/// The position of key `id` (meaningful when `has_id`).
pub open spec fn index_of(s: Seq<Keyed>, id: Seq<char>) -> int {
    choose|i: int| 0 <= i < s.len() && #[trigger] s[i].0 == id
}

/// The record kept under `id`, if there is one.
pub open spec fn lookup(s: Seq<Keyed>, id: Seq<char>) -> Option<EntryView> {
    if has_id(s, id) {
        Some(s[index_of(s, id)].1)
    } else {
        None
    }
}

/// `s` with `e` kept under `id`: in place of what `id` held, or added at
/// the end.
pub open spec fn upsert(s: Seq<Keyed>, id: Seq<char>, e: EntryView) -> Seq<Keyed> {
    if has_id(s, id) {
        s.update(index_of(s, id), (id, e))
    } else {
        s.push((id, e))
    }
}

/// `s` without what is kept under `id`.
pub open spec fn remove_id(s: Seq<Keyed>, id: Seq<char>) -> Seq<Keyed> {
    if has_id(s, id) {
        s.remove(index_of(s, id))
    } else {
        s
    }
}

/// The keyed records of `es` upserted one after another into `s`.
pub open spec fn upsert_all(s: Seq<Keyed>, es: Seq<Keyed>) -> Seq<Keyed>
    decreases es.len(),
{
    if es.len() == 0 {
        s
    } else {
        upsert(upsert_all(s, es.drop_last()), es.last().0, es.last().1)
    }
}

/// With unique ids, a position that holds `id` is the position of `id`.
pub proof fn lemma_index_of_unique(s: Seq<Keyed>, id: Seq<char>, i: int)
    requires
        ids_unique(s),
        0 <= i < s.len(),
        s[i].0 == id,
    ensures
        has_id(s, id),
        index_of(s, id) == i,
{
    assert(has_id(s, id));
}

/// Upserting keeps keys unique.
pub proof fn lemma_upsert_unique(s: Seq<Keyed>, id: Seq<char>, e: EntryView)
    requires
        ids_unique(s),
    ensures
        ids_unique(upsert(s, id, e)),
{
    let t = upsert(s, id, e);
    if has_id(s, id) {
        let k = index_of(s, id);
        assert forall|i: int, j: int|
            0 <= i < t.len() && 0 <= j < t.len() && i != j implies #[trigger] t[i].0
            != #[trigger] t[j].0 by {
            if i == k {
                assert(s[j].0 != s[k].0);
            } else if j == k {
                assert(s[i].0 != s[k].0);
            } else {
                assert(s[i].0 != s[j].0);
            }
        }
    } else {
        assert forall|i: int, j: int|
            0 <= i < t.len() && 0 <= j < t.len() && i != j implies #[trigger] t[i].0
            != #[trigger] t[j].0 by {
            if i == s.len() {
                assert(s[j].0 == t[j].0);
            } else if j == s.len() {
                assert(s[i].0 == t[i].0);
            } else {
                assert(s[i].0 != s[j].0);
            }
        }
    }
}

/// Removing a record keeps keys unique.
pub proof fn lemma_remove_unique(s: Seq<Keyed>, id: Seq<char>)
    requires
        ids_unique(s),
    ensures
        ids_unique(remove_id(s, id)),
{
    let t = remove_id(s, id);
    if has_id(s, id) {
        let k = index_of(s, id);
        assert forall|i: int, j: int|
            0 <= i < t.len() && 0 <= j < t.len() && i != j implies #[trigger] t[i].0
            != #[trigger] t[j].0 by {
            let a = if i < k { i } else { i + 1 };
            let b = if j < k { j } else { j + 1 };
            assert(t[i] == s[a]);
            assert(t[j] == s[b]);
        }
    }
}

/// What is stored is what a later read gives back: after `e` is put under
/// `id`, the record under `id` is `e`.
pub proof fn lemma_read_after_write(s: Seq<Keyed>, id: Seq<char>, e: EntryView)
    requires
        ids_unique(s),
    ensures
        lookup(upsert(s, id, e), id) == Some(e),
{
    let t = upsert(s, id, e);
    lemma_upsert_unique(s, id, e);
    if has_id(s, id) {
        let k = index_of(s, id);
        lemma_index_of_unique(t, id, k);
    } else {
        lemma_index_of_unique(t, id, s.len() as int);
    }
}

/// Putting a record into a store leaves the records of other keys as they
/// were, present or absent.
pub proof fn lemma_write_keeps_others(s: Seq<Keyed>, id: Seq<char>, e: EntryView, other: Seq<char>)
    requires
        ids_unique(s),
        other != id,
    ensures
        lookup(upsert(s, id, e), other) == lookup(s, other),
{
    let t = upsert(s, id, e);
    lemma_upsert_unique(s, id, e);
    if has_id(s, other) {
        let k = index_of(s, other);
        assert(t[k] == s[k]);
        lemma_index_of_unique(t, other, k);
    } else {
        assert forall|i: int| 0 <= i < t.len() implies #[trigger] t[i].0 != other by {
            if i < s.len() && !(has_id(s, id) && i == index_of(s, id)) {
                assert(t[i] == s[i]);
            }
        }
    }
}

/// After a record is deleted, a read of its key finds nothing, and the
/// records of other keys are as they were.
pub proof fn lemma_delete_then_read(s: Seq<Keyed>, id: Seq<char>, other: Seq<char>)
    requires
        ids_unique(s),
        other != id,
    ensures
        lookup(remove_id(s, id), id) is None,
        lookup(remove_id(s, id), other) == lookup(s, other),
{
    let t = remove_id(s, id);
    lemma_remove_unique(s, id);
    if has_id(s, id) {
        let k = index_of(s, id);
        assert forall|i: int| 0 <= i < t.len() implies #[trigger] t[i].0 != id by {
            let j = if i < k { i } else { i + 1 };
            assert(t[i] == s[j]);
        }
        if has_id(s, other) {
            let m = index_of(s, other);
            assert(m != k);
            let j = if m < k { m } else { m - 1 };
            assert(t[j] == s[m]);
            lemma_index_of_unique(t, other, j);
        } else {
            assert forall|i: int| 0 <= i < t.len() implies #[trigger] t[i].0 != other by {
                let j = if i < k { i } else { i + 1 };
                assert(t[i] == s[j]);
            }
        }
    }
}

/// Stamping a connection changes only the time of last connection of that
/// record; other records are as they were.
pub proof fn lemma_stamp_connected(s: Seq<Keyed>, id: Seq<char>, now: i64, other: Seq<char>)
    requires
        ids_unique(s),
        other != id,
    ensures
        lookup(stamp_connected(s, id, now), id) == match lookup(s, id) {
            Some(e) => Some(EntryView { last_connected: Some(now), ..e }),
            None => None,
        },
        lookup(stamp_connected(s, id, now), other) == lookup(s, other),
{
    match lookup(s, id) {
        Some(e) => {
            let e2 = EntryView { last_connected: Some(now), ..e };
            lemma_read_after_write(s, id, e2);
            lemma_write_keeps_others(s, id, e2, other);
        },
        None => {},
    }
}

/// The last record of `es` kept under `k`, if any.
pub open spec fn last_value(es: Seq<Keyed>, k: Seq<char>) -> Option<EntryView>
    decreases es.len(),
{
    if es.len() == 0 {
        None
    } else if es.last().0 == k {
        Some(es.last().1)
    } else {
        last_value(es.drop_last(), k)
    }
}

/// Storing a sequence of records one after another keeps every stored key
/// and adds the new ones; under each key stands the last record given for
/// it, or, where none was given, the record that stood there.
pub proof fn lemma_store_all(s: Seq<Keyed>, es: Seq<Keyed>, k: Seq<char>)
    requires
        ids_unique(s),
    ensures
        ids_unique(upsert_all(s, es)),
        lookup(upsert_all(s, es), k) == match last_value(es, k) {
            Some(e) => Some(e),
            None => lookup(s, k),
        },
    decreases es.len(),
{
    if es.len() > 0 {
        let t = upsert_all(s, es.drop_last());
        lemma_store_all(s, es.drop_last(), k);
        lemma_upsert_unique(t, es.last().0, es.last().1);
        if es.last().0 == k {
            lemma_read_after_write(t, k, es.last().1);
        } else {
            lemma_write_keeps_others(t, es.last().0, es.last().1, k);
        }
    }
}

/// `s` with the record under `id`, if there is one, stamped as last
/// connected at `now`.
pub open spec fn stamp_connected(s: Seq<Keyed>, id: Seq<char>, now: i64) -> Seq<Keyed> {
    match lookup(s, id) {
        Some(e) => upsert(s, id, EntryView { last_connected: Some(now), ..e }),
        None => s,
    }
}

/// The groups that a store lists: `Default` and the group of every record.
pub open spec fn listed_group(s: Seq<Keyed>, g: Seq<char>) -> bool {
    g == "Default"@ || exists|i: int| 0 <= i < s.len() && #[trigger] s[i].1.group == g
}

/// With unique keys, the last record given for a key is the one kept under it.
proof fn lemma_last_value_unique(es: Seq<Keyed>, k: Seq<char>)
    requires
        ids_unique(es),
    ensures
        last_value(es, k) == lookup(es, k),
    decreases es.len(),
{
    if es.len() > 0 {
        let q = es.drop_last();
        let n = es.len() - 1;
        if es.last().0 == k {
            lemma_index_of_unique(es, k, n);
        } else {
            lemma_last_value_unique(q, k);
            if has_id(es, k) {
                let i = index_of(es, k);
                assert(es[i].0 == k);
                assert(i != n);
                assert(q[i] == es[i]);
                lemma_index_of_unique(q, k, i);
            }
            if has_id(q, k) {
                let i = index_of(q, k);
                assert(es[i] == q[i]);
                assert(has_id(es, k));
            }
        }
    }
}

/// Two sequences with unique keys that hold the same keyed records keep
/// the same record under every key.
proof fn lemma_same_records_lookup(s: Seq<Keyed>, es: Seq<Keyed>, k: Seq<char>)
    requires
        ids_unique(s),
        ids_unique(es),
        forall|x: Keyed| #[trigger] s.contains(x) <==> es.contains(x),
    ensures
        lookup(es, k) == lookup(s, k),
{
    if has_id(s, k) {
        let i = index_of(s, k);
        assert(s.contains(s[i]));
        let j = choose|j: int| 0 <= j < es.len() && es[j] == s[i];
        lemma_index_of_unique(es, k, j);
    }
    if has_id(es, k) {
        let j = index_of(es, k);
        assert(es.contains(es[j]));
        assert(s.contains(es[j]));
        let i = choose|i: int| 0 <= i < s.len() && s[i] == es[j];
        lemma_index_of_unique(s, k, i);
    }
}

/// Rebuilding a store from its own records, in its own order, gives the
/// same store.
pub proof fn lemma_reload(s: Seq<Keyed>)
    requires
        ids_unique(s),
    ensures
        upsert_all(Seq::<Keyed>::empty(), s) == s,
    decreases s.len(),
{
    if s.len() > 0 {
        let q = s.drop_last();
        assert forall|i: int, j: int|
            0 <= i < q.len() && 0 <= j < q.len() && i != j implies #[trigger] q[i].0 != #[trigger] q[j].0 by {
            assert(s[i].0 != s[j].0);
        }
        lemma_reload(q);
        assert(!has_id(q, s.last().0)) by {
            if has_id(q, s.last().0) {
                let i = index_of(q, s.last().0);
                assert(s[i].0 != s[s.len() - 1].0);
            }
        }
        assert(q.push(s.last()) =~= s);
    }
}

/// Rebuilding a store from its own records in any order, as reading back
/// the data file does, keeps the same record under every key and no other
/// key.
pub proof fn lemma_reload_any_order(s: Seq<Keyed>, es: Seq<Keyed>, k: Seq<char>)
    requires
        ids_unique(s),
        ids_unique(es),
        forall|x: Keyed| #[trigger] s.contains(x) <==> es.contains(x),
    ensures
        lookup(upsert_all(Seq::<Keyed>::empty(), es), k) == lookup(s, k),
{
    lemma_store_all(Seq::<Keyed>::empty(), es, k);
    lemma_last_value_unique(es, k);
    lemma_same_records_lookup(s, es, k);
}

/// The cache of connection records: at most one record per key, kept in the
/// order in which keys were first stored.
pub struct ConnectionStore {
    entries: Vec<(String, Arc<ConnectionEntry>)>,
}

impl View for ConnectionStore {
    type V = Seq<Keyed>;

    closed spec fn view(&self) -> Seq<Keyed> {
        views(self.entries@)
    }
}

impl ConnectionStore {
    #[verifier::type_invariant]
    closed spec fn wf(self) -> bool {
        ids_unique(views(self.entries@))
    }

    /// An empty store.
    pub fn new() -> (r: Self)
        ensures
            r@ == Seq::<Keyed>::empty(),
    {
        let r = ConnectionStore { entries: Vec::new() };
        assert(r@ =~= Seq::<Keyed>::empty());
        r
    }

    /// The number of records; every record has its own key.
    pub fn len(&self) -> (r: usize)
        ensures
            r == self@.len(),
            ids_unique(self@),
    {
        proof {
            use_type_invariant(self);
        }
        self.entries.len()
    }

    /// The records under their keys, in store order.
    pub fn entries(&self) -> (r: &Vec<(String, Arc<ConnectionEntry>)>)
        ensures
            views(r@) == self@,
            ids_unique(self@),
    {
        proof {
            use_type_invariant(self);
        }
        &self.entries
    }

    /// Where key `id` stands.
    fn position(&self, id: &str) -> (r: Option<usize>)
        ensures
            ids_unique(self@),
            match r {
                Some(i) => i < self@.len() && has_id(self@, id@) && index_of(self@, id@) == i,
                None => !has_id(self@, id@),
            },
    {
        proof {
            use_type_invariant(self);
        }
        let n = self.entries.len();
        let mut i: usize = 0;
        while i < n
            invariant
                n == self.entries@.len(),
                n == self@.len(),
                i <= n,
                ids_unique(self@),
                forall|k: int| 0 <= k < i ==> self@[k].0 != id@,
            decreases n - i,
        {
            assert(self@[i as int].0 == self.entries@[i as int].0@);
            if chars_equal(self.entries[i].0.as_str(), id) {
                proof {
                    lemma_index_of_unique(self@, id@, i as int);
                }
                return Some(i);
            }
            i = i + 1;
        }
        None
    }

    /// The record kept under `id`, shared.
    pub fn get(&self, id: &str) -> (r: Option<Arc<ConnectionEntry>>)
        ensures
            match r {
                Some(e) => lookup(self@, id@) == Some(e@),
                None => lookup(self@, id@) is None,
            },
    {
        match self.position(id) {
            Some(i) => {
                assert(self@[i as int].1 == self.entries@[i as int].1@);
                Some(share(&self.entries[i].1))
            },
            None => None,
        }
    }

    /// Keeps `ce` under `key`, in place of what `key` held, or adds it.
    fn put(&mut self, key: String, ce: ConnectionEntry)
        ensures
            final(self)@ == upsert(old(self)@, key@, ce@),
    {
        let ghost k = key@;
        let ghost e = ce@;
        match self.position(key.as_str()) {
            Some(i) => {
                proof {
                    lemma_upsert_unique(self@, k, e);
                }
                let mut v: Vec<(String, Arc<ConnectionEntry>)> = Vec::new();
                std::mem::swap(&mut v, &mut self.entries);
                v.set(i, (key, Arc::new(ce)));
                assert(views(v@) =~= upsert(old(self)@, k, e));
                self.entries = v;
            },
            None => {
                proof {
                    lemma_upsert_unique(self@, k, e);
                }
                let mut v: Vec<(String, Arc<ConnectionEntry>)> = Vec::new();
                std::mem::swap(&mut v, &mut self.entries);
                v.push((key, Arc::new(ce)));
                assert(views(v@) =~= upsert(old(self)@, k, e));
                self.entries = v;
            },
        }
    }

    /// Keeps `ce` under its id, in place of what that id held, or adds it.
    pub fn insert(&mut self, ce: ConnectionEntry)
        ensures
            final(self)@ == upsert(old(self)@, ce.id@, ce@),
    {
        let key = ce.id.clone();
        self.put(key, ce);
    }

    /// Removes the record kept under `id`, if there is one.
    pub fn delete(&mut self, id: &str)
        ensures
            final(self)@ == remove_id(old(self)@, id@),
    {
        match self.position(id) {
            Some(i) => {
                proof {
                    lemma_remove_unique(self@, id@);
                }
                let mut v: Vec<(String, Arc<ConnectionEntry>)> = Vec::new();
                std::mem::swap(&mut v, &mut self.entries);
                v.remove(i);
                assert(views(v@) =~= remove_id(old(self)@, id@));
                self.entries = v;
            },
            None => {},
        }
    }

    /// A store that holds `entries`, each record under the key given with
    /// it, a later record in place of an earlier one with the same key.
    pub fn from_entries(entries: Vec<(String, ConnectionEntry)>) -> (r: Self)
        ensures
            r@ == upsert_all(Seq::<Keyed>::empty(), given_views(entries@)),
    {
        let ghost es = given_views(entries@);
        let mut store = ConnectionStore::new();
        let n = entries.len();
        let mut i: usize = 0;
        while i < n
            invariant
                n == entries@.len(),
                es == given_views(entries@),
                i <= n,
                store@ == upsert_all(Seq::<Keyed>::empty(), es.take(i as int)),
            decreases n - i,
        {
            let key = entries[i].0.clone();
            let e = entries[i].1.clone();
            assert(es.take(i + 1).drop_last() =~= es.take(i as int));
            assert(es.take(i + 1).last() == (key@, e@));
            store.put(key, e);
            i = i + 1;
        }
        assert(es.take(n as int) =~= es);
        store
    }

    /// Stamps the record kept under `id`, if there is one, as last connected
    /// at `now` (milliseconds since the Unix epoch).
    pub fn update_last_connected(&mut self, id: &str, now: i64)
        ensures
            final(self)@ == stamp_connected(old(self)@, id@, now),
    {
        match self.position(id) {
            Some(i) => {
                assert(self@[i as int].1 == self.entries@[i as int].1@);
                let mut e = (*self.entries[i].1).clone();
                e.last_connected = Some(now);
                self.put(id.to_owned(), e);
            },
            None => {},
        }
    }

    /// `Default` and the group of every record, each once.
    pub fn get_all_groups(&self) -> (r: Vec<String>)
        ensures
            strs(r@).no_duplicates(),
            forall|g: Seq<char>| strs(r@).contains(g) <==> listed_group(self@, g),
    {
        let entries = self.entries();
        let mut r: Vec<String> = Vec::new();
        r.push(get_default_group());
        let n = entries.len();
        let mut i: usize = 0;
        assert(strs(r@) =~= seq!["Default"@]);
        assert forall|g: Seq<char>|
            strs(r@).contains(g) <==> (g == "Default"@ || exists|k: int|
                0 <= k < 0 && #[trigger] self@[k].1.group == g) by {
            if g == "Default"@ {
                assert(strs(r@)[0] == g);
            }
        }
        while i < n
            invariant
                n == entries@.len(),
                views(entries@) == self@,
                i <= n,
                strs(r@).no_duplicates(),
                forall|g: Seq<char>|
                    strs(r@).contains(g) <==> (g == "Default"@ || exists|k: int|
                        0 <= k < i && #[trigger] self@[k].1.group == g),
            decreases n - i,
        {
            let g = &entries[i].1.group;
            assert(self@[i as int].1.group == g@);
            let ghost before = strs(r@);
            if !contains_str(&r, g.as_str()) {
                r.push(g.clone());
                assert(strs(r@) =~= before.push(g@));
            }
            assert forall|x: Seq<char>|
                strs(r@).contains(x) <==> (x == "Default"@ || exists|k: int|
                    0 <= k < i + 1 && #[trigger] self@[k].1.group == x) by {
                if before.contains(x) {
                    let j = choose|j: int| 0 <= j < before.len() && before[j] == x;
                    assert(strs(r@)[j] == x);
                }
                if x == g@ {
                    assert(self@[i as int].1.group == x);
                    if !before.contains(x) {
                        assert(strs(r@)[strs(r@).len() - 1] == x);
                    }
                }
                if strs(r@).contains(x) && x != g@ {
                    let j = choose|j: int| 0 <= j < strs(r@).len() && strs(r@)[j] == x;
                    assert(before[j] == x);
                }
                if exists|k: int| 0 <= k < i + 1 && #[trigger] self@[k].1.group == x {
                    let k = choose|k: int| 0 <= k < i + 1 && #[trigger] self@[k].1.group == x;
                    if k < i {
                        assert(before.contains(x));
                        let j = choose|j: int| 0 <= j < before.len() && before[j] == x;
                        assert(strs(r@)[j] == x);
                    }
                }
            }
            i = i + 1;
        }
        r
    }
}

} // verus!
