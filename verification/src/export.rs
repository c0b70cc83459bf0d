//! Export: the records chosen for export, each stripped of credentials, in
//! the order of group, environment, position and name.

use vstd::prelude::*;
use vstd::string::StrSliceExecFns;
use crate::entry::{ConnectionEntry, EntryView};
use crate::store::{entry_views, lookup, values, views, ConnectionStore, Keyed};
use crate::text::strs;

verus! {

/// `a` comes before `b` in the order of characters (which is the order of
/// their UTF-8 bytes).
pub open spec fn chars_lt(a: Seq<char>, b: Seq<char>) -> bool
    decreases a.len(),
{
    if a.len() == 0 {
        b.len() > 0
    } else if b.len() == 0 {
        false
    } else if a[0] != b[0] {
        a[0] < b[0]
    } else {
        chars_lt(a.drop_first(), b.drop_first())
    }
}

/// The key by which export orders records.
pub open spec fn export_key(e: EntryView) -> (i64, i64, i64, Seq<char>) {
    (e.group_order, e.environment_order, e.sort_order, e.name)
}

/// Key `a` comes before key `b`: compared field by field.
pub open spec fn key_lt(a: (i64, i64, i64, Seq<char>), b: (i64, i64, i64, Seq<char>)) -> bool {
    if a.0 != b.0 {
        a.0 < b.0
    } else if a.1 != b.1 {
        a.1 < b.1
    } else if a.2 != b.2 {
        a.2 < b.2
    } else {
        chars_lt(a.3, b.3)
    }
}

/// Record `a` comes before record `b` in export order.
pub open spec fn entry_lt(a: EntryView, b: EntryView) -> bool {
    key_lt(export_key(a), export_key(b))
}

/// No record of `s` comes before one that precedes it.
pub open spec fn sorted_by_key(s: Seq<EntryView>) -> bool {
    forall|i: int, j: int| 0 <= i < j < s.len() ==> !entry_lt(#[trigger] s[j], #[trigger] s[i])
}

/// The records that have key `k`.
pub open spec fn with_key(k: (i64, i64, i64, Seq<char>)) -> spec_fn(EntryView) -> bool {
    |x: EntryView| export_key(x) == k
}

/// `r` is `s` sorted by export key, records of equal key kept in the order
/// of `s`.
pub open spec fn stable_sort_of(r: Seq<EntryView>, s: Seq<EntryView>) -> bool {
    &&& sorted_by_key(r)
    &&& forall|k: (i64, i64, i64, Seq<char>)| #[trigger] r.filter(with_key(k)) == s.filter(with_key(k))
}

/// The records that export takes: those whose ids are listed, in the order
/// of the list (an id that no record has is passed over), or every record.
pub open spec fn selection(s: Seq<Keyed>, ids: Option<Seq<Seq<char>>>) -> Seq<EntryView> {
    match ids {
        Some(ids) => ids.filter_map(|id: Seq<char>| lookup(s, id)),
        None => values(s),
    }
}

/// The characters of a list of ids, if there is one.
pub open spec fn id_list(ids: Option<Vec<String>>) -> Option<Seq<Seq<char>>> {
    match ids {
        Some(v) => Some(strs(v@)),
        None => None,
    }
}

/// `s` is the selection `sel` in export order: sorted stably by export
/// key, and holding the same records.
pub open spec fn sorted_export(s: Seq<EntryView>, sel: Seq<EntryView>) -> bool {
    stable_sort_of(s, sel) && s.to_multiset() == sel.to_multiset()
}

/// `e` as export writes it: no user name, password, time of last connection
/// or icon path.
pub open spec fn stripped(e: EntryView) -> EntryView {
    EntryView {
        username: None,
        password: None,
        last_connected: None,
        icon: Seq::<char>::empty(),
        ..e
    }
}

/// Export clears the user name, password, time of last connection and icon
/// path, and keeps every other field of the record: its address, name, id,
/// group, environment, positions and settings.
pub proof fn lemma_export_keeps_the_record(e: EntryView)
    ensures
        ({
            let r = stripped(e);
            &&& r.username is None
            &&& r.password is None
            &&& r.last_connected is None
            &&& r.icon.len() == 0
            &&& r.address == e.address
            &&& r.heap_size == e.heap_size
            &&& r.id == e.id
            &&& r.java_home == e.java_home
            &&& r.java_args == e.java_args
            &&& r.name == e.name
            &&& r.verify == e.verify
            &&& r.group == e.group
            &&& r.environment == e.environment
            &&& r.notes == e.notes
            &&& r.donotcache == e.donotcache
            &&& r.group_order == e.group_order
            &&& r.environment_order == e.environment_order
            &&& r.sort_order == e.sort_order
            &&& r.show_console == e.show_console
        }),
{
}

proof fn lemma_chars_lt_irreflexive(a: Seq<char>)
    ensures
        !chars_lt(a, a),
    decreases a.len(),
{
    if a.len() > 0 {
        lemma_chars_lt_irreflexive(a.drop_first());
    }
}

proof fn lemma_chars_lt_asymmetric(a: Seq<char>, b: Seq<char>)
    ensures
        !(chars_lt(a, b) && chars_lt(b, a)),
    decreases a.len(),
{
    if a.len() > 0 && b.len() > 0 && a[0] == b[0] {
        lemma_chars_lt_asymmetric(a.drop_first(), b.drop_first());
    }
}

proof fn lemma_chars_lt_transitive(a: Seq<char>, b: Seq<char>, c: Seq<char>)
    requires
        chars_lt(a, b),
        chars_lt(b, c),
    ensures
        chars_lt(a, c),
    decreases a.len(),
{
    if a.len() > 0 && b.len() > 0 && c.len() > 0 && a[0] == b[0] && b[0] == c[0] {
        lemma_chars_lt_transitive(a.drop_first(), b.drop_first(), c.drop_first());
    }
}

proof fn lemma_chars_lt_total(a: Seq<char>, b: Seq<char>)
    ensures
        a == b || chars_lt(a, b) || chars_lt(b, a),
    decreases a.len(),
{
    if a.len() > 0 && b.len() > 0 && a[0] == b[0] {
        lemma_chars_lt_total(a.drop_first(), b.drop_first());
        if a.drop_first() == b.drop_first() {
            assert(a =~= seq![a[0]] + a.drop_first());
            assert(b =~= seq![b[0]] + b.drop_first());
        }
    } else if a.len() == 0 && b.len() == 0 {
        assert(a =~= b);
    }
}

/// Text whose first difference from `b` is a smaller character comes first.
proof fn lemma_chars_lt_at(a: Seq<char>, b: Seq<char>, i: int)
    requires
        0 <= i < a.len(),
        i < b.len(),
        a.take(i) == b.take(i),
        a[i] < b[i],
    ensures
        chars_lt(a, b),
    decreases i,
{
    if i > 0 {
        assert(a[0] == a.take(i)[0]);
        assert(b[0] == b.take(i)[0]);
        assert(a.drop_first().take(i - 1) =~= a.take(i).drop_first());
        assert(b.drop_first().take(i - 1) =~= b.take(i).drop_first());
        lemma_chars_lt_at(a.drop_first(), b.drop_first(), i - 1);
    }
}

/// A proper prefix comes first.
proof fn lemma_chars_lt_prefix(a: Seq<char>, b: Seq<char>)
    requires
        a.len() < b.len(),
        b.take(a.len() as int) == a,
    ensures
        chars_lt(a, b),
    decreases a.len(),
{
    if a.len() > 0 {
        assert(b[0] == b.take(a.len() as int)[0]);
        assert(b.drop_first().take(a.len() - 1) =~= a.drop_first());
        lemma_chars_lt_prefix(a.drop_first(), b.drop_first());
    }
}

/// Export puts records in order of group order; then, within a group order,
/// of environment order; then of sort order; then of name, where a name
/// comes before another that it begins, or whose first differing character
/// is larger.
pub proof fn lemma_export_order_by_fields(a: EntryView, b: EntryView)
    ensures
        a.group_order < b.group_order ==> entry_lt(a, b),
        a.group_order == b.group_order && a.environment_order < b.environment_order ==> entry_lt(
            a,
            b,
        ),
        a.group_order == b.group_order && a.environment_order == b.environment_order
            && a.sort_order < b.sort_order ==> entry_lt(a, b),
        a.group_order == b.group_order && a.environment_order == b.environment_order
            && a.sort_order == b.sort_order && a.name.len() < b.name.len() && b.name.take(
            a.name.len() as int,
        ) == a.name ==> entry_lt(a, b),
        forall|i: int|
            a.group_order == b.group_order && a.environment_order == b.environment_order
                && a.sort_order == b.sort_order && 0 <= i < a.name.len() && i < b.name.len()
                && a.name.take(i) == b.name.take(i) && #[trigger] a.name[i] < #[trigger] b.name[i]
                ==> entry_lt(a, b),
        export_key(a) == export_key(b) ==> !entry_lt(a, b),
{
    if a.name.len() < b.name.len() && b.name.take(a.name.len() as int) == a.name {
        lemma_chars_lt_prefix(a.name, b.name);
    }
    assert forall|i: int|
        a.group_order == b.group_order && a.environment_order == b.environment_order
            && a.sort_order == b.sort_order && 0 <= i < a.name.len() && i < b.name.len()
            && a.name.take(i) == b.name.take(i) && #[trigger] a.name[i] < #[trigger] b.name[i]
        implies entry_lt(a, b) by {
        lemma_chars_lt_at(a.name, b.name, i);
    }
    lemma_chars_lt_irreflexive(a.name);
}

/// Exporting without a list of ids takes every stored record once, in
/// store order; with a list, an empty list takes nothing, and each further
/// id adds the record stored under it, or nothing where none is stored.
pub proof fn lemma_selection_takes_the_records(s: Seq<Keyed>, ids: Seq<Seq<char>>, id: Seq<char>)
    ensures
        selection(s, None).len() == s.len(),
        forall|i: int| 0 <= i < s.len() ==> #[trigger] selection(s, None)[i] == s[i].1,
        selection(s, Some(Seq::<Seq<char>>::empty())).len() == 0,
        selection(s, Some(ids.push(id))) == match lookup(s, id) {
            Some(e) => selection(s, Some(ids)).push(e),
            None => selection(s, Some(ids)),
        },
{
    assert(ids.push(id).drop_last() =~= ids);
}

/// Export order is a strict order, total on keys.
pub proof fn lemma_key_order(a: EntryView, b: EntryView, c: EntryView)
    ensures
        !entry_lt(a, a),
        !(entry_lt(a, b) && entry_lt(b, a)),
        entry_lt(a, b) && entry_lt(b, c) ==> entry_lt(a, c),
        export_key(a) == export_key(b) || entry_lt(a, b) || entry_lt(b, a),
{
    lemma_chars_lt_irreflexive(a.name);
    lemma_chars_lt_asymmetric(a.name, b.name);
    if entry_lt(a, b) && entry_lt(b, c) && a.group_order == b.group_order && b.group_order
        == c.group_order && a.environment_order == b.environment_order && b.environment_order
        == c.environment_order && a.sort_order == b.sort_order && b.sort_order == c.sort_order {
        lemma_chars_lt_transitive(a.name, b.name, c.name);
    }
    lemma_chars_lt_total(a.name, b.name);
}

/// A sequence none of whose elements passes `p` filters to nothing.
proof fn lemma_filter_none(s: Seq<EntryView>, p: spec_fn(EntryView) -> bool)
    requires
        forall|i: int| 0 <= i < s.len() ==> !p(#[trigger] s[i]),
    ensures
        s.filter(p) == Seq::<EntryView>::empty(),
    decreases s.len(),
{
    reveal(Seq::filter);
    if s.len() > 0 {
        lemma_filter_none(s.drop_last(), p);
        assert(!p(s[s.len() - 1]));
    }
}

/// Inserting `x` after every record that does not come after it keeps the
/// records of every key in order, and adds `x` last among those of its key.
proof fn lemma_insert_stable(r: Seq<EntryView>, p: int, x: EntryView, k: (i64, i64, i64, Seq<char>))
    requires
        0 <= p <= r.len(),
        forall|q: int| p <= q < r.len() ==> entry_lt(x, #[trigger] r[q]),
    ensures
        r.insert(p, x).filter(with_key(k)) == if export_key(x) == k {
            r.filter(with_key(k)).push(x)
        } else {
            r.filter(with_key(k))
        },
{
    reveal(Seq::filter);
    let f = with_key(k);
    let a = r.take(p);
    let b = r.skip(p);
    assert(r =~= a + b);
    assert(r.insert(p, x) =~= (a + seq![x]) + b);
    Seq::filter_distributes_over_add(a + seq![x], b, f);
    Seq::filter_distributes_over_add(a, seq![x], f);
    Seq::filter_distributes_over_add(a, b, f);
    assert(seq![x].drop_last() =~= Seq::<EntryView>::empty());
    if export_key(x) == k {
        assert forall|i: int| 0 <= i < b.len() implies !f(#[trigger] b[i]) by {
            assert(b[i] == r[p + i]);
            lemma_key_order(x, b[i], x);
        }
        lemma_filter_none(b, f);
        assert(seq![x].drop_last().filter(f) =~= Seq::<EntryView>::empty());
        assert(seq![x].filter(f) =~= seq![x]);
    } else {
        assert(!f(x));
        assert(seq![x].drop_last().filter(f) =~= Seq::<EntryView>::empty());
        assert(seq![x].filter(f) =~= Seq::<EntryView>::empty());
    }
}

/// Whether `a` comes before `b` in the order of characters.
fn chars_less(a: &str, b: &str) -> (r: bool)
    ensures
        r == chars_lt(a@, b@),
{
    let n = a.unicode_len();
    let m = b.unicode_len();
    let mut i: usize = 0;
    assert(a@.skip(0) =~= a@);
    assert(b@.skip(0) =~= b@);
    while i < n && i < m && a.get_char(i) == b.get_char(i)
        invariant
            n == a@.len(),
            m == b@.len(),
            i <= n,
            i <= m,
            chars_lt(a@, b@) == chars_lt(a@.skip(i as int), b@.skip(i as int)),
        decreases n - i,
    {
        assert(a@.skip(i as int).drop_first() =~= a@.skip(i + 1));
        assert(b@.skip(i as int).drop_first() =~= b@.skip(i + 1));
        i = i + 1;
    }
    if i == n {
        i < m
    } else if i == m {
        false
    } else {
        a.get_char(i) < b.get_char(i)
    }
}

/// Whether `a` comes before `b` in export order.
pub fn entry_before(a: &ConnectionEntry, b: &ConnectionEntry) -> (r: bool)
    ensures
        r == entry_lt(a@, b@),
{
    if a.group_order != b.group_order {
        a.group_order < b.group_order
    } else if a.environment_order != b.environment_order {
        a.environment_order < b.environment_order
    } else if a.sort_order != b.sort_order {
        a.sort_order < b.sort_order
    } else {
        chars_less(a.name.as_str(), b.name.as_str())
    }
}

/// The key by which export orders `ce`.
pub fn export_order_key(ce: &ConnectionEntry) -> (r: (i64, i64, i64, String))
    ensures
        (r.0, r.1, r.2, r.3@) == export_key(ce@),
{
    (ce.group_order, ce.environment_order, ce.sort_order, ce.name.clone())
}

/// `entries` sorted by export key; records of equal key keep their order.
pub fn sort_for_export(entries: Vec<ConnectionEntry>) -> (r: Vec<ConnectionEntry>)
    ensures
        stable_sort_of(entry_views(r@), entry_views(entries@)),
        entry_views(r@).to_multiset() == entry_views(entries@).to_multiset(),
{
    let ghost s = entry_views(entries@);
    let mut rest = entries;
    let mut r: Vec<ConnectionEntry> = Vec::new();
    let n = rest.len();
    let mut i: usize = 0;
    assert(s.take(0) =~= Seq::<EntryView>::empty());
    assert(entry_views(r@) =~= s.take(0));
    assert forall|k: (i64, i64, i64, Seq<char>)| #[trigger]
        entry_views(r@).filter(with_key(k)) == s.take(0).filter(with_key(k)) by {
        reveal(Seq::filter);
        assert(entry_views(r@) =~= s.take(0));
    }
    while i < n
        invariant
            n == s.len(),
            i <= n,
            entry_views(rest@) =~= s.subrange(i as int, n as int),
            sorted_by_key(entry_views(r@)),
            forall|k: (i64, i64, i64, Seq<char>)| #[trigger]
                entry_views(r@).filter(with_key(k)) == s.take(i as int).filter(with_key(k)),
            entry_views(r@).to_multiset() == s.take(i as int).to_multiset(),
        decreases n - i,
    {
        let ghost before = entry_views(rest@);
        assert(rest@.len() == before.len());
        assert(before[0] == s[i as int]);
        let x = rest.remove(0);
        assert(x@ == s[i as int]);
        assert(entry_views(rest@) =~= s.subrange(i + 1, n as int)) by {
            assert(entry_views(rest@) =~= before.drop_first());
        }
        let len = r.len();
        let mut p: usize = 0;
        while p < len && !entry_before(&x, &r[p])
            invariant
                len == r@.len(),
                p <= len,
                forall|q: int| 0 <= q < p ==> !entry_lt(x@, #[trigger] entry_views(r@)[q]),
            decreases len - p,
        {
            assert(entry_views(r@)[p as int] == r@[p as int]@);
            p = p + 1;
        }
        let ghost old_r = entry_views(r@);
        proof {
            if p < len {
                assert(old_r[p as int] == r@[p as int]@);
            }
            assert forall|q: int| p <= q < old_r.len() implies entry_lt(x@, #[trigger] old_r[q]) by {
                if q > p {
                    lemma_key_order(old_r[p as int], old_r[q], x@);
                    lemma_key_order(x@, old_r[p as int], old_r[q]);
                }
            }
        }
        r.insert(p, x);
        proof {
            let nr = entry_views(r@);
            assert(nr =~= old_r.insert(p as int, x@));
            assert(s.take(i + 1).drop_last() =~= s.take(i as int));
            assert forall|k: (i64, i64, i64, Seq<char>)| #[trigger]
                nr.filter(with_key(k)) == s.take(i + 1).filter(with_key(k)) by {
                reveal(Seq::filter);
                lemma_insert_stable(old_r, p as int, x@, k);
            }
            assert forall|a: int, b: int| 0 <= a < b < nr.len() implies !entry_lt(
                #[trigger] nr[b],
                #[trigger] nr[a],
            ) by {
                if a < p && b < p {
                } else if a < p && b == p {
                } else if a < p {
                    assert(nr[b] == old_r[b - 1]);
                    lemma_key_order(nr[b], x@, nr[a]);
                    lemma_key_order(x@, nr[a], x@);
                    lemma_key_order(nr[a], x@, nr[b]);
                } else if a == p {
                    assert(nr[b] == old_r[b - 1]);
                    lemma_key_order(x@, nr[b], x@);
                } else {
                    assert(nr[b] == old_r[b - 1]);
                    assert(nr[a] == old_r[a - 1]);
                }
            }
            assert(s.take(i + 1) =~= s.take(i as int).push(x@));
            vstd::seq_lib::to_multiset_insert(old_r, p as int, x@);
            vstd::seq_lib::to_multiset_build(s.take(i as int), x@);
        }
        i = i + 1;
    }
    assert(s.take(n as int) =~= s);
    r
}

/// `ce` stripped for export.
pub fn exportable_entry(ce: &ConnectionEntry) -> (r: ConnectionEntry)
    ensures
        r@ == stripped(ce@),
{
    let mut e = ce.clone();
    e.username = None;
    e.password = None;
    e.last_connected = None;
    e.icon = String::new();
    e
}

impl ConnectionStore {
    /// The records that export takes, in the order of `ids` or of the store.
    pub fn export_selection(&self, ids: &Option<Vec<String>>) -> (r: Vec<ConnectionEntry>)
        ensures
            entry_views(r@) == selection(
                self@,
                match ids {
                    Some(v) => Some(strs(v@)),
                    None => None,
                },
            ),
    {
        match ids {
            None => {
                let all = self.entries();
                let ghost vs = values(self@);
                let n = all.len();
                let mut r: Vec<ConnectionEntry> = Vec::new();
                let mut i: usize = 0;
                while i < n
                    invariant
                        n == all@.len(),
                        views(all@) == self@,
                        vs == values(self@),
                        i <= n,
                        entry_views(r@) =~= vs.take(i as int),
                    decreases n - i,
                {
                    let ghost old_r = entry_views(r@);
                    assert(all@[i as int].1@ == vs[i as int]);
                    r.push((*all[i].1).clone());
                    assert(entry_views(r@) =~= old_r.push(vs[i as int]));
                    assert(vs.take(i + 1) =~= vs.take(i as int).push(vs[i as int]));
                    i = i + 1;
                }
                assert(vs.take(n as int) =~= vs);
                r
            },
            Some(v) => {
                let ghost f = |id: Seq<char>| lookup(self@, id);
                let ghost ids_v = strs(v@);
                let n = v.len();
                let mut r: Vec<ConnectionEntry> = Vec::new();
                let mut i: usize = 0;
                assert(ids_v.take(0).filter_map(f) =~= Seq::<EntryView>::empty());
                while i < n
                    invariant
                        n == v@.len(),
                        ids_v == strs(v@),
                        f == (|id: Seq<char>| lookup(self@, id)),
                        i <= n,
                        entry_views(r@) =~= ids_v.take(i as int).filter_map(f),
                    decreases n - i,
                {
                    proof {
                        ids_v.lemma_filter_map_take_succ(f, i as int);
                    }
                    match self.get(v[i].as_str()) {
                        Some(e) => {
                            r.push((*e).clone());
                        },
                        None => {},
                    }
                    i = i + 1;
                }
                assert(ids_v.take(n as int) =~= ids_v);
                r
            },
        }
    }

    /// The records that export writes, sorted by export key (records of
    /// equal key keep the order of `ids`, or of the store), each stripped of
    /// user name, password, time of last connection and icon path, with the
    /// icon path it had beside it.
    pub fn export(&self, ids: Option<Vec<String>>) -> (r: Vec<ExportedRecord>)
        ensures
            exists|s: Seq<EntryView>|
                {
                    &&& #[trigger] sorted_export(s, selection(self@, id_list(ids)))
                    &&& r@.len() == s.len()
                    &&& forall|i: int|
                        0 <= i < r@.len() ==> #[trigger] r@[i].entry@ == stripped(s[i]) && r@[i].icon@
                            == s[i].icon
                },
            forall|i: int|
                0 <= i < r@.len() ==> {
                    &&& (#[trigger] r@[i]).entry.username is None
                    &&& r@[i].entry.password is None
                    &&& r@[i].entry.last_connected is None
                    &&& r@[i].entry.icon@.len() == 0
                },
    {
        let chosen = self.export_selection(&ids);
        let ghost chosen_view = chosen;
        let sorted = sort_for_export(chosen);
        let ghost s = entry_views(sorted@);
        let n = sorted.len();
        let mut r: Vec<ExportedRecord> = Vec::new();
        let mut i: usize = 0;
        while i < n
            invariant
                n == sorted@.len(),
                s == entry_views(sorted@),
                i <= n,
                r@.len() == i,
                forall|k: int|
                    0 <= k < i ==> #[trigger] r@[k].entry@ == stripped(s[k]) && r@[k].icon@ == s[k].icon,
            decreases n - i,
        {
            let e = &sorted[i];
            assert(s[i as int] == e@);
            r.push(ExportedRecord { entry: exportable_entry(e), icon: e.icon.clone() });
            i = i + 1;
        }
        assert(sorted_export(s, entry_views(chosen_view@)));
        assert forall|i: int|
            0 <= i < r@.len() implies {
                &&& (#[trigger] r@[i]).entry.username is None
                &&& r@[i].entry.password is None
                &&& r@[i].entry.last_connected is None
                &&& r@[i].entry.icon@.len() == 0
            } by {
            assert(r@[i].entry@ == stripped(s[i]));
        }
        r
    }
}

/// A record as export writes it, and the icon path whose file export
/// sends along as a data URL.
pub struct ExportedRecord {
    pub entry: ConnectionEntry,
    pub icon: String,
}

} // verus!
