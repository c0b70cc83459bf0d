//! How a saved record is filed: a record saved without a position takes the
//! group order of its group, the environment order of its environment, and
//! the place after the last record of its environment.

use std::sync::Arc;
use vstd::prelude::*;
use crate::entry::{opt_chars, ConnectionEntry, EntryView};
use crate::store::{has_id, upsert, values, views, ConnectionStore, Keyed};
use crate::text::{blank, chars_equal, trim, trimmed};
use crate::wrappers::{is_generated_id, new_connection_id};

verus! {

/// One of the three positions of a record.
#[derive(Clone, Copy)]
pub enum OrderField {
    Group,
    Environment,
    Sort,
}

/// The position `f` of record `e`.
pub open spec fn order_of(f: OrderField, e: EntryView) -> i64 {
    match f {
        OrderField::Group => e.group_order,
        OrderField::Environment => e.environment_order,
        OrderField::Sort => e.sort_order,
    }
}

/// Whether `e` lies in group `g` and environment `env` (after trimming
/// both); `None` matches every group or environment.
pub open spec fn in_place(e: EntryView, g: Option<Seq<char>>, env: Option<Seq<char>>) -> bool {
    &&& match g {
        Some(g) => trim(e.group) == g,
        None => true,
    }
    &&& match env {
        Some(x) => trim(e.environment) == x,
        None => true,
    }
}

/// Position `f` of the first record of `s` in the given place.
pub open spec fn first_order(
    s: Seq<EntryView>,
    f: OrderField,
    g: Option<Seq<char>>,
    env: Option<Seq<char>>,
) -> Option<i64>
    decreases s.len(),
{
    if s.len() == 0 {
        None
    } else {
        match first_order(s.drop_last(), f, g, env) {
            Some(o) => Some(o),
            None => if in_place(s.last(), g, env) {
                Some(order_of(f, s.last()))
            } else {
                None
            },
        }
    }
}

/// The largest position `f` among the records of `s` in the given place.
pub open spec fn max_order(
    s: Seq<EntryView>,
    f: OrderField,
    g: Option<Seq<char>>,
    env: Option<Seq<char>>,
) -> Option<i64>
    decreases s.len(),
{
    if s.len() == 0 {
        None
    } else {
        let m = max_order(s.drop_last(), f, g, env);
        if in_place(s.last(), g, env) {
            match m {
                Some(x) => if order_of(f, s.last()) > x {
                    Some(order_of(f, s.last()))
                } else {
                    Some(x)
                },
                None => Some(order_of(f, s.last())),
            }
        } else {
            m
        }
    }
}

/// One past the largest position, or 0 where there is none.
pub open spec fn next_order(m: Option<i64>) -> int {
    match m {
        Some(x) => x + 1,
        None => 0,
    }
}

/// Whether a record saved as `e` is filed anew: it is new, or no stored
/// record has its id.
pub open spec fn is_fresh(s: Seq<Keyed>, e: EntryView, is_new: bool) -> bool {
    !has_id(s, e.id) || is_new
}

/// The group order that saving `e` into `s` gives it.
pub open spec fn filed_group_order(s: Seq<Keyed>, e: EntryView, is_new: bool) -> int {
    if is_fresh(s, e, is_new) && e.group_order == 0 {
        match first_order(values(s), OrderField::Group, Some(trim(e.group)), None) {
            Some(o) => o as int,
            None => next_order(max_order(values(s), OrderField::Group, None, None)),
        }
    } else {
        e.group_order as int
    }
}

/// The environment order that saving `e` into `s` gives it.
pub open spec fn filed_environment_order(s: Seq<Keyed>, e: EntryView, is_new: bool) -> int {
    if is_fresh(s, e, is_new) && e.environment_order == 0 {
        match first_order(
            values(s),
            OrderField::Environment,
            Some(trim(e.group)),
            Some(trim(e.environment)),
        ) {
            Some(o) => o as int,
            None => next_order(max_order(values(s), OrderField::Environment, Some(trim(e.group)), None)),
        }
    } else {
        e.environment_order as int
    }
}

/// The sort order that saving `e` into `s` gives it.
pub open spec fn filed_sort_order(s: Seq<Keyed>, e: EntryView, is_new: bool) -> int {
    if is_fresh(s, e, is_new) && e.sort_order == 0 {
        next_order(
            max_order(values(s), OrderField::Sort, Some(trim(e.group)), Some(trim(e.environment))),
        )
    } else {
        e.sort_order as int
    }
}

/// Whether the positions that saving `e` into `s` gives it fit in an `i64`.
pub open spec fn filing_fits(s: Seq<Keyed>, e: EntryView, is_new: bool) -> bool {
    &&& filed_group_order(s, e, is_new) <= i64::MAX
    &&& filed_environment_order(s, e, is_new) <= i64::MAX
    &&& filed_sort_order(s, e, is_new) <= i64::MAX
}

/// The record that saving `e` into `s` stores.
pub open spec fn filed_entry(s: Seq<Keyed>, e: EntryView, is_new: bool) -> EntryView {
    EntryView {
        group_order: filed_group_order(s, e, is_new) as i64,
        environment_order: filed_environment_order(s, e, is_new) as i64,
        sort_order: filed_sort_order(s, e, is_new) as i64,
        ..e
    }
}

/// The largest position bounds the positions of every record in the place,
/// and is the position of one of them.
pub proof fn lemma_max_order(s: Seq<EntryView>, f: OrderField, g: Option<Seq<char>>, env: Option<Seq<char>>)
    ensures
        (exists|i: int| 0 <= i < s.len() && in_place(#[trigger] s[i], g, env)) <==> max_order(s, f, g, env) is Some,
        max_order(s, f, g, env) matches Some(m) ==> (exists|i: int|
            0 <= i < s.len() && in_place(#[trigger] s[i], g, env) && order_of(f, s[i]) == m),
        forall|i: int|
            0 <= i < s.len() && in_place(#[trigger] s[i], g, env) ==> (max_order(s, f, g, env) matches Some(m)
                && order_of(f, s[i]) <= m),
    decreases s.len(),
{
    if s.len() > 0 {
        let t = s.drop_last();
        lemma_max_order(t, f, g, env);
        assert forall|i: int| 0 <= i < t.len() implies #[trigger] t[i] == s[i] by {}
        if max_order(s, f, g, env) is Some {
            let m = max_order(s, f, g, env)->0;
            if in_place(s.last(), g, env) && order_of(f, s.last()) == m {
                assert(in_place(s[s.len() - 1], g, env));
            } else {
                let j = choose|i: int| 0 <= i < t.len() && in_place(#[trigger] t[i], g, env) && order_of(f, t[i]) == m;
                assert(s[j] == t[j]);
            }
        }
        if exists|i: int| 0 <= i < s.len() && in_place(#[trigger] s[i], g, env) {
            let i = choose|i: int| 0 <= i < s.len() && in_place(#[trigger] s[i], g, env);
            if i < s.len() - 1 {
                assert(t[i] == s[i]);
            }
        }
        assert forall|i: int|
            0 <= i < s.len() && in_place(#[trigger] s[i], g, env) implies (max_order(s, f, g, env) matches Some(m)
                && order_of(f, s[i]) <= m) by {
            if i < s.len() - 1 {
                assert(t[i] == s[i]);
                assert(in_place(t[i], g, env));
            }
        }
    }
}

/// The first position in a place is the position of a record in the place,
/// and there is one exactly when some record lies in the place.
pub proof fn lemma_first_order(s: Seq<EntryView>, f: OrderField, g: Option<Seq<char>>, env: Option<Seq<char>>)
    ensures
        (exists|i: int| 0 <= i < s.len() && in_place(#[trigger] s[i], g, env)) <==> first_order(s, f, g, env) is Some,
        first_order(s, f, g, env) matches Some(o) ==> (exists|i: int|
            0 <= i < s.len() && in_place(#[trigger] s[i], g, env) && order_of(f, s[i]) == o),
    decreases s.len(),
{
    if s.len() > 0 {
        let t = s.drop_last();
        lemma_first_order(t, f, g, env);
        assert forall|i: int| 0 <= i < t.len() implies #[trigger] t[i] == s[i] by {}
        if first_order(t, f, g, env) is Some {
            let o = first_order(t, f, g, env)->0;
            let j = choose|i: int| 0 <= i < t.len() && in_place(#[trigger] t[i], g, env) && order_of(f, t[i]) == o;
            assert(s[j] == t[j]);
        } else if in_place(s.last(), g, env) {
            assert(in_place(s[s.len() - 1], g, env));
        }
        if exists|i: int| 0 <= i < s.len() && in_place(#[trigger] s[i], g, env) {
            let i = choose|i: int| 0 <= i < s.len() && in_place(#[trigger] s[i], g, env);
            if i < s.len() - 1 {
                assert(t[i] == s[i]);
            }
        }
    }
}

/// Saving a stored record again (not as a new record) keeps its positions.
pub proof fn lemma_resave_keeps_positions(s: Seq<Keyed>, e: EntryView)
    requires
        has_id(s, e.id),
    ensures
        filed_entry(s, e, false) == e,
{
}

/// A record filed anew without a group order joins its group: it takes the
/// group order of a record of its group, or, when its group has no records,
/// a group order above every stored one.
pub proof fn lemma_filed_group_order(s: Seq<Keyed>, e: EntryView, is_new: bool)
    requires
        is_fresh(s, e, is_new),
        e.group_order == 0,
    ensures
        (exists|i: int|
            0 <= i < s.len() && trim(#[trigger] s[i].1.group) == trim(e.group) && s[i].1.group_order
                == filed_group_order(s, e, is_new)) || (forall|i: int|
            0 <= i < s.len() ==> trim(#[trigger] s[i].1.group) != trim(e.group) && s[i].1.group_order
                < filed_group_order(s, e, is_new)),
{
    let vs = values(s);
    let g = Some(trim(e.group));
    lemma_first_order(vs, OrderField::Group, g, None);
    lemma_max_order(vs, OrderField::Group, None, None);
    if first_order(vs, OrderField::Group, g, None) is Some {
        let o = first_order(vs, OrderField::Group, g, None)->0;
        let i = choose|i: int| 0 <= i < vs.len() && in_place(#[trigger] vs[i], g, None) && order_of(OrderField::Group, vs[i]) == o;
        assert(vs[i] == s[i].1);
        assert(trim(s[i].1.group) == trim(e.group));
    } else {
        assert forall|i: int| 0 <= i < s.len() implies trim(#[trigger] s[i].1.group) != trim(e.group)
            && s[i].1.group_order < filed_group_order(s, e, is_new) by {
            assert(vs[i] == s[i].1);
            assert(!in_place(vs[i], g, None));
            assert(in_place(vs[i], None, None));
        }
    }
}

/// A record filed anew without an environment order joins its environment
/// within its group: it takes the environment order of a record of that
/// group and environment, or, when there is none, an environment order
/// above every one stored in its group.
pub proof fn lemma_filed_environment_order(s: Seq<Keyed>, e: EntryView, is_new: bool)
    requires
        is_fresh(s, e, is_new),
        e.environment_order == 0,
    ensures
        (exists|i: int|
            0 <= i < s.len() && trim(#[trigger] s[i].1.group) == trim(e.group) && trim(
                s[i].1.environment,
            ) == trim(e.environment) && s[i].1.environment_order == filed_environment_order(
                s,
                e,
                is_new,
            )) || (forall|i: int|
            0 <= i < s.len() && trim(#[trigger] s[i].1.group) == trim(e.group) ==> trim(
                s[i].1.environment,
            ) != trim(e.environment) && s[i].1.environment_order < filed_environment_order(
                s,
                e,
                is_new,
            )),
{
    let vs = values(s);
    let g = Some(trim(e.group));
    let env = Some(trim(e.environment));
    lemma_first_order(vs, OrderField::Environment, g, env);
    lemma_max_order(vs, OrderField::Environment, g, None);
    if first_order(vs, OrderField::Environment, g, env) is Some {
        let o = first_order(vs, OrderField::Environment, g, env)->0;
        let i = choose|i: int|
            0 <= i < vs.len() && in_place(#[trigger] vs[i], g, env) && order_of(
                OrderField::Environment,
                vs[i],
            ) == o;
        assert(vs[i] == s[i].1);
        assert(trim(s[i].1.group) == trim(e.group));
    } else {
        assert forall|i: int| 0 <= i < s.len() && trim(#[trigger] s[i].1.group) == trim(e.group) implies trim(
            s[i].1.environment,
        ) != trim(e.environment) && s[i].1.environment_order < filed_environment_order(s, e, is_new) by {
            assert(vs[i] == s[i].1);
            assert(!in_place(vs[i], g, env));
            assert(in_place(vs[i], g, None));
        }
    }
}

/// Filing changes only the three positions of a record: a position it
/// already has (not 0) is kept, as is every position of a record saved
/// again; every other field is the record's own.
pub proof fn lemma_filing_keeps_the_record(s: Seq<Keyed>, e: EntryView, is_new: bool)
    requires
        filing_fits(s, e, is_new),
    ensures
        ({
            let r = filed_entry(s, e, is_new);
            &&& e.group_order != 0 ==> r.group_order == e.group_order
            &&& e.environment_order != 0 ==> r.environment_order == e.environment_order
            &&& e.sort_order != 0 ==> r.sort_order == e.sort_order
            &&& r.group_order == filed_group_order(s, e, is_new)
            &&& r.environment_order == filed_environment_order(s, e, is_new)
            &&& r.sort_order == filed_sort_order(s, e, is_new)
            &&& r.address == e.address
            &&& r.heap_size == e.heap_size
            &&& r.icon == e.icon
            &&& r.id == e.id
            &&& r.java_home == e.java_home
            &&& r.java_args == e.java_args
            &&& r.name == e.name
            &&& r.username == e.username
            &&& r.password == e.password
            &&& r.verify == e.verify
            &&& r.group == e.group
            &&& r.environment == e.environment
            &&& r.notes == e.notes
            &&& r.donotcache == e.donotcache
            &&& r.last_connected == e.last_connected
            &&& r.show_console == e.show_console
        }),
{
    let vs = values(s);
    lemma_first_order(vs, OrderField::Group, Some(trim(e.group)), None);
    lemma_first_order(vs, OrderField::Environment, Some(trim(e.group)), Some(trim(e.environment)));
    lemma_max_order(vs, OrderField::Group, None, None);
    lemma_max_order(vs, OrderField::Environment, Some(trim(e.group)), None);
    lemma_max_order(vs, OrderField::Sort, Some(trim(e.group)), Some(trim(e.environment)));
}

/// A record filed anew without a sort order goes after every record of its
/// group and environment.
pub proof fn lemma_filed_sorts_last(s: Seq<Keyed>, e: EntryView, is_new: bool)
    requires
        is_fresh(s, e, is_new),
        e.sort_order == 0,
    ensures
        forall|i: int|
            0 <= i < s.len() && trim(#[trigger] s[i].1.group) == trim(e.group) && trim(s[i].1.environment)
                == trim(e.environment) ==> s[i].1.sort_order < filed_sort_order(s, e, is_new),
{
    let vs = values(s);
    let g = Some(trim(e.group));
    let env = Some(trim(e.environment));
    lemma_max_order(vs, OrderField::Sort, g, env);
    assert forall|i: int|
        0 <= i < s.len() && trim(#[trigger] s[i].1.group) == trim(e.group) && trim(s[i].1.environment)
            == trim(e.environment) implies s[i].1.sort_order < filed_sort_order(s, e, is_new) by {
        assert(vs[i] == s[i].1);
        assert(in_place(vs[i], g, env));
    }
}

/// The characters of an optional string slice.
pub open spec fn opt_str(o: Option<&str>) -> Option<Seq<char>> {
    match o {
        Some(s) => Some(s@),
        None => None,
    }
}

/// Whether `e` lies in the given place.
fn entry_in_place(e: &ConnectionEntry, g: Option<&str>, env: Option<&str>) -> (r: bool)
    ensures
        r == in_place(e@, opt_str(g), opt_str(env)),
{
    let group_ok = match g {
        Some(g) => {
            let t = trimmed(e.group.as_str());
            chars_equal(t.as_str(), g)
        },
        None => true,
    };
    if !group_ok {
        return false;
    }
    match env {
        Some(x) => {
            let t = trimmed(e.environment.as_str());
            chars_equal(t.as_str(), x)
        },
        None => true,
    }
}

/// Position `f` of `e`.
fn order_value(e: &ConnectionEntry, f: OrderField) -> (r: i64)
    ensures
        r == order_of(f, e@),
{
    match f {
        OrderField::Group => e.group_order,
        OrderField::Environment => e.environment_order,
        OrderField::Sort => e.sort_order,
    }
}

/// Position `f` of the first record of `entries` in the given place.
fn scan_first(
    entries: &Vec<(String, Arc<ConnectionEntry>)>,
    f: OrderField,
    g: Option<&str>,
    env: Option<&str>,
) -> (r: Option<i64>)
    ensures
        r == first_order(values(views(entries@)), f, opt_str(g), opt_str(env)),
{
    let ghost s = values(views(entries@));
    let n = entries.len();
    let mut r: Option<i64> = None;
    let mut i: usize = 0;
    while i < n
        invariant
            n == entries@.len(),
            s == values(views(entries@)),
            i <= n,
            r == first_order(s.take(i as int), f, opt_str(g), opt_str(env)),
        decreases n - i,
    {
        assert(s.take(i + 1).drop_last() =~= s.take(i as int));
        assert(s.take(i + 1).last() == entries@[i as int].1@);
        if r.is_none() && entry_in_place(&entries[i].1, g, env) {
            r = Some(order_value(&entries[i].1, f));
        }
        i = i + 1;
    }
    assert(s.take(n as int) =~= s);
    r
}

/// The largest position `f` among the records of `entries` in the given
/// place.
fn scan_max(
    entries: &Vec<(String, Arc<ConnectionEntry>)>,
    f: OrderField,
    g: Option<&str>,
    env: Option<&str>,
) -> (r: Option<i64>)
    ensures
        r == max_order(values(views(entries@)), f, opt_str(g), opt_str(env)),
{
    let ghost s = values(views(entries@));
    let n = entries.len();
    let mut r: Option<i64> = None;
    let mut i: usize = 0;
    while i < n
        invariant
            n == entries@.len(),
            s == values(views(entries@)),
            i <= n,
            r == max_order(s.take(i as int), f, opt_str(g), opt_str(env)),
        decreases n - i,
    {
        assert(s.take(i + 1).drop_last() =~= s.take(i as int));
        assert(s.take(i + 1).last() == entries@[i as int].1@);
        if entry_in_place(&entries[i].1, g, env) {
            let v = order_value(&entries[i].1, f);
            r = match r {
                Some(x) => if v > x {
                    Some(v)
                } else {
                    Some(x)
                },
                None => Some(v),
            };
        }
        i = i + 1;
    }
    assert(s.take(n as int) =~= s);
    r
}

/// A record ready to be filed: normalised, with its id, and whether the id
/// was given to it just now.
pub struct SaveDraft {
    pub entry: ConnectionEntry,
    pub is_new: bool,
}

/// An optional string that is `None` in place of a blank one.
pub open spec fn blank_to_none(o: Option<Seq<char>>) -> Option<Seq<char>> {
    match o {
        Some(u) => if trim(u).len() == 0 {
            None
        } else {
            Some(u)
        },
        None => None,
    }
}

/// `e` as `prepare_save` leaves it, with id `id`.
pub open spec fn prepared_for_save(e: EntryView, fallback: Seq<char>, id: Seq<char>) -> EntryView {
    EntryView {
        id: id,
        java_home: if trim(e.java_home).len() == 0 {
            fallback
        } else {
            trim(e.java_home)
        },
        username: blank_to_none(e.username),
        password: blank_to_none(e.password),
        ..e
    }
}

/// A record readied for saving has no blank user name or password, and a
/// Java home that is the trimmed one it had, or the fallback.
pub proof fn lemma_prepared_credentials(e: EntryView, fallback: Seq<char>, id: Seq<char>)
    ensures
        prepared_for_save(e, fallback, id).username matches Some(u) ==> trim(u).len() > 0,
        prepared_for_save(e, fallback, id).password matches Some(p) ==> trim(p).len() > 0,
        trim(e.java_home).len() > 0 ==> prepared_for_save(e, fallback, id).java_home == trim(
            e.java_home,
        ),
{
}

/// Saving keeps a user name or password that is not blank exactly as it was,
/// drops a blank one, gives the record id `id` and a Java home that is its
/// own, trimmed, or `fallback` where its own is blank; every other field is
/// the record's own.
pub proof fn lemma_save_keeps_the_record(e: EntryView, fallback: Seq<char>, id: Seq<char>)
    ensures
        ({
            let r = prepared_for_save(e, fallback, id);
            &&& e.username is Some && trim(e.username->0).len() > 0 ==> r.username == e.username
            &&& e.password is Some && trim(e.password->0).len() > 0 ==> r.password == e.password
            &&& e.username is Some && trim(e.username->0).len() == 0 ==> r.username is None
            &&& e.password is Some && trim(e.password->0).len() == 0 ==> r.password is None
            &&& e.username is None ==> r.username is None
            &&& e.password is None ==> r.password is None
            &&& r.id == id
            &&& trim(e.java_home).len() == 0 ==> r.java_home == fallback
            &&& trim(e.java_home).len() > 0 ==> r.java_home == trim(e.java_home)
            &&& r.address == e.address
            &&& r.heap_size == e.heap_size
            &&& r.icon == e.icon
            &&& r.java_args == e.java_args
            &&& r.name == e.name
            &&& r.verify == e.verify
            &&& r.group == e.group
            &&& r.environment == e.environment
            &&& r.notes == e.notes
            &&& r.donotcache == e.donotcache
            &&& r.last_connected == e.last_connected
            &&& r.group_order == e.group_order
            &&& r.environment_order == e.environment_order
            &&& r.sort_order == e.sort_order
            &&& r.show_console == e.show_console
        }),
{
}

/// `o`, or `None` where `o` is blank.
fn drop_blank(o: Option<String>) -> (r: Option<String>)
    ensures
        opt_chars(r) == blank_to_none(opt_chars(o)),
{
    match o {
        Some(u) => if blank(u.as_str()) {
            None
        } else {
            Some(u)
        },
        None => None,
    }
}

/// Whether saving `ce` needs the default Java home: its own is blank.
pub fn needs_java_home(ce: &ConnectionEntry) -> (r: bool)
    ensures
        r == (trim(ce.java_home@).len() == 0),
{
    blank(ce.java_home.as_str())
}

/// Readies `ce` for saving: an empty id is replaced by a fresh one, the Java
/// home is trimmed (and replaced by `java_home_fallback` where nothing is
/// left), and a blank user name or password is dropped.
pub fn prepare_save(ce: ConnectionEntry, java_home_fallback: String) -> (d: SaveDraft)
    ensures
        d.is_new == (ce.id@.len() == 0),
        d.is_new ==> is_generated_id(d.entry.id@),
        !d.is_new ==> d.entry.id@ == ce.id@,
        d.entry@ == prepared_for_save(ce@, java_home_fallback@, d.entry.id@),
{
    let mut ce = ce;
    let is_new = ce.id.as_str().is_empty();
    if is_new {
        ce.id = new_connection_id();
    }
    let jh = trimmed(ce.java_home.as_str());
    if jh.as_str().is_empty() {
        ce.java_home = java_home_fallback;
    } else {
        ce.java_home = jh;
    }
    ce.username = drop_blank(ce.username);
    ce.password = drop_blank(ce.password);
    SaveDraft { entry: ce, is_new }
}

impl ConnectionStore {
    /// Whether some stored record has id `id`.
    pub fn contains_id(&self, id: &str) -> (r: bool)
        ensures
            r == has_id(self@, id@),
    {
        self.get(id).is_some()
    }

    /// The three positions that saving `e` gives it, as integers.
    fn filed_orders(&self, e: &ConnectionEntry, is_new: bool) -> (r: (Option<i64>, Option<i64>, Option<i64>))
        ensures
            filed_group_order(self@, e@, is_new) == match r.0 { Some(x) => x as int, None => i64::MAX + 1 },
            filed_environment_order(self@, e@, is_new) == match r.1 { Some(x) => x as int, None => i64::MAX + 1 },
            filed_sort_order(self@, e@, is_new) == match r.2 { Some(x) => x as int, None => i64::MAX + 1 },
    {
        let entries = self.entries();
        let fresh = !self.contains_id(e.id.as_str()) || is_new;
        let g = trimmed(e.group.as_str());
        let env = trimmed(e.environment.as_str());
        let go = if fresh && e.group_order == 0 {
            match scan_first(entries, OrderField::Group, Some(g.as_str()), None) {
                Some(o) => Some(o),
                None => match scan_max(entries, OrderField::Group, None, None) {
                    Some(m) => m.checked_add(1),
                    None => Some(0),
                },
            }
        } else {
            Some(e.group_order)
        };
        let eo = if fresh && e.environment_order == 0 {
            match scan_first(entries, OrderField::Environment, Some(g.as_str()), Some(env.as_str())) {
                Some(o) => Some(o),
                None => match scan_max(entries, OrderField::Environment, Some(g.as_str()), None) {
                    Some(m) => m.checked_add(1),
                    None => Some(0),
                },
            }
        } else {
            Some(e.environment_order)
        };
        let so = if fresh && e.sort_order == 0 {
            match scan_max(entries, OrderField::Sort, Some(g.as_str()), Some(env.as_str())) {
                Some(m) => m.checked_add(1),
                None => Some(0),
            }
        } else {
            Some(e.sort_order)
        };
        (go, eo, so)
    }

    /// Whether saving `draft` files it at positions that fit in an `i64`.
    pub fn can_file(&self, draft: &SaveDraft) -> (r: bool)
        ensures
            r == filing_fits(self@, draft.entry@, draft.is_new),
    {
        let (go, eo, so) = self.filed_orders(&draft.entry, draft.is_new);
        go.is_some() && eo.is_some() && so.is_some()
    }

    /// Files `draft` into the store and returns the stored record. A record
    /// that is new, or whose id is not stored, and whose group order is 0
    /// takes the group order of the first record of its group, or one past
    /// the largest group order; its environment order is found the same way
    /// within its group, and its sort order is one past the largest sort
    /// order of its environment. The record then replaces the stored record
    /// with its id, or is added.
    pub fn save(&mut self, draft: SaveDraft) -> (saved: ConnectionEntry)
        requires
            filing_fits(old(self)@, draft.entry@, draft.is_new),
        ensures
            saved@ == filed_entry(old(self)@, draft.entry@, draft.is_new),
            final(self)@ == upsert(old(self)@, saved.id@, saved@),
    {
        let SaveDraft { entry, is_new } = draft;
        let mut ce = entry;
        let (go, eo, so) = self.filed_orders(&ce, is_new);
        ce.group_order = go.unwrap();
        ce.environment_order = eo.unwrap();
        ce.sort_order = so.unwrap();
        let saved = ce.clone();
        self.insert(ce);
        saved
    }
}

} // verus!
