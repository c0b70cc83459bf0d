//! Import: records read from an export file, given ids where they have
//! none, checked against the stored ids, and normalised before they are
//! stored.

use vstd::prelude::*;
use crate::entry::{opt_chars, ConnectionEntry, EntryView};
use crate::store::{entry_views, has_id, upsert_all, ConnectionStore, Keyed};
use crate::text::{blank, trim, trimmed};
use crate::wrappers::{is_generated_id, new_connection_id};

verus! {

/// A record as an export file holds it: the record and, where export found
/// its icon, the icon as a data URL.
#[derive(Debug)]
pub struct ImportedConnectionEntry {
    pub connection: ConnectionEntry,
    pub icon_data_url: Option<String>,
}

/// The mathematical value of an `ImportedConnectionEntry`.
pub struct ImportedView {
    pub connection: EntryView,
    pub icon_data_url: Option<Seq<char>>,
}

impl View for ImportedConnectionEntry {
    type V = ImportedView;

    open spec fn view(&self) -> ImportedView {
        ImportedView { connection: self.connection@, icon_data_url: opt_chars(self.icon_data_url) }
    }
}

/// The views of a sequence of imported records.
pub open spec fn imported_views(s: Seq<ImportedConnectionEntry>) -> Seq<ImportedView> {
    s.map_values(|e: ImportedConnectionEntry| e@)
}

/// `out` is `data` with a fresh id given to every record whose id is blank.
pub open spec fn ids_assigned(data: Seq<ImportedView>, out: Seq<ImportedView>) -> bool {
    &&& out.len() == data.len()
    &&& forall|k: int|
        0 <= k < data.len() ==> if trim(data[k].connection.id).len() == 0 {
            &&& is_generated_id(#[trigger] out[k].connection.id)
            &&& out[k] == ImportedView {
                connection: EntryView { id: out[k].connection.id, ..data[k].connection },
                ..data[k]
            }
        } else {
            out[k] == data[k]
        }
}

/// The names of the records of `data` whose ids are stored in `s`, in order.
pub open spec fn duplicate_names(s: Seq<Keyed>, data: Seq<ImportedView>) -> Seq<Seq<char>> {
    data.filter_map(name_if_stored(s))
}

/// The name of an imported record whose id is stored in `s`.
pub open spec fn name_if_stored(s: Seq<Keyed>) -> spec_fn(ImportedView) -> Option<Seq<char>> {
    |e: ImportedView|
        if has_id(s, e.connection.id) {
            Some(e.connection.name)
        } else {
            None
        }
}

/// What the check before an import found.
pub enum ImportCheck {
    /// Records with these names are already stored and overwriting was not
    /// asked for; `total` records were offered.
    Duplicates { names: Vec<String>, total: usize },
    /// The records to import, each with an id.
    Proceed(Vec<ImportedConnectionEntry>),
}

/// An optional string trimmed, and `None` where nothing is left.
pub open spec fn trim_to_none(o: Option<Seq<char>>) -> Option<Seq<char>> {
    match o {
        Some(u) => if trim(u).len() == 0 {
            None
        } else {
            Some(trim(u))
        },
        None => None,
    }
}

/// `e` as import stores it: with Java home `java_home`, and its user name
/// and password trimmed (dropped where blank).
pub open spec fn normalized_import(e: EntryView, java_home: Seq<char>) -> EntryView {
    EntryView {
        java_home: java_home,
        username: trim_to_none(e.username),
        password: trim_to_none(e.password),
        ..e
    }
}

/// Import gives a record Java home `java_home`, trims a user name or
/// password that is not blank and drops a blank one, and keeps every other
/// field of the record as the file gave it.
pub proof fn lemma_import_keeps_the_record(e: EntryView, java_home: Seq<char>)
    ensures
        ({
            let r = normalized_import(e, java_home);
            &&& r.java_home == java_home
            &&& e.username is Some && trim(e.username->0).len() > 0 ==> r.username == Some(trim(e.username->0))
            &&& e.password is Some && trim(e.password->0).len() > 0 ==> r.password == Some(trim(e.password->0))
            &&& e.username is Some && trim(e.username->0).len() == 0 ==> r.username is None
            &&& e.password is Some && trim(e.password->0).len() == 0 ==> r.password is None
            &&& e.username is None ==> r.username is None
            &&& e.password is None ==> r.password is None
            &&& r.address == e.address
            &&& r.heap_size == e.heap_size
            &&& r.icon == e.icon
            &&& r.id == e.id
            &&& r.java_args == e.java_args
            &&& r.name == e.name
            &&& r.verify == e.verify
            &&& r.group == e.group
            &&& r.environment == e.environment
            &&& r.notes == e.notes
            &&& r.donotcache == e.donotcache
            &&& r.last_connected == e.last_connected
            &&& r.group_order == e.group_order
            &&& r.environment_order == e.environment_order
            &&& r.sort_order == e.sort_order
            &&& r.show_console == e.show_console
        }),
{
}

/// The records `es` as import stores them, each under its id.
pub open spec fn stored_imports(es: Seq<EntryView>, java_home: Seq<char>) -> Seq<Keyed> {
    es.map_values(|e: EntryView| (e.id, normalized_import(e, java_home)))
}

/// `o` trimmed, or `None` where nothing is left.
fn trim_or_drop(o: Option<String>) -> (r: Option<String>)
    ensures
        opt_chars(r) == trim_to_none(opt_chars(o)),
{
    match o {
        Some(u) => {
            let t = trimmed(u.as_str());
            if t.as_str().is_empty() {
                None
            } else {
                Some(t)
            }
        },
        None => None,
    }
}

/// `ce` as import stores it.
pub fn normalize_imported(ce: ConnectionEntry, java_home: &String) -> (r: ConnectionEntry)
    ensures
        r@ == normalized_import(ce@, java_home@),
{
    let mut ce = ce;
    ce.java_home = java_home.clone();
    ce.username = trim_or_drop(ce.username);
    ce.password = trim_or_drop(ce.password);
    ce
}

/// `e` as the import preview shows it: no user name, password or time of
/// last connection, and the id `id`.
pub open spec fn previewed(e: EntryView, id: Seq<char>) -> EntryView {
    EntryView { id: id, username: None, password: None, last_connected: None, ..e }
}

/// The preview of a record shows it with id `id` and without user name,
/// password or time of last connection; every other field, its name and
/// address among them, is the record's own.
pub proof fn lemma_preview_keeps_the_record(e: EntryView, id: Seq<char>)
    ensures
        ({
            let r = previewed(e, id);
            &&& r.id == id
            &&& r.username is None
            &&& r.password is None
            &&& r.last_connected is None
            &&& r.address == e.address
            &&& r.heap_size == e.heap_size
            &&& r.icon == e.icon
            &&& r.java_home == e.java_home
            &&& r.java_args == e.java_args
            &&& r.name == e.name
            &&& r.verify == e.verify
            &&& r.group == e.group
            &&& r.environment == e.environment
            &&& r.notes == e.notes
            &&& r.donotcache == e.donotcache
            &&& r.group_order == e.group_order
            &&& r.environment_order == e.environment_order
            &&& r.sort_order == e.sort_order
            &&& r.show_console == e.show_console
        }),
{
}

/// The record that the import preview shows for `entry`: stripped of
/// credentials, with a fresh id where its id is blank.
pub fn preview_entry(entry: &ImportedConnectionEntry) -> (r: ConnectionEntry)
    ensures
        r@ == previewed(entry.connection@, r.id@),
        trim(entry.connection.id@).len() == 0 ==> is_generated_id(r.id@),
        trim(entry.connection.id@).len() != 0 ==> r.id@ == entry.connection.id@,
{
    let mut preview = entry.connection.clone();
    preview.username = None;
    preview.password = None;
    preview.last_connected = None;
    if blank(preview.id.as_str()) {
        preview.id = new_connection_id();
    }
    preview
}

impl ConnectionStore {
    /// The check before an import: every record of `data` with a blank id
    /// gets a fresh one; then, unless `overwrite` is set, records whose ids
    /// are stored stop the import.
    pub fn import_entries(&self, data: Vec<ImportedConnectionEntry>, overwrite: bool) -> (r:
        ImportCheck)
        ensures
            match r {
                ImportCheck::Duplicates { names, total } => {
                    &&& !overwrite
                    &&& total == data@.len()
                    &&& names@.len() > 0
                    &&& exists|out: Seq<ImportedView>|
                        ids_assigned(imported_views(data@), out) && crate::text::strs(names@)
                            == duplicate_names(self@, out)
                },
                ImportCheck::Proceed(out) => {
                    &&& ids_assigned(imported_views(data@), imported_views(out@))
                    &&& (overwrite || duplicate_names(self@, imported_views(out@)).len() == 0)
                },
            },
    {
        let ghost d = imported_views(data@);
        let n = data.len();
        let mut rest = data;
        let mut out: Vec<ImportedConnectionEntry> = Vec::new();
        let mut names: Vec<String> = Vec::new();
        let mut i: usize = 0;
        let ghost f = name_if_stored(self@);
        while i < n
            invariant
                n == d.len(),
                i <= n,
                imported_views(rest@) =~= d.subrange(i as int, n as int),
                imported_views(out@).len() == i,
                ids_assigned(d.take(i as int), imported_views(out@)),
                f == name_if_stored(self@),
                crate::text::strs(names@) =~= imported_views(out@).filter_map(f),
            decreases n - i,
        {
            let ghost before = imported_views(rest@);
            assert(rest@.len() == before.len());
            assert(before[0] == d[i as int]);
            let mut entry = rest.remove(0);
            assert(entry@ == d[i as int]);
            assert(imported_views(rest@) =~= d.subrange(i + 1, n as int)) by {
                assert(imported_views(rest@) =~= before.drop_first());
            }
            if blank(entry.connection.id.as_str()) {
                entry.connection.id = new_connection_id();
            }
            let ghost old_out = imported_views(out@);
            if self.contains_id(entry.connection.id.as_str()) {
                names.push(entry.connection.name.clone());
            }
            out.push(entry);
            proof {
                let o = imported_views(out@);
                assert(o =~= old_out.push(o[i as int]));
                assert(o.drop_last() =~= old_out);
                assert(d.take(i + 1).drop_last() =~= d.take(i as int));
                assert forall|k: int| 0 <= k < i + 1 implies (if trim(
                    d.take(i + 1)[k].connection.id,
                ).len() == 0 {
                    &&& is_generated_id(#[trigger] o[k].connection.id)
                    &&& o[k] == ImportedView {
                        connection: EntryView {
                            id: o[k].connection.id,
                            ..d.take(i + 1)[k].connection
                        },
                        ..d.take(i + 1)[k]
                    }
                } else {
                    o[k] == d.take(i + 1)[k]
                }) by {
                    if k < i {
                        assert(o[k] == old_out[k]);
                        assert(d.take(i + 1)[k] == d.take(i as int)[k]);
                    }
                }
            }
            i = i + 1;
        }
        assert(d.take(n as int) =~= d);
        assert(crate::text::strs(names@) =~= duplicate_names(self@, imported_views(out@)));
        if names.len() > 0 && !overwrite {
            ImportCheck::Duplicates { names, total: n }
        } else {
            ImportCheck::Proceed(out)
        }
    }

    /// Stores the records of an import, in order, each normalised with Java
    /// home `java_home` and kept under its id (a later record in place of an
    /// earlier one with the same id); returns how many were stored.
    pub fn store_imported(&mut self, records: Vec<ConnectionEntry>, java_home: &String) -> (count: usize)
        ensures
            count == records@.len(),
            final(self)@ == upsert_all(old(self)@, stored_imports(entry_views(records@), java_home@)),
    {
        let ghost start = self@;
        let ghost es = stored_imports(entry_views(records@), java_home@);
        let n = records.len();
        let mut rest = records;
        let ghost all = rest@;
        let mut i: usize = 0;
        while i < n
            invariant
                n == all.len(),
                es == stored_imports(entry_views(all), java_home@),
                i <= n,
                rest@ =~= all.subrange(i as int, n as int),
                self@ == upsert_all(start, es.take(i as int)),
            decreases n - i,
        {
            let ghost before = rest@;
            let ce = rest.remove(0);
            assert(ce == all[i as int]);
            assert(rest@ =~= all.subrange(i + 1, n as int)) by {
                assert(rest@ =~= before.drop_first());
            }
            let normal = normalize_imported(ce, java_home);
            assert(es.take(i + 1).drop_last() =~= es.take(i as int));
            assert(es.take(i + 1).last() == (normal.id@, normal@));
            self.insert(normal);
            i = i + 1;
        }
        assert(es.take(n as int) =~= es);
        n
    }
}

} // verus!
