//! The connection record and the defaults that a stored record falls back on.

use vstd::prelude::*;
use crate::wrappers::{is_generated_id, new_connection_id};

verus! {

/// One saved connection: where the server is, how to start the client, and
/// where the record is filed (group, environment, position).
#[derive(Debug, PartialEq, Eq)]
pub struct ConnectionEntry {
    pub address: String,
    pub heap_size: String,
    pub icon: String,
    pub id: String,
    pub java_home: String,
    pub java_args: Option<String>,
    pub name: String,
    pub username: Option<String>,
    pub password: Option<String>,
    pub verify: bool,
    pub group: String,
    pub environment: String,
    pub notes: String,
    pub donotcache: bool,
    pub last_connected: Option<i64>,
    pub group_order: i64,
    pub environment_order: i64,
    pub sort_order: i64,
    pub show_console: bool,
}

/// The mathematical value of a `ConnectionEntry`: its strings as character
/// sequences.
pub struct EntryView {
    pub address: Seq<char>,
    pub heap_size: Seq<char>,
    pub icon: Seq<char>,
    pub id: Seq<char>,
    pub java_home: Seq<char>,
    pub java_args: Option<Seq<char>>,
    pub name: Seq<char>,
    pub username: Option<Seq<char>>,
    pub password: Option<Seq<char>>,
    pub verify: bool,
    pub group: Seq<char>,
    pub environment: Seq<char>,
    pub notes: Seq<char>,
    pub donotcache: bool,
    pub last_connected: Option<i64>,
    pub group_order: i64,
    pub environment_order: i64,
    pub sort_order: i64,
    pub show_console: bool,
}

/// The characters of an optional string.
pub open spec fn opt_chars(o: Option<String>) -> Option<Seq<char>> {
    match o {
        Some(s) => Some(s@),
        None => None,
    }
}

impl View for ConnectionEntry {
    type V = EntryView;

    open spec fn view(&self) -> EntryView {
        EntryView {
            address: self.address@,
            heap_size: self.heap_size@,
            icon: self.icon@,
            id: self.id@,
            java_home: self.java_home@,
            java_args: opt_chars(self.java_args),
            name: self.name@,
            username: opt_chars(self.username),
            password: opt_chars(self.password),
            verify: self.verify,
            group: self.group@,
            environment: self.environment@,
            notes: self.notes@,
            donotcache: self.donotcache,
            last_connected: self.last_connected,
            group_order: self.group_order,
            environment_order: self.environment_order,
            sort_order: self.sort_order,
            show_console: self.show_console,
        }
    }
}

/// A copy of an optional string.
pub fn copy_opt(o: &Option<String>) -> (r: Option<String>)
    ensures
        opt_chars(r) == opt_chars(*o),
{
    match o {
        Some(s) => Some(s.clone()),
        None => None,
    }
}

impl Clone for ConnectionEntry {
    fn clone(&self) -> (r: Self)
        ensures
            r@ == self@,
    {
        ConnectionEntry {
            address: self.address.clone(),
            heap_size: self.heap_size.clone(),
            icon: self.icon.clone(),
            id: self.id.clone(),
            java_home: self.java_home.clone(),
            java_args: copy_opt(&self.java_args),
            name: self.name.clone(),
            username: copy_opt(&self.username),
            password: copy_opt(&self.password),
            verify: self.verify,
            group: self.group.clone(),
            environment: self.environment.clone(),
            notes: self.notes.clone(),
            donotcache: self.donotcache,
            last_connected: self.last_connected,
            group_order: self.group_order,
            environment_order: self.environment_order,
            sort_order: self.sort_order,
            show_console: self.show_console,
        }
    }
}

/// A stored record without `verify` is verified.
pub fn get_verify() -> (r: bool)
    ensures
        r,
{
    true
}

/// A stored record without a group belongs to the group `Default`.
pub fn get_default_group() -> (r: String)
    ensures
        r@ == "Default"@,
{
    "Default".to_owned()
}

/// A stored record without notes has empty notes.
pub fn get_default_notes() -> (r: String)
    ensures
        r@ == Seq::<char>::empty(),
{
    String::new()
}

/// A stored record without an environment has the empty environment.
pub fn get_default_environment() -> (r: String)
    ensures
        r@ == Seq::<char>::empty(),
{
    String::new()
}

/// A stored record without `donotcache` may be cached.
pub fn get_default_donotcache() -> (r: bool)
    ensures
        !r,
{
    false
}

/// A new record as the connection form starts it: a fresh id `id`, Java
/// home `java_home`, a 512 MB heap, verification on, in group `Default`.
pub open spec fn default_entry(id: Seq<char>, java_home: Seq<char>) -> EntryView {
    EntryView {
        address: Seq::empty(),
        heap_size: "512m"@,
        icon: Seq::empty(),
        id: id,
        java_home: java_home,
        java_args: Some(Seq::empty()),
        name: Seq::empty(),
        username: None,
        password: None,
        verify: true,
        group: "Default"@,
        environment: Seq::empty(),
        notes: Seq::empty(),
        donotcache: false,
        last_connected: None,
        group_order: 0,
        environment_order: 0,
        sort_order: 0,
        show_console: false,
    }
}

impl ConnectionEntry {
    /// A new record with a fresh id and the given Java home.
    pub fn new_default(java_home: String) -> (r: Self)
        ensures
            is_generated_id(r.id@),
            r@ == default_entry(r.id@, java_home@),
    {
        ConnectionEntry {
            address: String::new(),
            heap_size: "512m".to_owned(),
            icon: String::new(),
            id: new_connection_id(),
            java_home,
            java_args: Some(String::new()),
            name: String::new(),
            username: None,
            password: None,
            verify: get_verify(),
            group: get_default_group(),
            environment: get_default_environment(),
            notes: get_default_notes(),
            donotcache: get_default_donotcache(),
            last_connected: None,
            group_order: 0,
            environment_order: 0,
            sort_order: 0,
            show_console: false,
        }
    }
}

} // verus!
