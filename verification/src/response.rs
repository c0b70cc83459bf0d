//! The JSON texts with which export and import report what they did.

use vstd::prelude::*;
use crate::text::{decimal, push_decimal, push_str, strs};
use crate::wrappers::{json_string_array, to_json_string_array};

verus! {

/// `{"status":"ok","total":<total>}`.
pub open spec fn ok_response_text(total: nat) -> Seq<char> {
    "{\"status\":\"ok\",\"total\":"@ + decimal(total) + "}"@
}

/// `{"names":<names>,"status":"duplicates","total":<total>}`, the names
/// written as a JSON array of strings.
pub open spec fn duplicates_response_text(names_json: Seq<char>, total: nat) -> Seq<char> {
    "{\"names\":"@ + names_json + ",\"status\":\"duplicates\",\"total\":"@ + decimal(total) + "}"@
}

/// The report of an export or import that wrote `total` records.
pub fn ok_response(total: usize) -> (r: String)
    ensures
        r@ == ok_response_text(total as nat),
{
    let mut r = "{\"status\":\"ok\",\"total\":".to_owned();
    push_decimal(&mut r, total);
    push_str(&mut r, "}");
    r
}

/// The report of an import that stopped because records already exist:
/// `names_json` is the JSON array of their names, `total` the number of
/// records offered.
pub fn duplicates_report(names_json: &str, total: usize) -> (r: String)
    ensures
        r@ == duplicates_response_text(names_json@, total as nat),
{
    let mut r = "{\"names\":".to_owned();
    push_str(&mut r, names_json);
    push_str(&mut r, ",\"status\":\"duplicates\",\"total\":");
    push_decimal(&mut r, total);
    push_str(&mut r, "}");
    r
}

/// The report of an import that stopped because records named `names`
/// already exist, out of `total` records offered.
pub fn duplicates_response(names: &Vec<String>, total: usize) -> (r: String)
    ensures
        r@ == duplicates_response_text(json_string_array(strs(names@)), total as nat),
{
    let names_json = to_json_string_array(names).unwrap();
    duplicates_report(names_json.as_str(), total)
}

/// `items` separated by commas.
pub open spec fn comma_joined(items: Seq<Seq<char>>) -> Seq<char>
    decreases items.len(),
{
    if items.len() == 0 {
        Seq::empty()
    } else if items.len() == 1 {
        items[0]
    } else {
        comma_joined(items.drop_last()) + ","@ + items.last()
    }
}

/// A JSON array whose elements are the JSON texts `items`.
pub open spec fn json_array_text(items: Seq<Seq<char>>) -> Seq<char> {
    "["@ + comma_joined(items) + "]"@
}

/// The JSON array of the already written JSON texts `items`, in order.
pub fn json_array_string(items: &Vec<String>) -> (r: String)
    ensures
        r@ == json_array_text(strs(items@)),
{
    let ghost v = strs(items@);
    let mut body = String::new();
    let n = items.len();
    let mut i: usize = 0;
    assert(v.take(0) =~= Seq::<Seq<char>>::empty());
    while i < n
        invariant
            n == items@.len(),
            v == strs(items@),
            i <= n,
            body@ == comma_joined(v.take(i as int)),
        decreases n - i,
    {
        assert(v.take(i + 1).drop_last() =~= v.take(i as int));
        assert(v.take(i + 1).last() == items@[i as int]@);
        if i > 0 {
            push_str(&mut body, ",");
        } else {
            assert(body@ =~= Seq::<char>::empty());
        }
        push_str(&mut body, items[i].as_str());
        if i == 0 {
            assert(v.take(1)[0] == items@[0]@);
        }
        i = i + 1;
    }
    assert(v.take(n as int) =~= v);
    let mut r = "[".to_owned();
    push_str(&mut r, body.as_str());
    push_str(&mut r, "]");
    r
}

} // verus!
