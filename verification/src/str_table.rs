//! The hash index that maps interned strings to their symbol ids, held in a
//! `hashbrown::HashMap`.

use vstd::prelude::*;

verus! {

/// A `hashbrown::HashMap<String, u32>`, keyed by string contents.
#[verifier::external_body]
pub struct StrTable {
    map: hashbrown::HashMap<String, u32>,
}

/// What a [`StrTable`] holds: each key, by its characters, with its id.
pub uninterp spec fn table_entries(t: StrTable) -> Map<Seq<char>, u32>;

/// Calls `hashbrown::HashMap::new`: the new map holds nothing.
#[verifier::external_body]
pub fn table_new() -> (t: StrTable)
    ensures
        table_entries(t).is_empty(),
{
    StrTable { map: hashbrown::HashMap::new() }
}

/// Calls `hashbrown::HashMap::with_capacity`: the new map holds nothing.
///
/// The requested capacity is bounded so that hashbrown's table layout
/// computation cannot overflow, which would panic; every capacity up to the
/// bound fits its layout arithmetic. Whether the allocator can then provide
/// the memory is not stated: when it cannot, the process aborts.
#[verifier::external_body]
pub fn table_with_capacity(capacity: usize) -> (t: StrTable)
    requires
        capacity <= usize::MAX / 256,
    ensures
        table_entries(t).is_empty(),
{
    StrTable { map: hashbrown::HashMap::with_capacity(capacity) }
}

/// Calls `hashbrown::HashMap::get` with a `&str` key and copies the value:
/// the id stored under the key's characters, or `None` when the key is
/// absent. `String`'s `Hash` and `Eq` agree with `str`'s, so the lookup goes
/// by content.
#[verifier::external_body]
pub fn table_get(t: &StrTable, key: &str) -> (r: Option<u32>)
    ensures
        r == (if table_entries(*t).contains_key(key@) {
            Some(table_entries(*t)[key@])
        } else {
            None
        }),
{
    t.map.get(key).copied()
}

/// Calls `hashbrown::HashMap::contains_key` with a `&str` key: whether the
/// key's characters are present.
#[verifier::external_body]
pub fn table_contains(t: &StrTable, key: &str) -> (r: bool)
    ensures
        r == table_entries(*t).contains_key(key@),
{
    t.map.contains_key(key)
}

/// Calls `hashbrown::HashMap::insert`: afterwards the key's characters map
/// to `value`, every other entry is kept, and the previous value under the
/// key, if any, is returned. Growing the table may fail for lack of memory,
/// which aborts the process; that is not stated.
#[verifier::external_body]
pub fn table_insert(t: &mut StrTable, key: String, value: u32) -> (r: Option<u32>)
    ensures
        table_entries(*final(t)) == table_entries(*old(t)).insert(key@, value),
        r == (if table_entries(*old(t)).contains_key(key@) {
            Some(table_entries(*old(t))[key@])
        } else {
            None
        }),
{
    t.map.insert(key, value)
}

} // verus!
