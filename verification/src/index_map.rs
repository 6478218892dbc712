use vstd::prelude::*;
use indexmap::IndexMap;

verus! {

#[verifier::external_type_specification]
#[verifier::external_body]
#[verifier::reject_recursive_types(K)]
#[verifier::reject_recursive_types(V)]
#[verifier::reject_recursive_types(S)]
pub struct ExIndexMap<K, V, S>(IndexMap<K, V, S>);

/// The key/value pairs a map holds, in insertion order.
pub uninterp spec fn entries_of(m: IndexMap<String, String>) -> Seq<(Seq<char>, Seq<char>)>;

/// Whether some pair of `es` carries the key `k`.
pub open spec fn has_key(es: Seq<(Seq<char>, Seq<char>)>, k: Seq<char>) -> bool {
    exists|i: int| 0 <= i < es.len() && (#[trigger] es[i]).0 == k
}

/// Relies on `IndexMap::new`: a fresh map holds no entries.
#[verifier::external_body]
pub fn im_new() -> (r: IndexMap<String, String>)
    ensures
        entries_of(r) == Seq::<(Seq<char>, Seq<char>)>::empty(),
{
    IndexMap::new()
}

/// Relies on `IndexMap::len`: it counts the entries.
#[verifier::external_body]
pub fn im_len(m: &IndexMap<String, String>) -> (r: usize)
    ensures
        r == entries_of(*m).len(),
{
    m.len()
}

/// Relies on `IndexMap::contains_key`: it reports whether any entry
/// carries the key.
#[verifier::external_body]
pub fn im_contains_key(m: &IndexMap<String, String>, k: &str) -> (r: bool)
    ensures
        r == has_key(entries_of(*m), k@),
{
    m.contains_key(k)
}

/// Relies on `IndexMap::insert`: inserting a key the map does not hold
/// appends the pair, keeping all earlier entries and their order.
#[verifier::external_body]
pub fn im_insert_absent(m: &mut IndexMap<String, String>, k: String, v: String)
    requires
        !has_key(entries_of(*old(m)), k@),
    ensures
        entries_of(*final(m)) == entries_of(*old(m)).push((k@, v@)),
{
    m.insert(k, v);
}

/// Relies on `IndexMap::get_index`: it returns the pair at a position in
/// insertion order, or nothing when the position is past the end.
#[verifier::external_body]
pub fn im_get_index<'a>(m: &'a IndexMap<String, String>, i: usize) -> (r: Option<(&'a String, &'a String)>)
    ensures
        match r {
            Some(p) => i < entries_of(*m).len() && p.0@ == entries_of(*m)[i as int].0
                && p.1@ == entries_of(*m)[i as int].1,
            None => i >= entries_of(*m).len(),
        },
{
    m.get_index(i)
}

} // verus!
