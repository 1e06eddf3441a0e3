use vstd::prelude::*;

use crate::color::Color;

verus! {

// The palette is an insertion-ordered map from color names to resolved
// colors, held in an `indexmap::IndexMap`.  The map is opaque to the
// verifier; `palette_entries` names what it holds, as the sequence of its
// entries in order, and each method used by the resolver has a wrapper
// whose contract speaks over that sequence.

#[verifier::external_type_specification]
#[verifier::external_body]
#[verifier::reject_recursive_types(K)]
#[verifier::reject_recursive_types(V)]
#[verifier::reject_recursive_types(S)]
pub struct ExIndexMap<K, V, S>(indexmap::IndexMap<K, V, S>);

/// The entries of a palette map, in insertion order, each a key (as its
/// character sequence) with its color.
pub uninterp spec fn palette_entries(m: indexmap::IndexMap<String, Color>) -> Seq<
    (Seq<char>, Color),
>;

/// Whether some entry carries this key.
pub open spec fn entries_has_key(es: Seq<(Seq<char>, Color)>, k: Seq<char>) -> bool {
    exists|i: int| 0 <= i < es.len() && (#[trigger] es[i]).0 == k
}

/// The position of the entry carrying this key; meaningful when the keys
/// are distinct and the key is present.
pub open spec fn entries_index_of(es: Seq<(Seq<char>, Color)>, k: Seq<char>) -> int {
    choose|i: int| 0 <= i < es.len() && (#[trigger] es[i]).0 == k
}

/// The color stored under this key.
pub open spec fn entries_value(es: Seq<(Seq<char>, Color)>, k: Seq<char>) -> Color {
    es[entries_index_of(es, k)].1
}

/// What inserting does to the entries: a new key appends at the end, an
/// existing key keeps its place and has its value replaced.
pub open spec fn entries_insert(es: Seq<(Seq<char>, Color)>, k: Seq<char>, v: Color) -> Seq<
    (Seq<char>, Color),
> {
    if entries_has_key(es, k) {
        es.update(entries_index_of(es, k), (k, v))
    } else {
        es.push((k, v))
    }
}

/// No two entries share a key; every palette built through the wrappers
/// below keeps this shape.
pub open spec fn entries_keys_unique(es: Seq<(Seq<char>, Color)>) -> bool {
    forall|i: int, j: int| 0 <= i < j < es.len() ==> (#[trigger] es[i]).0 != (#[trigger] es[j]).0
}

/// Inserting preserves distinctness of keys.
pub proof fn lemma_insert_keeps_unique(es: Seq<(Seq<char>, Color)>, k: Seq<char>, v: Color)
    requires
        entries_keys_unique(es),
    ensures
        entries_keys_unique(entries_insert(es, k, v)),
{
    if entries_has_key(es, k) {
        let at = entries_index_of(es, k);
        assert(0 <= at < es.len() && es[at].0 == k);
        let es2 = es.update(at, (k, v));
        assert forall|i: int, j: int| 0 <= i < j < es2.len() implies (#[trigger] es2[i]).0 != (
        #[trigger] es2[j]).0 by {
            assert(es[i].0 != es[j].0);
        }
    } else {
        let es2 = es.push((k, v));
        assert forall|i: int, j: int| 0 <= i < j < es2.len() implies (#[trigger] es2[i]).0 != (
        #[trigger] es2[j]).0 by {
            if j < es.len() {
                assert(es[i].0 != es[j].0);
            } else {
                assert(es2[j].0 == k);
                assert(es2[i].0 == es[i].0);
                assert(!(exists|q: int|
                    0 <= q < es.len() && (#[trigger] es[q]).0 == k));
            }
        }
    }
}

/// With distinct keys, an entry's position is determined by its key.
pub proof fn lemma_index_of_unique(es: Seq<(Seq<char>, Color)>, i: int)
    requires
        entries_keys_unique(es),
        0 <= i < es.len(),
    ensures
        entries_index_of(es, es[i].0) == i,
        entries_has_key(es, es[i].0),
{
    assert(0 <= i < es.len() && es[i].0 == es[i].0);
    let at = entries_index_of(es, es[i].0);
    assert(0 <= at < es.len() && es[at].0 == es[i].0);
    if at != i {
        if at < i {
            assert(es[at].0 != es[i].0);
        } else {
            assert(es[i].0 != es[at].0);
        }
    }
}

/// Relies on `indexmap::IndexMap::new`: creates an empty map.
#[verifier::external_body]
pub fn palette_new() -> (m: indexmap::IndexMap<String, Color>)
    ensures
        palette_entries(m) == Seq::<(Seq<char>, Color)>::empty(),
{
    indexmap::IndexMap::new()
}

/// Relies on `indexmap::IndexMap::len`: the number of entries.
#[verifier::external_body]
pub fn palette_len(m: &indexmap::IndexMap<String, Color>) -> (n: usize)
    ensures
        n == palette_entries(*m).len(),
{
    m.len()
}

/// Relies on `indexmap::IndexMap::contains_key`: whether an entry carries
/// this key.
#[verifier::external_body]
pub fn palette_contains_key(m: &indexmap::IndexMap<String, Color>, key: &str) -> (r: bool)
    ensures
        r == entries_has_key(palette_entries(*m), key@),
{
    m.contains_key(key)
}

/// Relies on `indexmap::IndexMap::get`: the value stored under this key,
/// if any.
#[verifier::external_body]
pub fn palette_get<'a>(m: &'a indexmap::IndexMap<String, Color>, key: &str) -> (r: Option<
    &'a Color,
>)
    ensures
        r is Some <==> entries_has_key(palette_entries(*m), key@),
        r matches Some(v) ==> exists|i: int|
            0 <= i < palette_entries(*m).len() && #[trigger] palette_entries(*m)[i] == (key@, *v),
{
    m.get(key)
}

/// Relies on `indexmap::IndexMap::insert`: a new key appends its entry last
/// in order; an existing key keeps its place and has its value replaced.
#[verifier::external_body]
pub fn palette_insert(m: &mut indexmap::IndexMap<String, Color>, key: String, value: Color)
    ensures
        palette_entries(*final(m)) == entries_insert(palette_entries(*old(m)), key@, value),
{
    m.insert(key, value);
}

/// Relies on `indexmap::IndexMap::get_index`: the entry at this position in
/// insertion order.
#[verifier::external_body]
pub fn palette_get_index<'a>(m: &'a indexmap::IndexMap<String, Color>, i: usize) -> (r: Option<
    (&'a String, &'a Color),
>)
    ensures
        r is Some <==> i < palette_entries(*m).len(),
        r matches Some(kv) ==> i < palette_entries(*m).len() && kv.0@ == palette_entries(
            *m,
        )[i as int].0 && *kv.1 == palette_entries(*m)[i as int].1,
{
    m.get_index(i)
}

} // verus!
