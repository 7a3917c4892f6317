//! The options store as the parser records it: a sequence of name–value
//! entries read as a mapping in which a later entry overwrites an earlier
//! one under the same name.

use vstd::prelude::*;

verus! {

/// The mapping that a sequence of name–value entries records, a later
/// entry overwriting an earlier one under the same name.
pub open spec fn entries_map(entries: Seq<(Seq<char>, Option<Seq<char>>)>) -> Map<
    Seq<char>,
    Option<Seq<char>>,
>
    decreases entries.len(),
{
    if entries.len() == 0 {
        Map::empty()
    } else {
        entries_map(entries.drop_last()).insert(entries.last().0, entries.last().1)
    }
}

/// Appending an entry records exactly one more binding, overwriting any
/// earlier one under the same name.
pub proof fn lemma_entries_map_push(
    entries: Seq<(Seq<char>, Option<Seq<char>>)>,
    name: Seq<char>,
    value: Option<Seq<char>>,
)
    ensures
        entries_map(entries.push((name, value))) == entries_map(entries).insert(name, value),
{
    assert(entries.push((name, value)).drop_last() =~= entries);
    assert(entries.push((name, value)).last() == (name, value));
}

/// A name is bound exactly when some entry carries it.
pub proof fn lemma_entries_map_contains(entries: Seq<(Seq<char>, Option<Seq<char>>)>, name: Seq<char>)
    ensures
        entries_map(entries).contains_key(name) <==> (exists|j: int|
            0 <= j < entries.len() && entries[j].0 == name),
    decreases entries.len(),
{
    if entries.len() == 0 {
    } else {
        lemma_entries_map_contains(entries.drop_last(), name);
        if entries.last().0 == name {
            assert(entries[entries.len() - 1].0 == name);
        } else {
            if entries_map(entries).contains_key(name) {
                let j = choose|j: int| 0 <= j < entries.drop_last().len()
                    && entries.drop_last()[j].0 == name;
                assert(entries[j].0 == name);
            }
            if exists|j: int| 0 <= j < entries.len() && entries[j].0 == name {
                let j = choose|j: int| 0 <= j < entries.len() && entries[j].0 == name;
                assert(j < entries.len() - 1);
                assert(entries.drop_last()[j].0 == name);
            }
        }
    }
}

/// The binding of a name is the value of its last entry.
pub proof fn lemma_entries_map_last_value(entries: Seq<(Seq<char>, Option<Seq<char>>)>, j: int)
    requires
        0 <= j < entries.len(),
        forall|k: int| j < k < entries.len() ==> entries[k].0 != entries[j].0,
    ensures
        entries_map(entries).contains_key(entries[j].0),
        entries_map(entries)[entries[j].0] == entries[j].1,
    decreases entries.len(),
{
    if j == entries.len() - 1 {
    } else {
        assert(entries.drop_last()[j] == entries[j]);
        lemma_entries_map_last_value(entries.drop_last(), j);
        assert(entries.last().0 != entries[j].0);
    }
}

} // verus!
