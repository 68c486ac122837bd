//! The extension fields of a tag entry: a list of keys with their values,
//! kept in ascending order of the keys, each key once.
//!
//! Kept so, the list is a canonical form of the mapping from key to value:
//! two lists in this form that map the same keys to the same values are the
//! same list, whatever order the fields had in the text they came from.

use crate::text::{
    lemma_precedes_irreflexive, lemma_precedes_total, lemma_precedes_transitive, precedes,
    str_precedes,
};
use vstd::prelude::*;

verus! {

/// A key with its value.
pub type Pair = (Seq<char>, Seq<char>);

/// The keys and values that a list of string pairs holds.
pub open spec fn pairs_of(fields: Seq<(String, String)>) -> Seq<Pair> {
    fields.map_values(|f: (String, String)| (f.0@, f.1@))
}

/// Whether the keys of `fields` ascend strictly, so that no key stands twice.
pub open spec fn ascending(fields: Seq<Pair>) -> bool {
    forall|i: int, j: int| 0 <= i < j < fields.len() ==> precedes(fields[i].0, fields[j].0)
}

/// The mapping that a list of fields stands for. Where a key stands more than
/// once, its last value counts.
pub open spec fn mapping(fields: Seq<Pair>) -> Map<Seq<char>, Seq<char>>
    decreases fields.len(),
{
    if fields.len() == 0 {
        Map::empty()
    } else {
        mapping(fields.drop_last()).insert(fields.last().0, fields.last().1)
    }
}

/// The number of fields at the head of `fields` whose key sorts before `key`:
/// in an ascending list, the place where `key` stands or belongs.
pub open spec fn rank(fields: Seq<Pair>, key: Seq<char>) -> int
    decreases fields.len(),
{
    if fields.len() > 0 && precedes(fields[0].0, key) {
        1 + rank(fields.drop_first(), key)
    } else {
        0
    }
}

/// An ascending list with `key` set to `value`: the value is replaced where
/// the key stands already, and the field is put at its place where not.
pub open spec fn with_field(fields: Seq<Pair>, key: Seq<char>, value: Seq<char>) -> Seq<Pair> {
    let at = rank(fields, key);
    if at < fields.len() && fields[at].0 == key {
        fields.update(at, (key, value))
    } else {
        fields.insert(at, (key, value))
    }
}

/// The canonical form of a list of fields as they stand in a text: the fields
/// set one after the other into an empty list, so that of a key that stands
/// more than once the last value stays.
pub open spec fn normalized(raw: Seq<Pair>) -> Seq<Pair>
    decreases raw.len(),
{
    if raw.len() == 0 {
        Seq::empty()
    } else {
        with_field(normalized(raw.drop_last()), raw.last().0, raw.last().1)
    }
}

/// Where `key` ranks in a list: within it, behind fields that sort before the
/// key, and not behind any other where the list ascends.
pub proof fn lemma_rank(fields: Seq<Pair>, key: Seq<char>)
    ensures
        0 <= rank(fields, key) <= fields.len(),
        forall|i: int| 0 <= i < rank(fields, key) ==> precedes(#[trigger] fields[i].0, key),
        rank(fields, key) < fields.len() ==> !precedes(fields[rank(fields, key)].0, key),
        ascending(fields) ==> forall|i: int|
            rank(fields, key) <= i < fields.len() ==> !precedes(#[trigger] fields[i].0, key),
    decreases fields.len(),
{
    let r = rank(fields, key);
    if fields.len() > 0 && precedes(fields[0].0, key) {
        let rest = fields.drop_first();
        lemma_rank(rest, key);
        assert forall|i: int| 0 <= i < r implies precedes(#[trigger] fields[i].0, key) by {
            if i > 0 {
                assert(rest[i - 1] == fields[i]);
            }
        }
        if r < fields.len() {
            assert(rest[r - 1] == fields[r]);
        }
    }
    if ascending(fields) {
        assert forall|i: int| r <= i < fields.len() implies !precedes(
            #[trigger] fields[i].0,
            key,
        ) by {
            if i > r && precedes(fields[i].0, key) {
                lemma_precedes_transitive(fields[r].0, fields[i].0, key);
            }
        }
    }
}

/// Setting a field keeps an ascending list ascending.
pub proof fn lemma_with_field_ascending(fields: Seq<Pair>, key: Seq<char>, value: Seq<char>)
    requires
        ascending(fields),
    ensures
        ascending(with_field(fields, key, value)),
{
    let r = rank(fields, key);
    let set = with_field(fields, key, value);
    lemma_rank(fields, key);
    if !(r < fields.len() && fields[r].0 == key) {
        assert forall|i: int, j: int| 0 <= i < j < set.len() implies precedes(
            set[i].0,
            set[j].0,
        ) by {
            if j == r {
                assert(set[i] == fields[i]);
            } else if i == r {
                assert(set[j] == fields[j - 1]);
                lemma_precedes_total(key, fields[j - 1].0);
                if j - 1 > r && fields[j - 1].0 == key {
                    assert(precedes(fields[r].0, fields[j - 1].0));
                }
            } else {
                let a = if i < r { i } else { i - 1 };
                let b = if j < r { j } else { j - 1 };
                assert(set[i] == fields[a] && set[j] == fields[b]);
            }
        }
    }
}

/// The keys of the mapping are the keys of the list.
pub proof fn lemma_mapping_keys(fields: Seq<Pair>, key: Seq<char>)
    ensures
        mapping(fields).contains_key(key) <==> exists|i: int|
            0 <= i < fields.len() && (#[trigger] fields[i]).0 == key,
    decreases fields.len(),
{
    if fields.len() > 0 {
        let front = fields.drop_last();
        lemma_mapping_keys(front, key);
        if mapping(fields).contains_key(key) {
            if fields.last().0 == key {
                assert(fields[fields.len() - 1].0 == key);
            } else {
                let i = choose|i: int| 0 <= i < front.len() && (#[trigger] front[i]).0 == key;
                assert(fields[i].0 == key);
            }
        }
        if exists|i: int| 0 <= i < fields.len() && (#[trigger] fields[i]).0 == key {
            let i = choose|i: int| 0 <= i < fields.len() && (#[trigger] fields[i]).0 == key;
            if i < front.len() {
                assert(front[i].0 == key);
            }
        }
    }
}

/// In an ascending list every field gives its key's value in the mapping.
pub proof fn lemma_mapping_value(fields: Seq<Pair>, i: int)
    requires
        ascending(fields),
        0 <= i < fields.len(),
    ensures
        mapping(fields).contains_key(fields[i].0),
        mapping(fields)[fields[i].0] == fields[i].1,
    decreases fields.len(),
{
    if i < fields.len() - 1 {
        let front = fields.drop_last();
        assert forall|a: int, b: int| 0 <= a < b < front.len() implies precedes(
            front[a].0,
            front[b].0,
        ) by {
            assert(front[a] == fields[a] && front[b] == fields[b]);
        }
        lemma_mapping_value(front, i);
        assert(precedes(fields[i].0, fields.last().0));
        lemma_precedes_irreflexive(fields[i].0);
    }
}

/// Two ascending lists that stand for the same mapping are the same list.
pub proof fn lemma_ascending_is_canonical(a: Seq<Pair>, b: Seq<Pair>)
    requires
        ascending(a),
        ascending(b),
        mapping(a) == mapping(b),
    ensures
        a == b,
    decreases a.len(),
{
    if a.len() == 0 {
        if b.len() > 0 {
            lemma_mapping_value(b, 0);
        }
    } else if b.len() == 0 {
        lemma_mapping_value(a, 0);
    } else {
        let x = a.last();
        let y = b.last();
        // The last field of each list holds the greatest key of the mapping.
        lemma_mapping_value(a, a.len() - 1);
        lemma_mapping_value(b, b.len() - 1);
        lemma_mapping_keys(b, x.0);
        lemma_mapping_keys(a, y.0);
        let i = choose|i: int| 0 <= i < b.len() && (#[trigger] b[i]).0 == x.0;
        let j = choose|j: int| 0 <= j < a.len() && (#[trigger] a[j]).0 == y.0;
        lemma_precedes_total(x.0, y.0);
        if i < b.len() - 1 {
            assert(precedes(b[i].0, y.0));
        }
        if j < a.len() - 1 {
            assert(precedes(a[j].0, x.0));
        }
        assert(x.0 == y.0);
        assert(x == y);
        let fa = a.drop_last();
        let fb = b.drop_last();
        lemma_front_of_ascending(a);
        lemma_front_of_ascending(b);
        lemma_ascending_is_canonical(fa, fb);
        assert(a == fa.push(x));
        assert(b == fb.push(y));
    }
}

/// Without its last field an ascending list still ascends, and stands for the
/// mapping without the last key.
pub proof fn lemma_front_of_ascending(fields: Seq<Pair>)
    requires
        ascending(fields),
        fields.len() > 0,
    ensures
        ascending(fields.drop_last()),
        mapping(fields.drop_last()) == mapping(fields).remove(fields.last().0),
{
    let front = fields.drop_last();
    assert forall|a: int, b: int| 0 <= a < b < front.len() implies precedes(
        front[a].0,
        front[b].0,
    ) by {
        assert(front[a] == fields[a] && front[b] == fields[b]);
    }
    lemma_mapping_keys(front, fields.last().0);
    if mapping(front).contains_key(fields.last().0) {
        let i = choose|i: int| 0 <= i < front.len() && (#[trigger] front[i]).0 == fields.last().0;
        assert(precedes(fields[i].0, fields.last().0));
        lemma_precedes_irreflexive(fields.last().0);
    }
    assert(mapping(front) =~= mapping(fields).remove(fields.last().0));
}

/// Setting a field in an ascending list sets its key in the mapping.
pub proof fn lemma_with_field_mapping(fields: Seq<Pair>, key: Seq<char>, value: Seq<char>)
    requires
        ascending(fields),
    ensures
        mapping(with_field(fields, key, value)) == mapping(fields).insert(key, value),
{
    let r = rank(fields, key);
    let set = with_field(fields, key, value);
    lemma_rank(fields, key);
    let replaced = r < fields.len() && fields[r].0 == key;
    lemma_with_field_ascending(fields, key, value);
    assert(set[r] == (key, value));
    lemma_mapping_value(set, r);
    let target = mapping(fields).insert(key, value);
    assert forall|k: Seq<char>| k != key implies (mapping(set).dom().contains(k)
        <==> #[trigger] target.dom().contains(k)) && (mapping(set).dom().contains(k)
        ==> mapping(set)[k] == target[k]) by {
        lemma_mapping_keys(set, k);
        lemma_mapping_keys(fields, k);
        if mapping(set).contains_key(k) {
            let i = choose|i: int| 0 <= i < set.len() && (#[trigger] set[i]).0 == k;
            let j = if replaced || i < r { i } else { i - 1 };
            assert(set[i] == fields[j]);
            lemma_mapping_value(set, i);
            lemma_mapping_value(fields, j);
        }
        if mapping(fields).contains_key(k) {
            let j = choose|j: int| 0 <= j < fields.len() && (#[trigger] fields[j]).0 == k;
            let i = if replaced || j < r { j } else { j + 1 };
            assert(set[i] == fields[j]);
        }
    }
    assert(mapping(set) =~= target);
}

/// The canonical form ascends and stands for the mapping of the list it was
/// made from.
pub proof fn lemma_normalized(raw: Seq<Pair>)
    ensures
        ascending(normalized(raw)),
        mapping(normalized(raw)) == mapping(raw),
    decreases raw.len(),
{
    if raw.len() > 0 {
        let front = normalized(raw.drop_last());
        lemma_normalized(raw.drop_last());
        lemma_with_field_ascending(front, raw.last().0, raw.last().1);
        lemma_with_field_mapping(front, raw.last().0, raw.last().1);
    }
}

/// An ascending list is its own canonical form.
pub proof fn lemma_normalized_of_ascending(fields: Seq<Pair>)
    requires
        ascending(fields),
    ensures
        normalized(fields) == fields,
{
    lemma_normalized(fields);
    lemma_ascending_is_canonical(normalized(fields), fields);
}

/// The canonical form does not depend on the order in which the fields were
/// written: lists that stand for the same mapping have the same canonical
/// form.
pub proof fn lemma_normalized_ignores_order(a: Seq<Pair>, b: Seq<Pair>)
    requires
        mapping(a) == mapping(b),
    ensures
        normalized(a) == normalized(b),
{
    lemma_normalized(a);
    lemma_normalized(b);
    lemma_ascending_is_canonical(normalized(a), normalized(b));
}

/// Sets `key` to `value` in a list of fields: the value is replaced where the
/// key stands already, and the field is put in where not, behind the fields
/// at the head of the list whose keys sort before `key`. An ascending list
/// stays ascending.
pub fn set_field(fields: &mut Vec<(String, String)>, key: String, value: String)
    ensures
        pairs_of(final(fields)@) == with_field(pairs_of(old(fields)@), key@, value@),
        ascending(pairs_of(old(fields)@)) ==> ascending(pairs_of(final(fields)@)),
{
    let ghost before = pairs_of(fields@);
    let mut at: usize = 0;
    assert(before.skip(0) == before);
    while at < fields.len() && str_precedes(fields[at].0.as_str(), key.as_str())
        invariant
            at <= fields.len(),
            fields@ == old(fields)@,
            before == pairs_of(fields@),
            rank(before, key@) == at + rank(before.skip(at as int), key@),
        decreases fields.len() - at,
    {
        assert(before.skip(at as int).drop_first() == before.skip(at + 1));
        at += 1;
    }
    proof {
        if ascending(before) {
            lemma_with_field_ascending(before, key@, value@);
        }
    }
    if at < fields.len() && fields[at].0 == key {
        fields[at] = (key, value);
        assert(pairs_of(fields@) == before.update(at as int, (key@, value@)));
    } else {
        fields.insert(at, (key, value));
        assert(pairs_of(fields@) == before.insert(at as int, (key@, value@)));
    }
}

/// The canonical form of a list of fields as they stand in a text: ascending
/// by key, and of a key that stood more than once the last value.
pub fn normalize(raw: Vec<(String, String)>) -> (fields: Vec<(String, String)>)
    ensures
        pairs_of(fields@) == normalized(pairs_of(raw@)),
        ascending(pairs_of(fields@)),
        mapping(pairs_of(fields@)) == mapping(pairs_of(raw@)),
{
    let ghost all = pairs_of(raw@);
    let mut fields: Vec<(String, String)> = Vec::new();
    for field in it: raw
        invariant
            it.seq() == raw@,
            all == pairs_of(raw@),
            pairs_of(fields@) == normalized(all.take(it.index())),
    {
        assert(all.take(it.index() + 1).drop_last() == all.take(it.index()));
        set_field(&mut fields, field.0, field.1);
    }
    proof {
        assert(all.take(all.len() as int) == all);
        lemma_normalized(all);
    }
    fields
}

} // verus!
