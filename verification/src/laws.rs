//! Laws of the store and of the query pipeline, each proved from the definitions that
//! the contracts of the library use.

use crate::codec::{
    decoded_members, json_bytes_value, json_document, json_value_bytes, loaded, map_text,
    object_of, text_entries, DocumentView,
};
use crate::entries::{
    entry_map, has_key, lemma_put_entry, lemma_remove_entry, position, put_entry, remove_entry,
    unique_keys, Entry,
};
use crate::query::{
    evaluate, filtered, filters_hold, has_prefix, with_prefix, with_values, QueryView,
};
use crate::bytes::Relation;
use crate::sort::{
    chain_relation, lemma_stable_sort_permutes, lemma_stable_sort_sorted, sorted_by,
    stable_sort,
};
use vstd::prelude::*;

verus! {

/// The entries of `s` after each entry of `pairs` was stored in turn.
pub open spec fn put_all(s: Seq<Entry>, pairs: Seq<Entry>) -> Seq<Entry>
    decreases pairs.len(),
{
    if pairs.len() == 0 {
        s
    } else {
        put_entry(put_all(s, pairs.drop_last()), pairs.last().0, pairs.last().1)
    }
}

/// Storing keeps what was stored: after pairs with pairwise different keys were stored
/// one by one, the store holds under each of their keys the value that came with it.
pub proof fn lemma_put_all_keeps_values(s: Seq<Entry>, pairs: Seq<Entry>, i: int)
    requires
        unique_keys(s),
        unique_keys(pairs),
        0 <= i < pairs.len(),
    ensures
        unique_keys(put_all(s, pairs)),
        entry_map(put_all(s, pairs)).contains_key(pairs[i].0),
        entry_map(put_all(s, pairs))[pairs[i].0] == pairs[i].1,
    decreases pairs.len(),
{
    let rest = pairs.drop_last();
    lemma_put_all_unique(s, rest);
    lemma_put_entry(put_all(s, rest), pairs.last().0, pairs.last().1);
    if i < pairs.len() - 1 {
        assert(rest[i] == pairs[i]);
        assert(pairs[i].0 != pairs[pairs.len() - 1].0);
        lemma_put_all_keeps_values(s, rest, i);
    }
}

/// Storing pairs one by one keeps the keys of the store pairwise different.
pub proof fn lemma_put_all_unique(s: Seq<Entry>, pairs: Seq<Entry>)
    requires
        unique_keys(s),
    ensures
        unique_keys(put_all(s, pairs)),
    decreases pairs.len(),
{
    if pairs.len() > 0 {
        lemma_put_all_unique(s, pairs.drop_last());
        lemma_put_entry(put_all(s, pairs.drop_last()), pairs.last().0, pairs.last().1);
    }
}

/// Deleting a key that is absent changes nothing, and after a delete the key is absent
/// whether it was present or not, while every other key keeps its value.
pub proof fn lemma_delete(s: Seq<Entry>, key: Seq<char>)
    requires
        unique_keys(s),
    ensures
        !entry_map(s).contains_key(key) ==> remove_entry(s, key) == s,
        !entry_map(remove_entry(s, key)).contains_key(key),
        forall|other: Seq<char>|
            other != key ==> entry_map(remove_entry(s, key)).contains_key(other) == entry_map(
                s,
            ).contains_key(other),
        forall|other: Seq<char>|
            other != key && entry_map(s).contains_key(other) ==> entry_map(
                remove_entry(s, key),
            )[other] == entry_map(s)[other],
{
    lemma_remove_entry(s, key);
}

/// A query that skips as many entries as match it, or more, has an empty answer.
pub proof fn lemma_skip_all(s: Seq<Entry>, q: QueryView)
    requires
        q.skip >= filtered(with_prefix(s, q.prefix), q.filters).len(),
    ensures
        evaluate(s, q) == Seq::<Entry>::empty(),
{
    let matching = filtered(with_prefix(s, q.prefix), q.filters);
    lemma_stable_sort_permutes(matching, q.orders);
    assert(evaluate(s, q) =~= Seq::<Entry>::empty());
}

/// A query with the limit 0 has an empty answer.
pub proof fn lemma_limit_zero(s: Seq<Entry>, q: QueryView)
    requires
        q.limit == 0,
    ensures
        evaluate(s, q) == Seq::<Entry>::empty(),
{
    assert(evaluate(s, q) =~= Seq::<Entry>::empty());
}

/// The answer to a query is never longer than its limit, nor than the number of
/// entries that match it less those skipped.
pub proof fn lemma_answer_length(s: Seq<Entry>, q: QueryView)
    ensures
        evaluate(s, q).len() <= q.limit,
        evaluate(s, q).len() <= filtered(with_prefix(s, q.prefix), q.filters).len(),
        q.skip <= filtered(with_prefix(s, q.prefix), q.filters).len() ==> evaluate(s, q).len()
            <= filtered(with_prefix(s, q.prefix), q.filters).len() - q.skip,
{
    let matching = filtered(with_prefix(s, q.prefix), q.filters);
    lemma_stable_sort_permutes(matching, q.orders);
}

/// Every entry of an answer is an entry of the store whose key starts with the prefix
/// and which meets every filter. Where only keys are asked for, this holds of the entry
/// that the same query returns with its value.
pub proof fn lemma_answer_from_entries(s: Seq<Entry>, q: QueryView, i: int)
    requires
        0 <= i < evaluate(s, q).len(),
    ensures
        evaluate(s, with_values(q)).len() == evaluate(s, q).len(),
        evaluate(s, with_values(q))[i].0 == evaluate(s, q)[i].0,
        s.contains(evaluate(s, with_values(q))[i]),
        has_prefix(q.prefix, evaluate(s, with_values(q))[i]),
        filters_hold(q.filters, evaluate(s, with_values(q))[i]),
{
    broadcast use vstd::seq_lib::to_multiset_contains;

    let chosen = with_prefix(s, q.prefix);
    let matching = filtered(chosen, q.filters);
    let sorted = stable_sort(matching, q.orders);
    let a = evaluate(s, with_values(q))[i];
    lemma_stable_sort_permutes(matching, q.orders);
    let start = if q.skip < sorted.len() {
        q.skip as int
    } else {
        sorted.len() as int
    };
    assert(a == sorted[start + i]);
    assert(sorted.contains(a));
    assert(sorted.to_multiset().count(a) > 0);
    assert(matching.contains(a));
    let k = choose|k: int| 0 <= k < matching.len() && matching[k] == a;
    chosen.lemma_filter_pred(|e: Entry| filters_hold(q.filters, e), k);
    chosen.lemma_filter_contains_rev(|e: Entry| filters_hold(q.filters, e), a);
    let j = choose|j: int| 0 <= j < chosen.len() && chosen[j] == a;
    s.lemma_filter_pred(|e: Entry| has_prefix(q.prefix, e), j);
    s.lemma_filter_contains_rev(|e: Entry| has_prefix(q.prefix, e), a);
}

/// A query that skips nothing and whose limit is not below the number of entries that
/// match it returns every such entry, each as often as it matches: once.
pub proof fn lemma_answer_complete(s: Seq<Entry>, q: QueryView)
    requires
        q.skip == 0,
        q.limit >= filtered(with_prefix(s, q.prefix), q.filters).len(),
    ensures
        evaluate(s, with_values(q)).to_multiset() == filtered(
            with_prefix(s, q.prefix),
            q.filters,
        ).to_multiset(),
{
    let matching = filtered(with_prefix(s, q.prefix), q.filters);
    lemma_stable_sort_permutes(matching, q.orders);
    let sorted = stable_sort(matching, q.orders);
    assert(evaluate(s, with_values(q)) =~= sorted);
}

/// The answer to a query is sorted by the criteria of the query.
pub proof fn lemma_answer_sorted(s: Seq<Entry>, q: QueryView)
    ensures
        sorted_by(evaluate(s, with_values(q)), q.orders),
{
    let matching = filtered(with_prefix(s, q.prefix), q.filters);
    lemma_stable_sort_sorted(matching, q.orders);
    lemma_stable_sort_permutes(matching, q.orders);
    let sorted = stable_sort(matching, q.orders);
    let answer = evaluate(s, with_values(q));
    let start = if q.skip < sorted.len() {
        q.skip as int
    } else {
        sorted.len() as int
    };
    assert forall|i: int, j: int| 0 <= i < j < answer.len() implies chain_relation(
        q.orders,
        answer[i],
        answer[j],
    ) != Relation::After by {
        assert(answer[i] == sorted[start + i]);
        assert(answer[j] == sorted[start + j]);
    }
}

/// Where only keys are asked for, every value of the answer is the empty value, and
/// the keys are those of the answer to the same query with values.
pub proof fn lemma_keys_only(s: Seq<Entry>, q: QueryView, i: int)
    requires
        q.keys_only,
        0 <= i < evaluate(s, q).len(),
    ensures
        evaluate(s, q)[i].1 == Seq::<u8>::empty(),
        evaluate(s, q).len() == evaluate(s, with_values(q)).len(),
        evaluate(s, q)[i].0 == evaluate(s, with_values(q))[i].0,
{
}

/// No key stands at two positions among the members.
pub open spec fn distinct_member_keys(members: Seq<(Seq<char>, serde_json::Value)>) -> bool {
    forall|i: int, j: int|
        0 <= i < j < members.len() ==> #[trigger] members[i].0 != #[trigger] members[j].0
}

/// The object that a list of members stands for.
pub open spec fn member_map(members: Seq<(Seq<char>, serde_json::Value)>) -> Map<
    Seq<char>,
    serde_json::Value,
> {
    Map::new(
        |key: Seq<char>| exists|i: int| 0 <= i < members.len() && #[trigger] members[i].0 == key,
        |key: Seq<char>|
            members[choose|i: int| 0 <= i < members.len() && #[trigger] members[i].0 == key].1,
    )
}

/// Every value of the mapping, written as a JSON value, is read back as itself.
pub open spec fn values_read_back(m: Map<Seq<char>, Seq<u8>>) -> bool {
    forall|key: Seq<char>| #[trigger]
        m.contains_key(key) ==> json_value_bytes(json_bytes_value(m[key])) == Some(m[key])
}

/// The text, which was written for the object, is parsed as that object: it is not
/// empty and gives the members of the object, each key once.
pub open spec fn object_reads_back(
    object: Map<Seq<char>, serde_json::Value>,
    text: Seq<u8>,
) -> bool {
    &&& text.len() > 0
    &&& match json_document(text) {
        Some(DocumentView::Object(members)) => distinct_member_keys(members) && member_map(
            members,
        ) == object,
        _ => false,
    }
}

proof fn lemma_decoded_distinct(
    members: Seq<(Seq<char>, serde_json::Value)>,
    m: Map<Seq<char>, Seq<u8>>,
)
    requires
        distinct_member_keys(members),
        forall|i: int|
            0 <= i < members.len() ==> m.contains_key(#[trigger] members[i].0)
                && json_value_bytes(members[i].1) == Some(m[members[i].0]),
    ensures
        decoded_members(members) == Some(
            Seq::new(members.len(), |i: int| (members[i].0, m[members[i].0])),
        ),
    decreases members.len(),
{
    let whole = Seq::new(members.len(), |i: int| (members[i].0, m[members[i].0]));
    if members.len() > 0 {
        let rest = members.drop_last();
        let last = members.last();
        assert forall|i: int| 0 <= i < rest.len() implies rest[i] == members[i] by {}
        lemma_decoded_distinct(rest, m);
        let e = Seq::new(rest.len(), |i: int| (rest[i].0, m[rest[i].0]));
        if has_key(e, last.0) {
            let p = position(e, last.0);
            assert(e[p].0 == last.0);
            assert(members[p].0 != members[members.len() - 1].0);
        }
        assert(whole =~= e.push((last.0, m[last.0])));
    } else {
        assert(whole =~= Seq::empty());
    }
}

/// What was flushed is what is opened. Let a store with the entries `s` be flushed and
/// give `text`. Where `serde_json` reads back what it wrote, each value and the object
/// as a whole, a store opened on `text` holds the mapping of `s`: under each key the
/// value that was stored, and no other key.
pub proof fn lemma_flushed_text_reopens(s: Seq<Entry>, text: Seq<u8>)
    requires
        unique_keys(s),
        map_text(entry_map(s)) == Some(text),
        values_read_back(entry_map(s)),
        object_reads_back(object_of(entry_map(s)), text),
    ensures
        text_entries(text).is_ok(),
        unique_keys(text_entries(text).unwrap()),
        entry_map(text_entries(text).unwrap()) == entry_map(s),
{
    let m = entry_map(s);
    let object = object_of(m);
    let members = json_document(text).unwrap()->Object_0;
    assert(member_map(members) == object);
    assert forall|i: int| 0 <= i < members.len() implies m.contains_key(#[trigger] members[i].0)
        && json_value_bytes(members[i].1) == Some(m[members[i].0]) by {
        let key = members[i].0;
        assert(member_map(members).contains_key(key));
        let c = choose|c: int| 0 <= c < members.len() && #[trigger] members[c].0 == key;
        if c < i {
            assert(members[c].0 != members[i].0);
        } else if i < c {
            assert(members[i].0 != members[c].0);
        }
        assert(member_map(members)[key] == members[i].1);
        assert(object.contains_key(key));
        assert(object[key] == json_bytes_value(m[key]));
    }
    lemma_decoded_distinct(members, m);
    let e = Seq::new(members.len(), |i: int| (members[i].0, m[members[i].0]));
    assert(text_entries(text) == loaded(e));
    assert(unique_keys(e));
    assert forall|key: Seq<char>| has_key(e, key) == m.contains_key(key) by {
        if has_key(e, key) {
            let p = position(e, key);
            assert(e[p].0 == key);
            assert(members[p].0 == key);
        }
        if m.contains_key(key) {
            assert(object.contains_key(key));
            assert(member_map(members).contains_key(key));
            let c = choose|c: int| 0 <= c < members.len() && #[trigger] members[c].0 == key;
            assert(e[c].0 == key);
        }
    }
    assert forall|key: Seq<char>| has_key(e, key) implies #[trigger] entry_map(e)[key]
        == m[key] by {
        let p = position(e, key);
        assert(e[p].0 == key);
    }
    assert(entry_map(e) =~= m);
}

} // verus!
