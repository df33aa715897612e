//! The order that a list of criteria puts on entries, and the stable sort by it.

use crate::bytes::{
    compare_bytes, lemma_lex_asymmetric, lemma_lex_total, lemma_lex_transitive,
    lemma_relation_reversed, relation, Relation,
};
use crate::entries::{entries_view, key_bytes, lemma_take_first, Entry};
use crate::query::Order;
use vstd::prelude::*;

verus! {

/// How `a` stands to `b` under one criterion.
pub open spec fn order_relation(order: Order, a: Entry, b: Entry) -> Relation {
    match order {
        Order::ByValueAsc => relation(a.1, b.1),
        Order::ByValueDesc => relation(b.1, a.1),
        Order::ByKeyAsc => relation(key_bytes(a.0), key_bytes(b.0)),
        Order::ByKeyDesc => relation(key_bytes(b.0), key_bytes(a.0)),
    }
}

/// How `a` stands to `b` under a list of criteria: as under the first criterion that
/// tells them apart, and `Same` where none does.
pub open spec fn chain_relation(orders: Seq<Order>, a: Entry, b: Entry) -> Relation
    decreases orders.len(),
{
    if orders.len() == 0 {
        Relation::Same
    } else {
        match order_relation(orders[0], a, b) {
            Relation::Same => chain_relation(orders.drop_first(), a, b),
            found => found,
        }
    }
}

/// `s` with `e` put behind the last entry that does not come after it. On a sorted `s`
/// the result is sorted, and `e` stands behind the entries that rank with it.
pub open spec fn insert_sorted(s: Seq<Entry>, e: Entry, orders: Seq<Order>) -> Seq<Entry>
    decreases s.len(),
{
    if s.len() > 0 && chain_relation(orders, s.last(), e) == Relation::After {
        insert_sorted(s.drop_last(), e, orders).push(s.last())
    } else {
        s.push(e)
    }
}

/// The entries of `s` sorted by `orders`, entries that rank the same staying in the
/// order they have in `s`.
pub open spec fn stable_sort(s: Seq<Entry>, orders: Seq<Order>) -> Seq<Entry>
    decreases s.len(),
{
    if s.len() == 0 {
        s
    } else {
        insert_sorted(stable_sort(s.drop_last(), orders), s.last(), orders)
    }
}

/// No entry of `s` comes after a later one.
pub open spec fn sorted_by(s: Seq<Entry>, orders: Seq<Order>) -> bool {
    forall|i: int, j: int|
        0 <= i < j < s.len() ==> chain_relation(orders, s[i], s[j]) != Relation::After
}

proof fn lemma_relation_transitive(a: Seq<u8>, b: Seq<u8>, c: Seq<u8>)
    ensures
        relation(a, b) == Relation::Same ==> relation(a, c) == relation(b, c),
        relation(b, c) == Relation::Same ==> relation(a, c) == relation(a, b),
        relation(a, b) == Relation::Before && relation(b, c) == Relation::Before ==> relation(a, c)
            == Relation::Before,
        relation(a, b) == Relation::After && relation(b, c) == Relation::After ==> relation(a, c)
            == Relation::After,
{
    if relation(a, b) == Relation::Before && relation(b, c) == Relation::Before {
        lemma_lex_transitive(a, b, c);
        lemma_lex_asymmetric(a, c);
    }
    if relation(a, b) == Relation::After && relation(b, c) == Relation::After {
        lemma_lex_total(a, b);
        lemma_lex_total(b, c);
        lemma_lex_transitive(c, b, a);
        lemma_lex_asymmetric(c, a);
    }
}

proof fn lemma_order_transitive(order: Order, a: Entry, b: Entry, c: Entry)
    ensures
        order_relation(order, a, b) == Relation::Same ==> order_relation(order, a, c)
            == order_relation(order, b, c),
        order_relation(order, b, c) == Relation::Same ==> order_relation(order, a, c)
            == order_relation(order, a, b),
        order_relation(order, a, b) == Relation::Before && order_relation(order, b, c)
            == Relation::Before ==> order_relation(order, a, c) == Relation::Before,
        order_relation(order, a, b) == Relation::After && order_relation(order, b, c)
            == Relation::After ==> order_relation(order, a, c) == Relation::After,
{
    match order {
        Order::ByValueAsc => lemma_relation_transitive(a.1, b.1, c.1),
        Order::ByValueDesc => lemma_relation_transitive(c.1, b.1, a.1),
        Order::ByKeyAsc => lemma_relation_transitive(key_bytes(a.0), key_bytes(b.0), key_bytes(c.0)),
        Order::ByKeyDesc => lemma_relation_transitive(
            key_bytes(c.0),
            key_bytes(b.0),
            key_bytes(a.0),
        ),
    }
}

/// Seen from the other side, the relation under a list of criteria is reversed.
pub proof fn lemma_chain_reversed(orders: Seq<Order>, a: Entry, b: Entry)
    ensures
        chain_relation(orders, b, a) == chain_relation(orders, a, b).reversed(),
    decreases orders.len(),
{
    if orders.len() > 0 {
        lemma_relation_reversed(a.1, b.1);
        lemma_relation_reversed(b.1, a.1);
        lemma_relation_reversed(key_bytes(a.0), key_bytes(b.0));
        lemma_relation_reversed(key_bytes(b.0), key_bytes(a.0));
        lemma_chain_reversed(orders.drop_first(), a, b);
    }
}

/// The relation under a list of criteria is that of a total preorder: it passes
/// through entries that rank the same, and `Before` and `After` are transitive.
pub proof fn lemma_chain_transitive(orders: Seq<Order>, a: Entry, b: Entry, c: Entry)
    ensures
        chain_relation(orders, a, b) == Relation::Same ==> chain_relation(orders, a, c)
            == chain_relation(orders, b, c),
        chain_relation(orders, b, c) == Relation::Same ==> chain_relation(orders, a, c)
            == chain_relation(orders, a, b),
        chain_relation(orders, a, b) == Relation::Before && chain_relation(orders, b, c)
            == Relation::Before ==> chain_relation(orders, a, c) == Relation::Before,
        chain_relation(orders, a, b) == Relation::After && chain_relation(orders, b, c)
            == Relation::After ==> chain_relation(orders, a, c) == Relation::After,
    decreases orders.len(),
{
    if orders.len() > 0 {
        lemma_order_transitive(orders[0], a, b, c);
        lemma_chain_transitive(orders.drop_first(), a, b, c);
    }
}

/// Of three entries, where the first does not come after the second nor the second
/// after the third, the first does not come after the third.
pub proof fn lemma_not_after_transitive(orders: Seq<Order>, a: Entry, b: Entry, c: Entry)
    requires
        chain_relation(orders, a, b) != Relation::After,
        chain_relation(orders, b, c) != Relation::After,
    ensures
        chain_relation(orders, a, c) != Relation::After,
{
    lemma_chain_transitive(orders, a, b, c);
}

/// Putting an entry into a list keeps the list's length plus one, and where `e` goes
/// in at position `at`, the result is the list with `e` inserted there.
pub proof fn lemma_insert_sorted_at(s: Seq<Entry>, e: Entry, orders: Seq<Order>, at: int)
    requires
        0 <= at <= s.len(),
        forall|k: int| at <= k < s.len() ==> chain_relation(orders, s[k], e) == Relation::After,
        at > 0 ==> chain_relation(orders, s[at - 1], e) != Relation::After,
    ensures
        insert_sorted(s, e, orders) == s.insert(at, e),
    decreases s.len(),
{
    if at == s.len() {
        assert(s.insert(at, e) =~= s.push(e));
    } else {
        lemma_insert_sorted_at(s.drop_last(), e, orders, at);
        assert(s.drop_last().insert(at, e).push(s.last()) =~= s.insert(at, e));
    }
}

/// The position at which `insert_sorted` puts `e`.
pub open spec fn insert_position(s: Seq<Entry>, e: Entry, orders: Seq<Order>) -> int
    decreases s.len(),
{
    if s.len() > 0 && chain_relation(orders, s.last(), e) == Relation::After {
        insert_position(s.drop_last(), e, orders)
    } else {
        s.len() as int
    }
}

proof fn lemma_insert_position(s: Seq<Entry>, e: Entry, orders: Seq<Order>)
    ensures
        0 <= insert_position(s, e, orders) <= s.len(),
        forall|k: int|
            insert_position(s, e, orders) <= k < s.len() ==> chain_relation(orders, s[k], e)
                == Relation::After,
        insert_position(s, e, orders) > 0 ==> chain_relation(
            orders,
            s[insert_position(s, e, orders) - 1],
            e,
        ) != Relation::After,
        insert_sorted(s, e, orders) == s.insert(insert_position(s, e, orders), e),
    decreases s.len(),
{
    let at = insert_position(s, e, orders);
    if s.len() > 0 && chain_relation(orders, s.last(), e) == Relation::After {
        lemma_insert_position(s.drop_last(), e, orders);
        assert forall|k: int| at <= k < s.len() implies chain_relation(orders, s[k], e)
            == Relation::After by {
            if k < s.len() - 1 {
                assert(s[k] == s.drop_last()[k]);
            }
        }
        if at > 0 {
            assert(s[at - 1] == s.drop_last()[at - 1]);
        }
    }
    lemma_insert_sorted_at(s, e, orders, at);
}

/// Putting an entry into a sorted list gives a sorted list.
pub proof fn lemma_insert_sorted_keeps_sorted(s: Seq<Entry>, e: Entry, orders: Seq<Order>)
    requires
        sorted_by(s, orders),
    ensures
        sorted_by(insert_sorted(s, e, orders), orders),
{
    let at = insert_position(s, e, orders);
    lemma_insert_position(s, e, orders);
    let t = insert_sorted(s, e, orders);
    assert forall|i: int, j: int| 0 <= i < j < t.len() implies chain_relation(orders, t[i], t[j])
        != Relation::After by {
        if j == at {
            // t[i] is s[i] with i < at, and s[at - 1] does not come after e.
            if i < at - 1 {
                lemma_not_after_transitive(orders, s[i], s[at - 1], e);
            }
        } else if i == at {
            // t[j] is s[j - 1], which comes after e.
            lemma_chain_reversed(orders, s[j - 1], e);
        } else {
            let si = if i < at { i } else { i - 1 };
            let sj = if j < at { j } else { j - 1 };
            assert(t[i] == s[si] && t[j] == s[sj]);
        }
    }
}

/// The stable sort of a list is sorted.
pub proof fn lemma_stable_sort_sorted(s: Seq<Entry>, orders: Seq<Order>)
    ensures
        sorted_by(stable_sort(s, orders), orders),
    decreases s.len(),
{
    if s.len() > 0 {
        lemma_stable_sort_sorted(s.drop_last(), orders);
        lemma_insert_sorted_keeps_sorted(stable_sort(s.drop_last(), orders), s.last(), orders);
    }
}

/// The stable sort of a list holds the entries of the list, each as often as the list.
pub proof fn lemma_stable_sort_permutes(s: Seq<Entry>, orders: Seq<Order>)
    ensures
        stable_sort(s, orders).len() == s.len(),
        stable_sort(s, orders).to_multiset() == s.to_multiset(),
    decreases s.len(),
{
    broadcast use vstd::seq_lib::to_multiset_build, vstd::seq_lib::to_multiset_insert;

    if s.len() > 0 {
        let rest = s.drop_last();
        lemma_stable_sort_permutes(rest, orders);
        let sorted = stable_sort(rest, orders);
        lemma_insert_position(sorted, s.last(), orders);
        let at = insert_position(sorted, s.last(), orders);
        assert(sorted.insert(at, s.last()).to_multiset() == sorted.to_multiset().insert(s.last()));
        assert(rest.push(s.last()) =~= s);
        assert(rest.push(s.last()).to_multiset() == rest.to_multiset().insert(s.last()));
    }
}

/// Whether `x` ranks the same as `e`.
pub open spec fn ranks_with(orders: Seq<Order>, e: Entry, x: Entry) -> bool {
    chain_relation(orders, x, e) == Relation::Same
}

proof fn lemma_filter_none(s: Seq<Entry>, pred: spec_fn(Entry) -> bool)
    requires
        forall|k: int| 0 <= k < s.len() ==> !pred(#[trigger] s[k]),
    ensures
        s.filter(pred) == Seq::<Entry>::empty(),
    decreases s.len(),
{
    if s.len() > 0 {
        let rest = s.drop_last();
        assert forall|k: int| 0 <= k < rest.len() implies !pred(#[trigger] rest[k]) by {
            assert(rest[k] == s[k]);
        }
        lemma_filter_none(rest, pred);
        rest.lemma_filter_push(s.last(), pred);
        assert(rest.push(s.last()) =~= s);
    } else {
        s.lemma_filter_len(pred);
        assert(s.filter(pred) =~= Seq::<Entry>::empty());
    }
}

/// The sort is stable: the entries that rank the same as a given entry stand in the
/// sorted list in the order in which they stand in the list itself.
pub proof fn lemma_stable_sort_stable(s: Seq<Entry>, orders: Seq<Order>, e: Entry)
    ensures
        stable_sort(s, orders).filter(|x: Entry| ranks_with(orders, e, x)) == s.filter(
            |x: Entry| ranks_with(orders, e, x),
        ),
    decreases s.len(),
{
    let pred = |x: Entry| ranks_with(orders, e, x);
    if s.len() > 0 {
        let rest = s.drop_last();
        let x = s.last();
        lemma_stable_sort_stable(rest, orders, e);
        let t = stable_sort(rest, orders);
        lemma_insert_position(t, x, orders);
        let at = insert_position(t, x, orders);
        let head = t.subrange(0, at);
        let tail = t.subrange(at, t.len() as int);
        assert(t =~= head + tail);
        assert(t.insert(at, x) =~= head.push(x) + tail);
        Seq::filter_distributes_over_add(head, tail, pred);
        Seq::filter_distributes_over_add(head.push(x), tail, pred);
        head.lemma_filter_push(x, pred);
        rest.lemma_filter_push(x, pred);
        assert(rest.push(x) =~= s);
        if pred(x) {
            assert forall|k: int| 0 <= k < tail.len() implies !pred(#[trigger] tail[k]) by {
                assert(tail[k] == t[at + k]);
                lemma_chain_transitive(orders, tail[k], x, e);
            }
            lemma_filter_none(tail, pred);
            assert(head.filter(pred).push(x) + Seq::<Entry>::empty() =~= (head.filter(pred)
                + Seq::<Entry>::empty()).push(x));
        }
    }
}

/// Compares two entries under one criterion.
pub fn compare_by(order: Order, a: &(String, Vec<u8>), b: &(String, Vec<u8>)) -> (r: Relation)
    ensures
        r == order_relation(order, (a.0@, a.1@), (b.0@, b.1@)),
{
    match order {
        Order::ByValueAsc => compare_bytes(a.1.as_slice(), b.1.as_slice()),
        Order::ByValueDesc => compare_bytes(b.1.as_slice(), a.1.as_slice()),
        Order::ByKeyAsc => compare_bytes(a.0.as_str().as_bytes(), b.0.as_str().as_bytes()),
        Order::ByKeyDesc => compare_bytes(b.0.as_str().as_bytes(), a.0.as_str().as_bytes()),
    }
}

/// Compares two entries under a list of criteria, the first criterion counting most.
pub fn compare_entries(orders: &Vec<Order>, a: &(String, Vec<u8>), b: &(String, Vec<u8>)) -> (r:
    Relation)
    ensures
        r == chain_relation(orders@, (a.0@, a.1@), (b.0@, b.1@)),
{
    let ghost ea = (a.0@, a.1@);
    let ghost eb = (b.0@, b.1@);
    let mut i: usize = 0;
    assert(orders@.subrange(0, orders.len() as int) =~= orders@);
    while i < orders.len()
        invariant
            i <= orders.len(),
            ea == (a.0@, a.1@),
            eb == (b.0@, b.1@),
            chain_relation(orders@, ea, eb) == chain_relation(
                orders@.subrange(i as int, orders.len() as int),
                ea,
                eb,
            ),
        decreases orders.len() - i,
    {
        let ghost tail = orders@.subrange(i as int, orders.len() as int);
        let found = compare_by(orders[i], a, b);
        proof {
            assert(tail[0] == orders@[i as int]);
            assert(tail.drop_first() =~= orders@.subrange(i + 1, orders.len() as int));
        }
        match found {
            Relation::Same => {},
            _ => {
                return found;
            },
        }
        i += 1;
    }
    Relation::Same
}

/// Sorts the entries by `orders`. The sort is stable: entries that rank the same keep
/// the order in which they came.
pub fn naive_apply_ordered(entries: Vec<(String, Vec<u8>)>, orders: &Vec<Order>) -> (r: Vec<
    (String, Vec<u8>),
>)
    ensures
        entries_view(r@) == stable_sort(entries_view(entries@), orders@),
{
    let ghost all = entries_view(entries@);
    let mut rest = entries;
    let mut r: Vec<(String, Vec<u8>)> = Vec::new();
    while rest.len() > 0
        invariant
            rest.len() <= all.len(),
            entries_view(rest@) == all.subrange(all.len() - rest.len(), all.len() as int),
            entries_view(r@) == stable_sort(all.subrange(0, all.len() - rest.len()), orders@),
        decreases rest.len(),
    {
        let ghost sorted = entries_view(r@);
        let ghost rest_before = entries_view(rest@);
        let e = rest.remove(0);
        let ghost ev = (e.0@, e.1@);
        proof {
            assert(entries_view(rest@) =~= rest_before.drop_first());
            lemma_take_first(all, rest_before, entries_view(rest@));
        }
        let mut at: usize = r.len();
        while at > 0 && compare_entries(orders, &r[at - 1], &e) == Relation::After
            invariant
                at <= r.len(),
                sorted == entries_view(r@),
                ev == (e.0@, e.1@),
                forall|k: int|
                    at <= k < sorted.len() ==> chain_relation(orders@, sorted[k], ev)
                        == Relation::After,
            decreases at,
        {
            at -= 1;
        }
        proof {
            lemma_insert_sorted_at(sorted, ev, orders@, at as int);
        }
        r.insert(at, e);
        assert(entries_view(r@) =~= sorted.insert(at as int, ev));
    }
    assert(all.subrange(0, all.len() as int) =~= all);
    r
}

} // verus!
