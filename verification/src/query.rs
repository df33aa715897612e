//! Queries over entries: what a query asks for, and the stages that answer it.

use crate::bytes::{bytes_start_with, compare_bytes, relation, starts_with, Relation};
use crate::entries::{entries_view, key_bytes, lemma_filter_next, Entry};
use crate::sort::{naive_apply_ordered, stable_sort};
use vstd::prelude::*;

verus! {

/// The comparison that a filter makes.
#[derive(Clone, Copy, Debug, PartialEq, Eq, Structural)]
pub enum FilterOp {
    Equal,
    NotEqual,
    Less,
    LessOrEqual,
    Greater,
    GreaterOrEqual,
}

/// What a filter compares, together with the literal it compares against.
#[derive(Debug)]
pub enum FilterTy {
    /// Compares the key of an entry with the given key.
    KeyCompare(String),
    /// Compares the value of an entry with the given value.
    ValueCompare(Vec<u8>),
}

/// A condition that an entry has to meet to be part of a query's answer.
#[derive(Debug)]
pub struct Filter {
    pub ty: FilterTy,
    pub operation: FilterOp,
}

/// A criterion by which the answer is sorted.
#[derive(Clone, Copy, Debug, PartialEq, Eq, Structural)]
pub enum Order {
    ByValueAsc,
    ByValueDesc,
    ByKeyAsc,
    ByKeyDesc,
}

/// A description of the entries to return. It holds no data of the store.
#[derive(Debug)]
pub struct Query {
    /// Only entries whose key starts with this are returned.
    pub prefix: String,
    /// Conditions that all have to hold of a returned entry.
    pub filters: Vec<Filter>,
    /// Sort criteria, the most important first; a later one breaks the ties of those before it.
    pub orders: Vec<Order>,
    /// How many entries of the sorted answer are left out at its start.
    pub skip: u64,
    /// The greatest number of entries to return.
    pub limit: u64,
    /// Whether values are left out of the answer, each replaced by the empty value.
    pub keys_only: bool,
}

/// The mathematical value of a [`FilterTy`].
pub enum FilterTyView {
    KeyCompare(Seq<char>),
    ValueCompare(Seq<u8>),
}

/// The mathematical value of a [`Filter`].
pub struct FilterView {
    pub ty: FilterTyView,
    pub operation: FilterOp,
}

/// The mathematical value of a [`Query`].
pub struct QueryView {
    pub prefix: Seq<char>,
    pub filters: Seq<FilterView>,
    pub orders: Seq<Order>,
    pub skip: nat,
    pub limit: nat,
    pub keys_only: bool,
}

impl View for FilterTy {
    type V = FilterTyView;

    open spec fn view(&self) -> FilterTyView {
        match self {
            FilterTy::KeyCompare(key) => FilterTyView::KeyCompare(key@),
            FilterTy::ValueCompare(value) => FilterTyView::ValueCompare(value@),
        }
    }
}

impl View for Filter {
    type V = FilterView;

    open spec fn view(&self) -> FilterView {
        FilterView { ty: self.ty@, operation: self.operation }
    }
}

/// The filters that a vector of them holds.
pub open spec fn filters_view(filters: Seq<Filter>) -> Seq<FilterView> {
    Seq::new(filters.len(), |i: int| filters[i]@)
}

impl View for Query {
    type V = QueryView;

    open spec fn view(&self) -> QueryView {
        QueryView {
            prefix: self.prefix@,
            filters: filters_view(self.filters@),
            orders: self.orders@,
            skip: self.skip as nat,
            limit: self.limit as nat,
            keys_only: self.keys_only,
        }
    }
}

/// Whether the key of `e` starts with `prefix`, both taken as UTF-8 bytes.
pub open spec fn has_prefix(prefix: Seq<char>, e: Entry) -> bool {
    starts_with(key_bytes(e.0), key_bytes(prefix))
}

/// Whether a comparison holds of two values that stand in relation `r`.
pub open spec fn op_holds(op: FilterOp, r: Relation) -> bool {
    match op {
        FilterOp::Equal => r == Relation::Same,
        FilterOp::NotEqual => r != Relation::Same,
        FilterOp::Less => r == Relation::Before,
        FilterOp::LessOrEqual => r != Relation::After,
        FilterOp::Greater => r == Relation::After,
        FilterOp::GreaterOrEqual => r != Relation::Before,
    }
}

/// Whether `e` meets the filter: its key or value, on the left, compared with the
/// filter's literal, on the right.
pub open spec fn filter_holds(f: FilterView, e: Entry) -> bool {
    match f.ty {
        FilterTyView::KeyCompare(key) => op_holds(
            f.operation,
            relation(key_bytes(e.0), key_bytes(key)),
        ),
        FilterTyView::ValueCompare(value) => op_holds(f.operation, relation(e.1, value)),
    }
}

/// Whether `e` meets every filter.
pub open spec fn filters_hold(filters: Seq<FilterView>, e: Entry) -> bool {
    forall|i: int| 0 <= i < filters.len() ==> filter_holds(#[trigger] filters[i], e)
}

/// The entries of `s` whose key starts with `prefix`, in their order.
pub open spec fn with_prefix(s: Seq<Entry>, prefix: Seq<char>) -> Seq<Entry> {
    s.filter(|e: Entry| has_prefix(prefix, e))
}

/// The entries of `s` that meet every filter, in their order.
pub open spec fn filtered(s: Seq<Entry>, filters: Seq<FilterView>) -> Seq<Entry> {
    s.filter(|e: Entry| filters_hold(filters, e))
}

/// A copy of a byte string.
pub fn copy_bytes(v: &Vec<u8>) -> (r: Vec<u8>)
    ensures
        r@ == v@,
{
    let mut r: Vec<u8> = Vec::new();
    let mut i: usize = 0;
    while i < v.len()
        invariant
            i <= v.len(),
            r@ == v@.subrange(0, i as int),
        decreases v.len() - i,
    {
        r.push(v[i]);
        assert(v@.subrange(0, i + 1) =~= v@.subrange(0, i as int).push(v@[i as int]));
        i += 1;
    }
    assert(v@.subrange(0, v.len() as int) =~= v@);
    r
}

/// A copy of an entry.
pub fn copy_entry(e: &(String, Vec<u8>)) -> (r: (String, Vec<u8>))
    ensures
        r.0@ == e.0@,
        r.1@ == e.1@,
{
    (e.0.clone(), copy_bytes(&e.1))
}

/// Appends a copy of an entry.
fn push_copy(r: &mut Vec<(String, Vec<u8>)>, e: &(String, Vec<u8>))
    ensures
        entries_view(final(r)@) == entries_view(old(r)@).push((e.0@, e.1@)),
{
    let ghost before = entries_view(r@);
    r.push(copy_entry(e));
    assert(entries_view(r@) =~= before.push((e.0@, e.1@)));
}

/// Keeps the entries whose key starts with `prefix`.
pub fn naive_apply_prefix(entries: &Vec<(String, Vec<u8>)>, prefix: &str) -> (r: Vec<
    (String, Vec<u8>),
>)
    ensures
        entries_view(r@) == with_prefix(entries_view(entries@), prefix@),
{
    let ghost all = entries_view(entries@);
    let ghost pred = |e: Entry| has_prefix(prefix@, e);
    let mut r: Vec<(String, Vec<u8>)> = Vec::new();
    let mut i: usize = 0;
    while i < entries.len()
        invariant
            i <= entries.len(),
            all == entries_view(entries@),
            pred == |e: Entry| has_prefix(prefix@, e),
            entries_view(r@) == all.subrange(0, i as int).filter(pred),
        decreases entries.len() - i,
    {
        proof {
            lemma_filter_next(all, i as int, pred);
        }
        if bytes_start_with(entries[i].0.as_str().as_bytes(), prefix.as_bytes()) {
            push_copy(&mut r, &entries[i]);
        }
        i += 1;
    }
    assert(all.subrange(0, entries.len() as int) =~= all);
    r
}

/// Tells whether an entry meets a filter.
pub fn naive_filter_test(entry: &(String, Vec<u8>), filter: &Filter) -> (r: bool)
    ensures
        r == filter_holds(filter@, (entry.0@, entry.1@)),
{
    let found = match &filter.ty {
        FilterTy::KeyCompare(key) => compare_bytes(
            entry.0.as_str().as_bytes(),
            key.as_str().as_bytes(),
        ),
        FilterTy::ValueCompare(value) => compare_bytes(entry.1.as_slice(), value.as_slice()),
    };
    match filter.operation {
        FilterOp::Equal => found == Relation::Same,
        FilterOp::NotEqual => found != Relation::Same,
        FilterOp::Less => found == Relation::Before,
        FilterOp::LessOrEqual => found != Relation::After,
        FilterOp::Greater => found == Relation::After,
        FilterOp::GreaterOrEqual => found != Relation::Before,
    }
}

/// Tells whether an entry meets every filter.
pub fn passes_filters(entry: &(String, Vec<u8>), filters: &Vec<Filter>) -> (r: bool)
    ensures
        r == filters_hold(filters_view(filters@), (entry.0@, entry.1@)),
{
    let mut i: usize = 0;
    while i < filters.len()
        invariant
            i <= filters.len(),
            forall|j: int|
                0 <= j < i ==> filter_holds(
                    #[trigger] filters_view(filters@)[j],
                    (entry.0@, entry.1@),
                ),
        decreases filters.len() - i,
    {
        if !naive_filter_test(entry, &filters[i]) {
            assert(filters_view(filters@)[i as int] == filters[i as int]@);
            return false;
        }
        assert(filters_view(filters@)[i as int] == filters[i as int]@);
        i += 1;
    }
    true
}

/// Keeps the entries that meet every filter.
pub fn naive_apply_filters(entries: &Vec<(String, Vec<u8>)>, filters: &Vec<Filter>) -> (r: Vec<
    (String, Vec<u8>),
>)
    ensures
        entries_view(r@) == filtered(entries_view(entries@), filters_view(filters@)),
{
    let ghost all = entries_view(entries@);
    let ghost pred = |e: Entry| filters_hold(filters_view(filters@), e);
    let mut r: Vec<(String, Vec<u8>)> = Vec::new();
    let mut i: usize = 0;
    while i < entries.len()
        invariant
            i <= entries.len(),
            all == entries_view(entries@),
            pred == |e: Entry| filters_hold(filters_view(filters@), e),
            entries_view(r@) == all.subrange(0, i as int).filter(pred),
        decreases entries.len() - i,
    {
        proof {
            lemma_filter_next(all, i as int, pred);
        }
        if passes_filters(&entries[i], filters) {
            push_copy(&mut r, &entries[i]);
        }
        i += 1;
    }
    assert(all.subrange(0, entries.len() as int) =~= all);
    r
}

/// What is left of `s` after its first `skip` entries are dropped and at most `limit`
/// of the others are kept.
pub open spec fn page(s: Seq<Entry>, skip: nat, limit: nat) -> Seq<Entry> {
    let start = if skip < s.len() {
        skip
    } else {
        s.len()
    };
    let end = if start + limit < s.len() {
        start + limit
    } else {
        s.len()
    };
    s.subrange(start as int, end as int)
}

/// The entries of `s`, each with the empty value in place of its own where `keys_only`
/// is set.
pub open spec fn projected(s: Seq<Entry>, keys_only: bool) -> Seq<Entry> {
    if keys_only {
        Seq::new(s.len(), |i: int| (s[i].0, Seq::<u8>::empty()))
    } else {
        s
    }
}

/// The answer to a query over the entries `s`: the entries with the prefix that meet
/// the filters, sorted, cut to the page asked for, and stripped of their values where
/// only keys are asked for.
pub open spec fn evaluate(s: Seq<Entry>, q: QueryView) -> Seq<Entry> {
    projected(
        page(
            stable_sort(filtered(with_prefix(s, q.prefix), q.filters), q.orders),
            q.skip,
            q.limit,
        ),
        q.keys_only,
    )
}

/// The query `q`, asking for values as well as keys.
pub open spec fn with_values(q: QueryView) -> QueryView {
    QueryView { keys_only: false, ..q }
}

/// Drops the first `skip` entries, then keeps at most `limit` of the others.
pub fn naive_apply_skip_limit(entries: Vec<(String, Vec<u8>)>, skip: u64, limit: u64) -> (r: Vec<
    (String, Vec<u8>),
>)
    ensures
        entries_view(r@) == page(entries_view(entries@), skip as nat, limit as nat),
{
    let ghost all = entries_view(entries@);
    let len: usize = entries.len();
    let start: usize = if skip < len as u64 {
        skip as usize
    } else {
        len
    };
    let end: usize = if limit < (len - start) as u64 {
        start + limit as usize
    } else {
        len
    };
    let mut head = entries;
    head.truncate(end);
    let r = head.split_off(start);
    assert(entries_view(r@) =~= all.subrange(start as int, end as int));
    r
}

/// Where `keys_only` is set, replaces every value by the empty value.
pub fn naive_apply_keys_only(entries: Vec<(String, Vec<u8>)>, keys_only: bool) -> (r: Vec<
    (String, Vec<u8>),
>)
    ensures
        entries_view(r@) == projected(entries_view(entries@), keys_only),
{
    if !keys_only {
        return entries;
    }
    let ghost all = entries_view(entries@);
    let mut r: Vec<(String, Vec<u8>)> = Vec::new();
    let mut i: usize = 0;
    while i < entries.len()
        invariant
            i <= entries.len(),
            all == entries_view(entries@),
            r.len() == i,
            forall|j: int|
                0 <= j < i ==> #[trigger] r[j].0@ == all[j].0 && r[j].1@ == Seq::<u8>::empty(),
        decreases entries.len() - i,
    {
        r.push((entries[i].0.clone(), Vec::new()));
        i += 1;
    }
    assert(entries_view(r@) =~= projected(all, true));
    r
}

/// Answers a query over the given entries.
pub fn naive_apply_query(entries: &Vec<(String, Vec<u8>)>, query: &Query) -> (r: Vec<
    (String, Vec<u8>),
>)
    ensures
        entries_view(r@) == evaluate(entries_view(entries@), query@),
{
    let chosen = naive_apply_prefix(entries, query.prefix.as_str());
    let kept = naive_apply_filters(&chosen, &query.filters);
    let sorted = naive_apply_ordered(kept, &query.orders);
    let cut = naive_apply_skip_limit(sorted, query.skip, query.limit);
    naive_apply_keys_only(cut, query.keys_only)
}

} // verus!
