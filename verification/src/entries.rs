//! Sequences of entries with pairwise different keys, and the mapping each one stands for.

use crate::bytes::{compare_bytes, Relation};
use vstd::prelude::*;
use vstd::utf8::{encode_utf8, encode_utf8_decode_utf8};

verus! {

/// An entry as a mathematical value: the characters of its key and the bytes of its value.
pub type Entry = (Seq<char>, Seq<u8>);

/// The bytes by which keys are compared: the UTF-8 encoding of their characters.
pub open spec fn key_bytes(key: Seq<char>) -> Seq<u8> {
    encode_utf8(key)
}

/// The entries that a vector of owned pairs holds.
pub open spec fn entries_view(v: Seq<(String, Vec<u8>)>) -> Seq<Entry> {
    Seq::new(v.len(), |i: int| (v[i].0@, v[i].1@))
}

/// Whether some entry of `s` has the key `key`.
pub open spec fn has_key(s: Seq<Entry>, key: Seq<char>) -> bool {
    exists|i: int| 0 <= i < s.len() && #[trigger] s[i].0 == key
}

/// A position at which `key` stands in `s`, if it stands anywhere.
pub open spec fn position(s: Seq<Entry>, key: Seq<char>) -> int {
    choose|i: int| 0 <= i < s.len() && #[trigger] s[i].0 == key
}

/// No key stands at two positions.
pub open spec fn unique_keys(s: Seq<Entry>) -> bool {
    forall|i: int, j: int| 0 <= i < j < s.len() ==> #[trigger] s[i].0 != #[trigger] s[j].0
}

/// The mapping that `s` stands for.
pub open spec fn entry_map(s: Seq<Entry>) -> Map<Seq<char>, Seq<u8>> {
    Map::new(|key: Seq<char>| has_key(s, key), |key: Seq<char>| s[position(s, key)].1)
}

/// `s` with `value` stored under `key`: in place where the key is present, at the end
/// where it is new.
pub open spec fn put_entry(s: Seq<Entry>, key: Seq<char>, value: Seq<u8>) -> Seq<Entry> {
    if has_key(s, key) {
        s.update(position(s, key), (key, value))
    } else {
        s.push((key, value))
    }
}

/// `s` without the entry of `key`.
pub open spec fn remove_entry(s: Seq<Entry>, key: Seq<char>) -> Seq<Entry> {
    if has_key(s, key) {
        s.remove(position(s, key))
    } else {
        s
    }
}

/// A list is worked through from its front: `left` is what is still to do of `all`,
/// and `rest` is `left` without its first element. That element is then the next of
/// `all`, `rest` is what is to do after it, and what is done grows by it.
pub proof fn lemma_take_first<A>(all: Seq<A>, left: Seq<A>, rest: Seq<A>)
    requires
        0 < left.len() <= all.len(),
        left == all.subrange(all.len() - left.len(), all.len() as int),
        rest == left.drop_first(),
    ensures
        left[0] == all[all.len() - left.len()],
        rest == all.subrange(all.len() - rest.len(), all.len() as int),
        all.subrange(0, all.len() - rest.len()).drop_last() == all.subrange(
            0,
            all.len() - left.len(),
        ),
        all.subrange(0, all.len() - rest.len()).last() == left[0],
{
    let done = all.len() - left.len();
    assert(rest =~= all.subrange(done + 1, all.len() as int));
    assert(all.subrange(0, done + 1).drop_last() =~= all.subrange(0, done));
}

/// Filtering one element more of a list: the element joins what was kept of those
/// before it where the condition holds of it, and is left out where not.
pub proof fn lemma_filter_next<A>(all: Seq<A>, i: int, pred: spec_fn(A) -> bool)
    requires
        0 <= i < all.len(),
    ensures
        all.subrange(0, i + 1).filter(pred) == if pred(all[i]) {
            all.subrange(0, i).filter(pred).push(all[i])
        } else {
            all.subrange(0, i).filter(pred)
        },
{
    assert(all.subrange(0, i + 1) =~= all.subrange(0, i).push(all[i]));
    all.subrange(0, i).lemma_filter_push(all[i], pred);
}

/// No entries stand for the empty mapping.
pub proof fn lemma_no_entries()
    ensures
        unique_keys(Seq::<Entry>::empty()),
        entry_map(Seq::<Entry>::empty()) =~= Map::empty(),
{
    let s = Seq::<Entry>::empty();
    assert forall|key: Seq<char>| !has_key(s, key) by {
        if has_key(s, key) {
            let p = position(s, key);
            assert(0 <= p < s.len());
        }
    }
    assert(entry_map(s) =~= Map::empty());
}

/// Where keys are unique, the position of a key is the one place where it stands.
pub proof fn lemma_position(s: Seq<Entry>, i: int)
    requires
        unique_keys(s),
        0 <= i < s.len(),
    ensures
        has_key(s, s[i].0),
        position(s, s[i].0) == i,
{
    let key = s[i].0;
    let p = position(s, key);
    assert(0 <= p < s.len() && s[p].0 == key);
    if p < i {
        assert(s[p].0 != s[i].0);
    } else if i < p {
        assert(s[i].0 != s[p].0);
    }
}

/// Storing under a key keeps keys unique and changes the mapping at that key alone.
pub proof fn lemma_put_entry(s: Seq<Entry>, key: Seq<char>, value: Seq<u8>)
    requires
        unique_keys(s),
    ensures
        unique_keys(put_entry(s, key, value)),
        entry_map(put_entry(s, key, value)) == entry_map(s).insert(key, value),
{
    let t = put_entry(s, key, value);
    if has_key(s, key) {
        let p = position(s, key);
        assert(0 <= p < s.len() && s[p].0 == key);
        assert forall|i: int| 0 <= i < s.len() implies #[trigger] t[i].0 == s[i].0 by {}
        assert(unique_keys(t));
        assert forall|k: Seq<char>| has_key(t, k) == has_key(s, k) by {
            if has_key(t, k) {
                let i = position(t, k);
                assert(s[i].0 == k);
            }
            if has_key(s, k) {
                let i = position(s, k);
                assert(t[i].0 == k);
            }
        }
        assert forall|k: Seq<char>| has_key(t, k) implies #[trigger] entry_map(t)[k] == entry_map(
            s,
        ).insert(key, value)[k] by {
            let i = position(t, k);
            assert(0 <= i < t.len() && t[i].0 == k);
            lemma_position(t, i);
            lemma_position(s, i);
            if k == key {
                lemma_position(s, p);
            }
        }
    } else {
        assert forall|i: int, j: int| 0 <= i < j < t.len() implies #[trigger] t[i].0
            != #[trigger] t[j].0 by {
            if j == s.len() {
                assert(s[i].0 != key);
            } else {
                assert(s[i].0 != s[j].0);
            }
        }
        assert(t[s.len() as int].0 == key);
        assert forall|k: Seq<char>| has_key(t, k) == (has_key(s, k) || k == key) by {
            if has_key(t, k) {
                let i = position(t, k);
                if i < s.len() {
                    assert(s[i].0 == k);
                }
            }
            if has_key(s, k) {
                let i = position(s, k);
                assert(t[i].0 == k);
            }
        }
        assert forall|k: Seq<char>| has_key(t, k) implies #[trigger] entry_map(t)[k] == entry_map(
            s,
        ).insert(key, value)[k] by {
            let i = position(t, k);
            assert(0 <= i < t.len() && t[i].0 == k);
            lemma_position(t, i);
            if i < s.len() {
                assert(s[i].0 == k);
                lemma_position(s, i);
            }
        }
    }
    assert(entry_map(t) =~= entry_map(s).insert(key, value));
}

/// Removing a key keeps keys unique and takes that key alone out of the mapping.
pub proof fn lemma_remove_entry(s: Seq<Entry>, key: Seq<char>)
    requires
        unique_keys(s),
    ensures
        unique_keys(remove_entry(s, key)),
        entry_map(remove_entry(s, key)) == entry_map(s).remove(key),
{
    let t = remove_entry(s, key);
    if has_key(s, key) {
        let p = position(s, key);
        assert(0 <= p < s.len() && s[p].0 == key);
        lemma_position(s, p);
        assert forall|i: int| 0 <= i < t.len() implies #[trigger] t[i] == s[if i < p {
            i
        } else {
            i + 1
        }] by {}
        assert forall|i: int, j: int| 0 <= i < j < t.len() implies #[trigger] t[i].0
            != #[trigger] t[j].0 by {
            let si = if i < p { i } else { i + 1 };
            let sj = if j < p { j } else { j + 1 };
            assert(t[i] == s[si] && t[j] == s[sj]);
            assert(s[si].0 != s[sj].0);
        }
        assert forall|k: Seq<char>| has_key(t, k) == (has_key(s, k) && k != key) by {
            if has_key(t, k) {
                let i = position(t, k);
                let si = if i < p { i } else { i + 1 };
                assert(t[i] == s[si]);
                assert(s[si].0 == k);
                if k == key {
                    lemma_position(s, si);
                }
            }
            if has_key(s, k) && k != key {
                let i = position(s, k);
                assert(i != p);
                let ti = if i < p { i } else { i - 1 };
                assert(t[ti] == s[i]);
                assert(t[ti].0 == k);
            }
        }
        assert forall|k: Seq<char>| has_key(t, k) implies #[trigger] entry_map(t)[k] == entry_map(
            s,
        ).remove(key)[k] by {
            let i = position(t, k);
            assert(0 <= i < t.len() && t[i].0 == k);
            lemma_position(t, i);
            let si = if i < p { i } else { i + 1 };
            assert(t[i] == s[si]);
            lemma_position(s, si);
        }
        assert(entry_map(t) =~= entry_map(s).remove(key));
    } else {
        assert(entry_map(s) =~= entry_map(s).remove(key));
    }
}

/// Two texts with the same UTF-8 encoding are the same text.
pub proof fn lemma_key_bytes_injective(a: Seq<char>, b: Seq<char>)
    requires
        key_bytes(a) == key_bytes(b),
    ensures
        a == b,
{
    encode_utf8_decode_utf8(a);
    encode_utf8_decode_utf8(b);
}

/// Tells whether two texts are equal.
pub fn same_text(a: &str, b: &str) -> (r: bool)
    ensures
        r == (a@ == b@),
{
    let r = compare_bytes(a.as_bytes(), b.as_bytes());
    proof {
        if key_bytes(a@) == key_bytes(b@) {
            lemma_key_bytes_injective(a@, b@);
        }
    }
    match r {
        Relation::Same => true,
        _ => false,
    }
}

/// Finds the position of `key` among the entries.
pub fn find_key(v: &Vec<(String, Vec<u8>)>, key: &str) -> (r: Option<usize>)
    ensures
        match r {
            Some(i) => i < v.len() && v[i as int].0@ == key@,
            None => !has_key(entries_view(v@), key@),
        },
{
    let mut i: usize = 0;
    while i < v.len()
        invariant
            i <= v.len(),
            forall|j: int| 0 <= j < i ==> v[j].0@ != key@,
        decreases v.len() - i,
    {
        if same_text(v[i].0.as_str(), key) {
            return Some(i);
        }
        i += 1;
    }
    proof {
        let s = entries_view(v@);
        if has_key(s, key@) {
            let p = position(s, key@);
            assert(s[p].0 == v[p].0@);
        }
    }
    None
}

/// Stores `value` under `key`: in place of the value that the key has, or as a new
/// entry at the end.
pub fn put_into(v: &mut Vec<(String, Vec<u8>)>, key: String, value: Vec<u8>)
    requires
        unique_keys(entries_view(old(v)@)),
    ensures
        unique_keys(entries_view(final(v)@)),
        entries_view(final(v)@) == put_entry(entries_view(old(v)@), key@, value@),
{
    let ghost before = entries_view(v@);
    proof {
        lemma_put_entry(before, key@, value@);
    }
    match find_key(v, key.as_str()) {
        Some(i) => {
            proof {
                assert(before[i as int].0 == key@);
                lemma_position(before, i as int);
            }
            v.set(i, (key, value));
            assert(entries_view(v@) =~= before.update(i as int, (key@, value@)));
        },
        None => {
            v.push((key, value));
            assert(entries_view(v@) =~= before.push((key@, value@)));
        },
    }
}

/// Takes the entry of `key` out, and returns its value where there was one.
pub fn remove_from(v: &mut Vec<(String, Vec<u8>)>, key: &str) -> (r: Option<Vec<u8>>)
    requires
        unique_keys(entries_view(old(v)@)),
    ensures
        unique_keys(entries_view(final(v)@)),
        entries_view(final(v)@) == remove_entry(entries_view(old(v)@), key@),
        match r {
            Some(value) => entry_map(entries_view(old(v)@)).contains_key(key@) && value@
                == entry_map(entries_view(old(v)@))[key@],
            None => !entry_map(entries_view(old(v)@)).contains_key(key@),
        },
{
    let ghost before = entries_view(v@);
    proof {
        lemma_remove_entry(before, key@);
    }
    match find_key(v, key) {
        Some(i) => {
            proof {
                assert(before[i as int].0 == key@);
                lemma_position(before, i as int);
            }
            let gone = v.remove(i);
            assert(entries_view(v@) =~= before.remove(i as int));
            Some(gone.1)
        },
        None => None,
    }
}

/// The value stored under `key`, where there is one.
pub fn value_of<'a>(v: &'a Vec<(String, Vec<u8>)>, key: &str) -> (r: Option<&'a Vec<u8>>)
    requires
        unique_keys(entries_view(v@)),
    ensures
        match r {
            Some(value) => entry_map(entries_view(v@)).contains_key(key@) && value@ == entry_map(
                entries_view(v@),
            )[key@],
            None => !entry_map(entries_view(v@)).contains_key(key@),
        },
{
    match find_key(v, key) {
        Some(i) => {
            proof {
                assert(entries_view(v@)[i as int].0 == key@);
                lemma_position(entries_view(v@), i as int);
            }
            Some(&v[i].1)
        },
        None => None,
    }
}

} // verus!
