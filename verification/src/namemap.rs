//! Specification of association lists from byte-string names to values,
//! kept sorted by name. The header maps of a message and of each MIME part,
//! and the attribute map of a Content-Type value, refine these definitions.

use vstd::prelude::*;

verus! {

use crate::bytestr::{lex_lt, lemma_lex_lt_total};

/// Entry names appear in strictly increasing lexicographic order
/// (which also makes them pairwise distinct).
pub open spec fn sorted_names<V>(s: Seq<(Seq<u8>, V)>) -> bool {
    forall|i: int, j: int|
        0 <= i < j < s.len() ==> lex_lt((#[trigger] s[i]).0, (#[trigger] s[j]).0)
}

/// Entry names appear in increasing order, with runs of equal names allowed.
pub open spec fn sorted_names_dup<V>(s: Seq<(Seq<u8>, V)>) -> bool {
    forall|i: int, j: int|
        0 <= i < j < s.len() ==> !lex_lt((#[trigger] s[j]).0, (#[trigger] s[i]).0)
}

/// Some entry is named `k`.
pub open spec fn has_name<V>(s: Seq<(Seq<u8>, V)>, k: Seq<u8>) -> bool {
    exists|i: int| 0 <= i < s.len() && (#[trigger] s[i]).0 == k
}

/// The value of the first entry named `k`.
pub open spec fn get_value<V>(s: Seq<(Seq<u8>, V)>, k: Seq<u8>) -> V
    decreases s.len(),
{
    if s.len() == 0 {
        arbitrary()
    } else if s[0].0 == k {
        s[0].1
    } else {
        get_value(s.drop_first(), k)
    }
}

/// `s` with the first entry named `k` replaced by `(k, v)`, or with `(k, v)`
/// placed at its sorted position if no entry is named `k`.
pub open spec fn insert_entry<V>(s: Seq<(Seq<u8>, V)>, k: Seq<u8>, v: V) -> Seq<(Seq<u8>, V)>
    decreases s.len(),
{
    if s.len() == 0 {
        seq![(k, v)]
    } else if s[0].0 == k {
        s.update(0, (k, v))
    } else if lex_lt(k, s[0].0) {
        seq![(k, v)] + s
    } else {
        seq![s[0]] + insert_entry(s.drop_first(), k, v)
    }
}

/// `s` with `(k, v)` placed after every entry whose name is not greater
/// than `k`; entries of equal name are kept, in insertion order.
pub open spec fn insert_entry_dup<V>(s: Seq<(Seq<u8>, V)>, k: Seq<u8>, v: V) -> Seq<(Seq<u8>, V)>
    decreases s.len(),
{
    if s.len() == 0 {
        seq![(k, v)]
    } else if lex_lt(k, s[0].0) {
        seq![(k, v)] + s
    } else {
        seq![s[0]] + insert_entry_dup(s.drop_first(), k, v)
    }
}

/// `s` without its first entry named `k`.
pub open spec fn remove_entry<V>(s: Seq<(Seq<u8>, V)>, k: Seq<u8>) -> Seq<(Seq<u8>, V)>
    decreases s.len(),
{
    if s.len() == 0 {
        s
    } else if s[0].0 == k {
        s.drop_first()
    } else {
        seq![s[0]] + remove_entry(s.drop_first(), k)
    }
}

/// A first match at position `i` fixes `has_name` and `get_value`.
pub proof fn lemma_first_match<V>(s: Seq<(Seq<u8>, V)>, k: Seq<u8>, i: int)
    requires
        0 <= i < s.len(),
        s[i].0 == k,
        forall|j: int| 0 <= j < i ==> (#[trigger] s[j]).0 != k,
    ensures
        has_name(s, k),
        get_value(s, k) == s[i].1,
    decreases i,
{
    if i > 0 {
        lemma_first_match(s.drop_first(), k, i - 1);
    }
}

/// Where a scan for `k` over a sorted `s` stops, `insert_entry` acts.
pub proof fn lemma_insert_entry_at<V>(s: Seq<(Seq<u8>, V)>, k: Seq<u8>, v: V, i: int)
    requires
        0 <= i <= s.len(),
        forall|j: int| 0 <= j < i ==> lex_lt((#[trigger] s[j]).0, k),
    ensures
        i < s.len() && s[i].0 == k ==> insert_entry(s, k, v) == s.update(i, (k, v)),
        (i == s.len() || lex_lt(k, s[i].0)) ==> insert_entry(s, k, v) == s.take(i).push(
            (k, v),
        ) + s.skip(i),
    decreases i,
{
    if i == 0 {
        if i == s.len() || lex_lt(k, s[0].0) {
            if i < s.len() {
                lemma_lex_lt_total(s[0].0, k);
            }
            assert(insert_entry(s, k, v) =~= s.take(0).push((k, v)) + s.skip(0));
        }
    } else {
        lemma_lex_lt_total(s[0].0, k);
        lemma_insert_entry_at(s.drop_first(), k, v, i - 1);
        if i < s.len() && s[i].0 == k {
            assert(s.drop_first()[i - 1].0 == k);
            assert(insert_entry(s, k, v) =~= s.update(i, (k, v)));
        } else if i == s.len() || lex_lt(k, s[i].0) {
            assert(insert_entry(s, k, v) =~= s.take(i).push((k, v)) + s.skip(i));
        }
    }
}

/// Where a scan over a duplicate-keeping sorted `s` stops,
/// `insert_entry_dup` acts.
pub proof fn lemma_insert_entry_dup_at<V>(s: Seq<(Seq<u8>, V)>, k: Seq<u8>, v: V, i: int)
    requires
        0 <= i <= s.len(),
        forall|j: int| 0 <= j < i ==> !lex_lt(k, (#[trigger] s[j]).0),
        i < s.len() ==> lex_lt(k, s[i].0),
    ensures
        insert_entry_dup(s, k, v) == s.take(i).push((k, v)) + s.skip(i),
    decreases i,
{
    if i == 0 {
        assert(insert_entry_dup(s, k, v) =~= s.take(0).push((k, v)) + s.skip(0));
    } else {
        lemma_insert_entry_dup_at(s.drop_first(), k, v, i - 1);
        assert(insert_entry_dup(s, k, v) =~= s.take(i).push((k, v)) + s.skip(i));
    }
}

/// The value under a present name is the value of one of the entries.
pub proof fn lemma_get_value_is_entry<V>(s: Seq<(Seq<u8>, V)>, k: Seq<u8>)
    requires
        has_name(s, k),
    ensures
        exists|i: int|
            0 <= i < s.len() && (#[trigger] s[i]).0 == k && s[i].1 == get_value(s, k),
    decreases s.len(),
{
    if s[0].0 == k {
        assert(s[0].0 == k && s[0].1 == get_value(s, k));
    } else {
        let i = choose|i: int| 0 <= i < s.len() && (#[trigger] s[i]).0 == k;
        assert(s.drop_first()[i - 1].0 == k);
        lemma_get_value_is_entry(s.drop_first(), k);
        let j = choose|j: int|
            0 <= j < s.drop_first().len() && (#[trigger] s.drop_first()[j]).0 == k
                && s.drop_first()[j].1 == get_value(s.drop_first(), k);
        assert(s[j + 1].0 == k && s[j + 1].1 == get_value(s, k));
    }
}

/// Inserting under one name leaves every other name's presence and value.
pub proof fn lemma_insert_entry_other<V>(s: Seq<(Seq<u8>, V)>, k: Seq<u8>, v: V, q: Seq<u8>)
    requires
        q != k,
    ensures
        has_name(insert_entry(s, k, v), q) == has_name(s, q),
        has_name(s, q) ==> get_value(insert_entry(s, k, v), q) == get_value(s, q),
    decreases s.len(),
{
    let ins = insert_entry(s, k, v);
    if s.len() == 0 {
        assert(ins =~= seq![(k, v)]);
        assert(!has_name(s, q));
        assert(forall|i: int| 0 <= i < ins.len() ==> (#[trigger] ins[i]).0 == k);
    } else if s[0].0 == k {
        assert(ins =~= s.update(0, (k, v)));
        assert forall|i: int| 0 <= i < s.len() implies (#[trigger] ins[i]).0 == s[i].0 by {}
        if has_name(s, q) {
            let i = choose|i: int| 0 <= i < s.len() && (#[trigger] s[i]).0 == q;
            assert(ins[i].0 == q);
            assert(ins.drop_first() =~= s.drop_first());
        }
        if has_name(ins, q) {
            let i = choose|i: int| 0 <= i < ins.len() && (#[trigger] ins[i]).0 == q;
            assert(s[i].0 == q);
        }
    } else if lex_lt(k, s[0].0) {
        assert(ins =~= seq![(k, v)] + s);
        if has_name(s, q) {
            let i = choose|i: int| 0 <= i < s.len() && (#[trigger] s[i]).0 == q;
            assert(ins[i + 1].0 == q);
            assert(ins.drop_first() =~= s);
        }
        if has_name(ins, q) {
            let i = choose|i: int| 0 <= i < ins.len() && (#[trigger] ins[i]).0 == q;
            assert(i > 0);
            assert(s[i - 1].0 == q);
        }
    } else {
        lemma_insert_entry_other(s.drop_first(), k, v, q);
        assert(ins =~= seq![s[0]] + insert_entry(s.drop_first(), k, v));
        let tail = insert_entry(s.drop_first(), k, v);
        assert(ins.drop_first() =~= tail);
        if s[0].0 == q {
            assert(ins[0] == s[0]);
            assert(ins[0].0 == q);
            assert(has_name(s, q));
            assert(has_name(ins, q));
            assert(get_value(ins, q) == ins[0].1);
            assert(get_value(s, q) == s[0].1);
        } else {
            if has_name(s, q) {
                let i = choose|i: int| 0 <= i < s.len() && (#[trigger] s[i]).0 == q;
                assert(i > 0);
                assert(s.drop_first()[i - 1].0 == q);
                let j = choose|j: int| 0 <= j < tail.len() && (#[trigger] tail[j]).0 == q;
                assert(ins[j + 1].0 == q);
            }
            if has_name(ins, q) {
                let i = choose|i: int| 0 <= i < ins.len() && (#[trigger] ins[i]).0 == q;
                assert(i > 0);
                assert(tail[i - 1].0 == q);
                let j = choose|j: int|
                    0 <= j < s.drop_first().len() && (#[trigger] s.drop_first()[j]).0 == q;
                assert(s[j + 1].0 == q);
            }
        }
    }
}

/// Every entry after an insert is the inserted pair or one of the old ones.
pub proof fn lemma_insert_entry_elems<V>(s: Seq<(Seq<u8>, V)>, k: Seq<u8>, v: V)
    ensures
        forall|m: int|
            0 <= m < insert_entry(s, k, v).len() ==> ((#[trigger] insert_entry(s, k, v)[m]) == (
            k,
            v,
            ) || exists|j: int| 0 <= j < s.len() && (#[trigger] s[j]) == insert_entry(s, k, v)[m]),
    decreases s.len(),
{
    let ins = insert_entry(s, k, v);
    if s.len() == 0 {
    } else if s[0].0 == k {
        assert forall|m: int|
            0 <= m < ins.len() implies ((#[trigger] ins[m]) == (k, v) || exists|j: int|
            0 <= j < s.len() && (#[trigger] s[j]) == ins[m]) by {
            if m != 0 {
                assert(s[m] == ins[m]);
            }
        }
    } else if lex_lt(k, s[0].0) {
        assert forall|m: int|
            0 <= m < ins.len() implies ((#[trigger] ins[m]) == (k, v) || exists|j: int|
            0 <= j < s.len() && (#[trigger] s[j]) == ins[m]) by {
            if m != 0 {
                assert(s[m - 1] == ins[m]);
            }
        }
    } else {
        lemma_insert_entry_elems(s.drop_first(), k, v);
        let tail = insert_entry(s.drop_first(), k, v);
        assert forall|m: int|
            0 <= m < ins.len() implies ((#[trigger] ins[m]) == (k, v) || exists|j: int|
            0 <= j < s.len() && (#[trigger] s[j]) == ins[m]) by {
            if m == 0 {
                assert(s[0] == ins[0]);
            } else {
                assert(ins[m] == tail[m - 1]);
                if tail[m - 1] != (k, v) {
                    let j = choose|j: int|
                        0 <= j < s.drop_first().len() && (#[trigger] s.drop_first()[j]) == tail[m
                            - 1];
                    assert(s[j + 1] == ins[m]);
                }
            }
        }
    }
}

/// Where a scan for `k` stops with a match, `remove_entry` drops that entry.
pub proof fn lemma_remove_entry_at<V>(s: Seq<(Seq<u8>, V)>, k: Seq<u8>, i: int)
    requires
        0 <= i < s.len(),
        s[i].0 == k,
        forall|j: int| 0 <= j < i ==> (#[trigger] s[j]).0 != k,
    ensures
        remove_entry(s, k) == s.take(i) + s.skip(i + 1),
    decreases i,
{
    if i == 0 {
        assert(remove_entry(s, k) =~= s.take(0) + s.skip(1));
    } else {
        lemma_remove_entry_at(s.drop_first(), k, i - 1);
        assert(remove_entry(s, k) =~= s.take(i) + s.skip(i + 1));
    }
}

/// Removing a name that no entry has changes nothing.
pub proof fn lemma_remove_entry_absent<V>(s: Seq<(Seq<u8>, V)>, k: Seq<u8>)
    requires
        forall|j: int| 0 <= j < s.len() ==> (#[trigger] s[j]).0 != k,
    ensures
        remove_entry(s, k) == s,
    decreases s.len(),
{
    if s.len() > 0 {
        lemma_remove_entry_absent(s.drop_first(), k);
        assert(remove_entry(s, k) =~= s);
    }
}

} // verus!
