//! Small ordered tables keyed by strings: the port map, the service map, the registry.
//!
//! A table is a `Vec` of `(key, value)` pairs kept in strictly increasing key order,
//! the order in which a `BTreeMap<String, _>` walks its keys. Its meaning is the map
//! from each key's characters to its value.

use vstd::prelude::*;
use crate::text::chars_of;

verus! {

/// `a` and `b` agree on their first `k` characters.
pub open spec fn agree_upto(a: Seq<char>, b: Seq<char>, k: int) -> bool {
    forall|i: int| 0 <= i < k ==> #[trigger] a[i] == b[i]
}

/// `k` is where `a` first falls below `b`: the two agree before it, and there `a` has
/// ended while `b` goes on, or `a` holds the smaller character.
pub open spec fn below_at(a: Seq<char>, b: Seq<char>, k: int) -> bool {
    &&& 0 <= k <= a.len()
    &&& k <= b.len()
    &&& agree_upto(a, b, k)
    &&& ((k == a.len() && k < b.len()) || (k < a.len() && k < b.len() && a[k] < b[k]))
}

/// Lexicographic order on characters, by code point: the order of `String`'s `Ord`.
pub open spec fn lex_lt(a: Seq<char>, b: Seq<char>) -> bool {
    exists|k: int| below_at(a, b, k)
}

pub proof fn lemma_lex_asymmetric(a: Seq<char>, b: Seq<char>)
    requires
        lex_lt(a, b),
    ensures
        !lex_lt(b, a),
        a != b,
{
    let k1 = choose|k: int| below_at(a, b, k);
    if lex_lt(b, a) {
        let k2 = choose|k: int| below_at(b, a, k);
        if k1 < k2 {
            assert(b[k1] == a[k1]);
        } else if k2 < k1 {
            assert(a[k2] == b[k2]);
        }
    }
    if a == b {
        if k1 < a.len() {
            assert(a[k1] == b[k1]);
        }
    }
}

pub proof fn lemma_lex_transitive(a: Seq<char>, b: Seq<char>, c: Seq<char>)
    requires
        lex_lt(a, b),
        lex_lt(b, c),
    ensures
        lex_lt(a, c),
{
    let k1 = choose|k: int| below_at(a, b, k);
    let k2 = choose|k: int| below_at(b, c, k);
    let k = if k1 < k2 { k1 } else { k2 };
    assert forall|i: int| 0 <= i < k implies #[trigger] a[i] == c[i] by {
        assert(a[i] == b[i]);
        assert(b[i] == c[i]);
    }
    if k1 < k2 {
        if k1 < a.len() {
            assert(b[k1] == c[k1]);
        }
    } else if k2 < k1 {
        assert(a[k2] == b[k2]);
    }
    assert(below_at(a, c, k));
}

/// Three-way comparison of two strings in `lex_lt` order: negative when `a` sorts
/// first, zero when they are equal, positive when `b` sorts first.
pub fn compare_text(a: &str, b: &str) -> (r: i8)
    ensures
        r == 0 <==> a@ == b@,
        r < 0 <==> lex_lt(a@, b@),
        r > 0 <==> lex_lt(b@, a@),
{
    let x = chars_of(a);
    let y = chars_of(b);
    let mut i: usize = 0;
    while i < x.len() && i < y.len() && x[i] == y[i]
        invariant
            x@ == a@,
            y@ == b@,
            i <= x.len(),
            i <= y.len(),
            agree_upto(a@, b@, i as int),
        decreases x.len() - i,
    {
        i += 1;
    }
    if i == x.len() && i == y.len() {
        assert(a@ =~= b@);
        return 0;
    }
    if i == x.len() || (i < y.len() && x[i] < y[i]) {
        assert(below_at(a@, b@, i as int));
        proof { lemma_lex_asymmetric(a@, b@); }
        -1
    } else {
        assert(agree_upto(b@, a@, i as int));
        if i < y.len() {
            assert(x[i as int] != y[i as int]);
            assert(y@[i as int] < x@[i as int]);
        }
        assert(below_at(b@, a@, i as int));
        proof { lemma_lex_asymmetric(b@, a@); }
        1
    }
}

/// Keys strictly increase along the table.
pub open spec fn sorted<V>(s: Seq<(String, V)>) -> bool {
    forall|i: int, j: int| 0 <= i < j < s.len() ==> lex_lt(#[trigger] s[i].0@, #[trigger] s[j].0@)
}

pub open spec fn has_key<V>(s: Seq<(String, V)>, k: Seq<char>) -> bool {
    exists|i: int| 0 <= i < s.len() && #[trigger] s[i].0@ == k
}

pub open spec fn value_of<V>(s: Seq<(String, V)>, k: Seq<char>) -> V {
    s[choose|i: int| 0 <= i < s.len() && #[trigger] s[i].0@ == k].1
}

/// What the table means: each key's characters mapped to its value.
pub open spec fn table_map<V>(s: Seq<(String, V)>) -> Map<Seq<char>, V> {
    Map::new(|k: Seq<char>| has_key(s, k), |k: Seq<char>| value_of(s, k))
}

pub proof fn lemma_sorted_distinct<V>(s: Seq<(String, V)>, i: int, j: int)
    requires
        sorted(s),
        0 <= i < s.len(),
        0 <= j < s.len(),
        i != j,
    ensures
        s[i].0@ != s[j].0@,
{
    if i < j {
        lemma_lex_asymmetric(s[i].0@, s[j].0@);
    } else {
        lemma_lex_asymmetric(s[j].0@, s[i].0@);
    }
}

/// In a sorted table the entry at `i` is the one its key maps to.
pub proof fn lemma_value_at<V>(s: Seq<(String, V)>, i: int)
    requires
        sorted(s),
        0 <= i < s.len(),
    ensures
        table_map(s).contains_key(s[i].0@),
        table_map(s)[s[i].0@] == s[i].1,
{
    let k = s[i].0@;
    assert(has_key(s, k));
    let j = choose|j: int| 0 <= j < s.len() && #[trigger] s[j].0@ == k;
    if j != i {
        lemma_sorted_distinct(s, i, j);
    }
}

/// Where `key` sits in the table, if it is there.
pub fn table_find<V>(items: &Vec<(String, V)>, key: &str) -> (r: Option<usize>)
    requires
        sorted(items@),
    ensures
        match r {
            Some(i) => i < items.len() && items@[i as int].0@ == key@,
            None => !table_map(items@).contains_key(key@),
        },
{
    let mut i: usize = 0;
    while i < items.len()
        invariant
            i <= items.len(),
            forall|j: int| 0 <= j < i ==> #[trigger] items@[j].0@ != key@,
        decreases items.len() - i,
    {
        if compare_text(items[i].0.as_str(), key) == 0 {
            return Some(i);
        }
        i += 1;
    }
    None
}

/// Set `key` to `value`, replacing what it held or adding it in key order.
pub fn table_insert<V>(items: &mut Vec<(String, V)>, key: String, value: V)
    requires
        sorted(old(items)@),
    ensures
        sorted(final(items)@),
        table_map(final(items)@) == table_map(old(items)@).insert(key@, value),
{
    let ghost before = items@;
    let mut i: usize = 0;
    while i < items.len() && compare_text(items[i].0.as_str(), key.as_str()) < 0
        invariant
            items@ == before,
            sorted(before),
            i <= items.len(),
            forall|j: int| 0 <= j < i ==> lex_lt(#[trigger] before[j].0@, key@),
        decreases items.len() - i,
    {
        i += 1;
    }
    let c: i8 = if i < items.len() { compare_text(items[i].0.as_str(), key.as_str()) } else { 1 };
    let ghost k = key@;
    if i < items.len() && c == 0 {
        items.set(i, (key, value));
        let ghost after = items@;
        assert(after == before.update(i as int, after[i as int]));
        assert(sorted(after)) by {
            assert forall|a: int, b: int| 0 <= a < b < after.len() implies lex_lt(
                #[trigger] after[a].0@,
                #[trigger] after[b].0@,
            ) by {
                assert(before[a].0@ == after[a].0@ || a == i);
                assert(before[b].0@ == after[b].0@ || b == i);
            }
        }
        assert(table_map(after) =~= table_map(before).insert(k, value)) by {
            assert forall|q: Seq<char>| #[trigger] table_map(after).contains_key(q)
                == table_map(before).insert(k, value).contains_key(q) by {
                if has_key(after, q) {
                    let j = choose|j: int| 0 <= j < after.len() && #[trigger] after[j].0@ == q;
                    if j != i { assert(before[j].0@ == q); }
                }
                if has_key(before, q) {
                    let j = choose|j: int| 0 <= j < before.len() && #[trigger] before[j].0@ == q;
                    if j != i { assert(after[j].0@ == q); } else { assert(after[i as int].0@ == q); }
                }
            }
            assert forall|q: Seq<char>| #[trigger] table_map(after).contains_key(q) implies
                table_map(after)[q] == table_map(before).insert(k, value)[q] by {
                let j = choose|j: int| 0 <= j < after.len() && #[trigger] after[j].0@ == q;
                lemma_value_at(after, j);
                if j != i {
                    lemma_value_at(before, j);
                    assert(before[j].0@ == q);
                }
            }
        }
    } else {
        let ghost pos = i as int;
        items.insert(i, (key, value));
        let ghost after = items@;
        assert(after[pos].0@ == k);
        assert(forall|j: int| pos < j < after.len() ==> after[j] == before[j - 1]);
        assert(forall|j: int| 0 <= j < pos ==> after[j] == before[j]);
        // Every key from `pos` on sorts after `key`.
        assert forall|j: int| pos <= j < before.len() implies lex_lt(k, #[trigger] before[j].0@) by {
            assert(lex_lt(k, before[pos].0@));
            if j > pos {
                lemma_lex_transitive(k, before[pos].0@, before[j].0@);
            }
        }
        assert(sorted(after)) by {
            assert forall|a: int, b: int| 0 <= a < b < after.len() implies lex_lt(
                #[trigger] after[a].0@,
                #[trigger] after[b].0@,
            ) by {
                if b < pos {
                } else if a < pos && b == pos {
                } else if a < pos && b > pos {
                    assert(lex_lt(before[a].0@, k));
                    lemma_lex_transitive(before[a].0@, k, before[b - 1].0@);
                } else if a == pos {
                } else {
                    assert(before[a - 1].0@ == after[a].0@);
                }
            }
        }
        assert(table_map(after) =~= table_map(before).insert(k, value)) by {
            assert forall|q: Seq<char>| #[trigger] table_map(after).contains_key(q)
                == table_map(before).insert(k, value).contains_key(q) by {
                if has_key(after, q) {
                    let j = choose|j: int| 0 <= j < after.len() && #[trigger] after[j].0@ == q;
                    if j < pos { assert(before[j].0@ == q); }
                    else if j > pos { assert(before[j - 1].0@ == q); }
                }
                if has_key(before, q) {
                    let j = choose|j: int| 0 <= j < before.len() && #[trigger] before[j].0@ == q;
                    if j < pos { assert(after[j].0@ == q); } else { assert(after[j + 1].0@ == q); }
                }
            }
            assert forall|q: Seq<char>| #[trigger] table_map(after).contains_key(q) implies
                table_map(after)[q] == table_map(before).insert(k, value)[q] by {
                let j = choose|j: int| 0 <= j < after.len() && #[trigger] after[j].0@ == q;
                lemma_value_at(after, j);
                if j < pos {
                    lemma_value_at(before, j);
                    assert(lex_lt(q, k));
                    lemma_lex_asymmetric(q, k);
                } else if j > pos {
                    lemma_value_at(before, j - 1);
                    assert(before[j - 1].0@ == q);
                    lemma_lex_asymmetric(k, q);
                }
            }
        }
    }
}

/// Drop `key` from the table, handing back what it held.
pub fn table_remove<V>(items: &mut Vec<(String, V)>, key: &str) -> (r: Option<V>)
    requires
        sorted(old(items)@),
    ensures
        sorted(final(items)@),
        table_map(final(items)@) == table_map(old(items)@).remove(key@),
        match r {
            Some(v) => table_map(old(items)@).contains_key(key@) && table_map(old(items)@)[key@] == v,
            None => !table_map(old(items)@).contains_key(key@),
        },
{
    let ghost before = items@;
    match table_find(items, key) {
        None => {
            assert(table_map(before) =~= table_map(before).remove(key@));
            None
        },
        Some(i) => {
            proof { lemma_value_at(before, i as int); }
            let (_, v) = items.remove(i);
            let ghost after = items@;
            assert(forall|j: int| 0 <= j < i ==> after[j] == before[j]);
            assert(forall|j: int| i <= j < after.len() ==> after[j] == before[j + 1]);
            assert(sorted(after)) by {
                assert forall|a: int, b: int| 0 <= a < b < after.len() implies lex_lt(
                    #[trigger] after[a].0@,
                    #[trigger] after[b].0@,
                ) by {
                    let a2 = if a < i { a } else { a + 1 };
                    let b2 = if b < i { b } else { b + 1 };
                    assert(after[a] == before[a2]);
                    assert(after[b] == before[b2]);
                }
            }
            assert(table_map(after) =~= table_map(before).remove(key@)) by {
                assert forall|q: Seq<char>| #[trigger] table_map(after).contains_key(q)
                    == table_map(before).remove(key@).contains_key(q) by {
                    if has_key(after, q) {
                        let j = choose|j: int| 0 <= j < after.len() && #[trigger] after[j].0@ == q;
                        let j2 = if j < i { j } else { j + 1 };
                        assert(before[j2].0@ == q);
                        lemma_sorted_distinct(before, j2, i as int);
                    }
                    if has_key(before, q) && q != key@ {
                        let j = choose|j: int| 0 <= j < before.len() && #[trigger] before[j].0@ == q;
                        if j < i { assert(after[j].0@ == q); } else { assert(j != i); assert(after[j - 1].0@ == q); }
                    }
                }
                assert forall|q: Seq<char>| #[trigger] table_map(after).contains_key(q) implies
                    table_map(after)[q] == table_map(before).remove(key@)[q] by {
                    let j = choose|j: int| 0 <= j < after.len() && #[trigger] after[j].0@ == q;
                    let j2 = if j < i { j } else { j + 1 };
                    lemma_value_at(after, j);
                    lemma_value_at(before, j2);
                }
            }
            Some(v)
        },
    }
}

/// A copy of a table whose values copy bit for bit.
pub fn table_copy<V: Copy>(items: &Vec<(String, V)>) -> (r: Vec<(String, V)>)
    ensures
        r@.len() == items@.len(),
        forall|i: int| 0 <= i < items@.len() ==> (#[trigger] r@[i]).0@ == items@[i].0@ && r@[i].1 == items@[i].1,
        sorted(items@) ==> sorted(r@) && table_map(r@) == table_map(items@),
{
    let mut r: Vec<(String, V)> = Vec::new();
    let mut i: usize = 0;
    while i < items.len()
        invariant
            i <= items.len(),
            r@.len() == i,
            forall|j: int| 0 <= j < i ==> (#[trigger] r@[j]).0@ == items@[j].0@ && r@[j].1 == items@[j].1,
        decreases items.len() - i,
    {
        let k = items[i].0.clone();
        let v = items[i].1;
        r.push((k, v));
        i += 1;
    }
    assert(forall|j: int| 0 <= j < r@.len() ==> (#[trigger] r@[j]).0@ == items@[j].0@);
    proof {
    if sorted(items@) {
    assert(sorted(r@));
    assert(table_map(r@) =~= table_map(items@)) by {
        assert forall|q: Seq<char>| #[trigger] table_map(r@).contains_key(q) == table_map(items@).contains_key(q) by {
            if has_key(r@, q) {
                let j = choose|j: int| 0 <= j < r@.len() && #[trigger] r@[j].0@ == q;
                assert(items@[j].0@ == q);
            }
            if has_key(items@, q) {
                let j = choose|j: int| 0 <= j < items@.len() && #[trigger] items@[j].0@ == q;
                assert(r@[j].0@ == q);
            }
        }
        assert forall|q: Seq<char>| #[trigger] table_map(r@).contains_key(q) implies
            table_map(r@)[q] == table_map(items@)[q] by {
            let a = choose|j: int| 0 <= j < r@.len() && #[trigger] r@[j].0@ == q;
            lemma_value_at(r@, a);
            lemma_value_at(items@, a);
        }
    }
    }
    }
    r
}

} // verus!
