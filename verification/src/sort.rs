//! Sorting snapshots by term key.
//!
//! Every snapshot is sorted before it is joined, so the engine's output does
//! not depend on the order in which the loaders deliver the records.

use vstd::prelude::*;
use vstd::seq_lib::group_to_multiset_ensures;
use vstd::multiset::group_multiset_axioms;
use crate::order::key_le;
use crate::order::key_lt;
use crate::order::lemma_key_lt_asymmetric;
use crate::order::lemma_key_lt_connected;
use crate::order::lemma_key_lt_implies_le;
use crate::order::lemma_key_lt_le_transitive;
use crate::order::str_key_lt;

verus! {

broadcast use group_to_multiset_ensures, group_multiset_axioms;

/// A record that is keyed by a term string.
pub trait Keyed: Sized {
    /// The key under which the record is sorted and joined.
    spec fn key(&self) -> Seq<char>;

    /// Executable access to the key.
    fn key_str(&self) -> (r: &str)
        ensures
            r@ == self.key(),
    ;
}

/// The records are in ascending key order; equal keys may sit next to each
/// other.
pub open spec fn sorted_by_key<T: Keyed>(s: Seq<T>) -> bool {
    forall|i: int, j: int|
        0 <= i < j < s.len() ==> key_le(#[trigger] s[i].key(), #[trigger] s[j].key())
}

/// The records are in strictly ascending key order.
pub open spec fn strictly_sorted_by_key<T: Keyed>(s: Seq<T>) -> bool {
    forall|i: int, j: int|
        0 <= i < j < s.len() ==> key_lt(#[trigger] s[i].key(), #[trigger] s[j].key())
}

/// No two records of the snapshot share a key.
pub open spec fn distinct_keys<T: Keyed>(s: Seq<T>) -> bool {
    forall|i: int, j: int|
        0 <= i < s.len() && 0 <= j < s.len() && i != j ==> #[trigger] s[i].key() != #[trigger] s[j].key()
}

/// Some record of the snapshot carries the key.
pub open spec fn has_key<T: Keyed>(s: Seq<T>, k: Seq<char>) -> bool {
    exists|i: int| 0 <= i < s.len() && (#[trigger] s[i].key()) == k
}

/// The record of the snapshot that carries the key (meaningful when the keys
/// of the snapshot are distinct and the key is present).
pub open spec fn record_at<T: Keyed>(s: Seq<T>, k: Seq<char>) -> T {
    s[choose|i: int| 0 <= i < s.len() && (#[trigger] s[i].key()) == k]
}

/// Looks the key up in the snapshot.
pub open spec fn find_by_key<T: Keyed>(s: Seq<T>, k: Seq<char>) -> Option<T> {
    if has_key(s, k) {
        Some(record_at(s, k))
    } else {
        None
    }
}

/// In a snapshot with distinct keys, a record that carries the key is the
/// record the lookup returns.
pub proof fn lemma_find_by_key_unique<T: Keyed>(s: Seq<T>, i: int)
    requires
        distinct_keys(s),
        0 <= i < s.len(),
    ensures
        find_by_key(s, s[i].key()) == Some(s[i]),
{
    let k = s[i].key();
    assert(has_key(s, k));
    let w = choose|w: int| 0 <= w < s.len() && (#[trigger] s[w].key()) == k;
    assert(w == i);
}

/// Lookups do not depend on the order of the snapshot's records.
pub proof fn lemma_find_by_key_permutation<T: Keyed>(a: Seq<T>, b: Seq<T>)
    requires
        a.to_multiset() == b.to_multiset(),
        distinct_keys(a),
    ensures
        forall|k: Seq<char>| #[trigger] find_by_key(a, k) == find_by_key(b, k),
{
    lemma_distinct_keys_preserved(a, b);
    assert forall|k: Seq<char>| #[trigger] find_by_key(a, k) == find_by_key(b, k) by {
        if has_key(a, k) {
            let i = choose|i: int| 0 <= i < a.len() && (#[trigger] a[i].key()) == k;
            assert(a.contains(a[i]));
            assert(a.to_multiset().count(a[i]) > 0);
            assert(b.to_multiset().count(a[i]) > 0);
            assert(b.contains(a[i]));
            let j = choose|j: int| 0 <= j < b.len() && b[j] == a[i];
            assert(b[j].key() == k);
            assert(has_key(b, k));
            lemma_find_by_key_unique(a, i);
            lemma_find_by_key_unique(b, j);
        } else if has_key(b, k) {
            let j = choose|j: int| 0 <= j < b.len() && (#[trigger] b[j].key()) == k;
            assert(b.contains(b[j]));
            assert(b.to_multiset().count(b[j]) > 0);
            assert(a.to_multiset().count(b[j]) > 0);
            assert(a.contains(b[j]));
            let i = choose|i: int| 0 <= i < a.len() && a[i] == b[j];
            assert(a[i].key() == k);
            assert(has_key(a, k));
        }
    }
}

/// Strictly ascending keys are distinct.
pub proof fn lemma_strict_sorted_distinct<T: Keyed>(s: Seq<T>)
    requires
        strictly_sorted_by_key(s),
    ensures
        distinct_keys(s),
{
    assert forall|i: int, j: int|
        0 <= i < s.len() && 0 <= j < s.len() && i != j implies #[trigger] s[i].key()
        != #[trigger] s[j].key() by {
        if i < j {
            lemma_key_lt_asymmetric(s[i].key(), s[j].key());
        } else {
            lemma_key_lt_asymmetric(s[j].key(), s[i].key());
        }
    }
}

/// Key distinctness only depends on which records are present, not on their
/// order.
pub proof fn lemma_distinct_keys_preserved<T: Keyed>(a: Seq<T>, b: Seq<T>)
    requires
        a.to_multiset() == b.to_multiset(),
        distinct_keys(a),
    ensures
        distinct_keys(b),
{
    assert(a.no_duplicates()) by {
        assert forall|i: int, j: int|
            0 <= i < a.len() && 0 <= j < a.len() && i != j implies a[i] != a[j] by {
            assert(a[i].key() != a[j].key());
        }
    }
    a.lemma_multiset_has_no_duplicates();
    assert forall|i: int, j: int|
        0 <= i < b.len() && 0 <= j < b.len() && i != j implies #[trigger] b[i].key()
        != #[trigger] b[j].key() by {
        if b[i].key() == b[j].key() {
            b.lemma_multiset_has_no_duplicates_conv();
            assert(b[i] != b[j]);
            assert(b.contains(b[i]) && b.contains(b[j]));
            assert(b.to_multiset().count(b[i]) > 0 && b.to_multiset().count(b[j]) > 0);
            assert(a.to_multiset().count(b[i]) > 0 && a.to_multiset().count(b[j]) > 0);
            assert(a.contains(b[i]) && a.contains(b[j]));
            let p = choose|p: int| 0 <= p < a.len() && a[p] == b[i];
            let q = choose|q: int| 0 <= q < a.len() && a[q] == b[j];
            assert(p != q);
            assert(a[p].key() != a[q].key());
        }
    }
}

/// Ascending order together with distinct keys gives strictly ascending
/// order.
pub proof fn lemma_sorted_distinct_strict<T: Keyed>(s: Seq<T>)
    requires
        sorted_by_key(s),
        distinct_keys(s),
    ensures
        strictly_sorted_by_key(s),
{
    assert forall|i: int, j: int|
        0 <= i < j < s.len() implies key_lt(#[trigger] s[i].key(), #[trigger] s[j].key()) by {
        lemma_key_lt_connected(s[i].key(), s[j].key());
    }
}

/// Decides whether the snapshot's keys are distinct — the precondition of
/// the engine, which callers check before they hand loaded data over.
pub fn check_distinct_keys<T: Keyed>(v: &Vec<T>) -> (r: bool)
    ensures
        r == distinct_keys(v@),
{
    let n = v.len();
    let mut i: usize = 0;
    while i < n
        invariant
            i <= n,
            n == v@.len(),
            forall|a: int, b: int|
                0 <= a < b < v@.len() && a < i ==> (#[trigger] v@[a].key()) != (
                #[trigger] v@[b].key()),
        decreases n - i,
    {
        let mut j: usize = i + 1;
        while j < n
            invariant
                i < j,
                j <= n,
                n == v@.len(),
                forall|b: int|
                    i < b < j ==> (#[trigger] v@[b].key()) != v@[i as int].key(),
            decreases n - j,
        {
            let same = !str_key_lt(v[i].key_str(), v[j].key_str()) && !str_key_lt(
                v[j].key_str(),
                v[i].key_str(),
            );
            if same {
                proof {
                    lemma_key_lt_connected(v@[i as int].key(), v@[j as int].key());
                    assert(v@[i as int].key() == v@[j as int].key());
                    assert(!distinct_keys(v@));
                }
                return false;
            }
            proof {
                lemma_key_lt_asymmetric(v@[i as int].key(), v@[i as int].key());
                assert(v@[j as int].key() != v@[i as int].key());
            }
            j = j + 1;
        }
        i = i + 1;
    }
    proof {
        assert forall|a: int, b: int|
            0 <= a < v@.len() && 0 <= b < v@.len() && a != b implies (#[trigger] v@[a].key())
            != (#[trigger] v@[b].key()) by {
            if b < a {
                assert(v@[b].key() != v@[a].key());
            }
        }
    }
    true
}

/// Sorts the records ascending by key. The result holds exactly the input
/// records, rearranged.
pub fn sort_by_key<T: Keyed>(input: Vec<T>) -> (r: Vec<T>)
    ensures
        r@.to_multiset() == input@.to_multiset(),
        sorted_by_key(r@),
{
    let mut rest = input;
    let mut out: Vec<T> = Vec::new();
    proof {
        assert(out@.to_multiset().add(rest@.to_multiset()) =~= rest@.to_multiset());
    }
    let ghost orig: Seq<T> = rest@;
    while rest.len() > 0
        invariant
            out@.to_multiset().add(rest@.to_multiset()) == orig.to_multiset(),
            sorted_by_key(out@),
            forall|i: int, j: int|
                0 <= i < out@.len() && 0 <= j < rest@.len() ==> key_le(
                    #[trigger] out@[i].key(),
                    #[trigger] rest@[j].key(),
                ),
        decreases rest.len(),
    {
        let ghost old_rest = rest@;
        let ghost old_out = out@;
        let mut m: usize = 0;
        let mut k: usize = 1;
        proof {
            lemma_key_lt_asymmetric(rest@[0].key(), rest@[0].key());
        }
        while k < rest.len()
            invariant
                rest@ == old_rest,
                rest@.len() > 0,
                m < k,
                k <= rest@.len(),
                forall|p: int|
                    0 <= p < k ==> key_le(rest@[m as int].key(), #[trigger] rest@[p].key()),
            decreases rest@.len() - k,
        {
            if str_key_lt(rest[k].key_str(), rest[m].key_str()) {
                proof {
                    assert forall|p: int|
                        0 <= p < k + 1 implies key_le(
                        rest@[k as int].key(),
                        #[trigger] rest@[p].key(),
                    ) by {
                        if p < k {
                            lemma_key_lt_le_transitive(
                                rest@[k as int].key(),
                                rest@[m as int].key(),
                                rest@[p].key(),
                            );
                            lemma_key_lt_implies_le(rest@[k as int].key(), rest@[p].key());
                        } else {
                            lemma_key_lt_asymmetric(rest@[k as int].key(), rest@[k as int].key());
                        }
                    }
                }
                m = k;
            }
            k = k + 1;
        }
        let ghost min_key = rest@[m as int].key();
        let x = rest.remove(m);
        proof {
            assert(x.key() == min_key);
            assert(0 <= m < old_rest.len() && old_rest[m as int] == x);
            assert(old_rest.contains(x));
            assert(old_rest.to_multiset().count(x) > 0);
            assert(rest@.to_multiset() =~= old_rest.to_multiset().remove(x));
            assert forall|j: int| 0 <= j < rest@.len() implies key_le(
                min_key,
                #[trigger] rest@[j].key(),
            ) by {
                if j < m {
                    assert(rest@[j] == old_rest[j]);
                } else {
                    assert(rest@[j] == old_rest[j + 1]);
                }
            }
        }
        out.push(x);
        proof {
            assert(out@ == old_out.push(x));
            assert(out@.to_multiset() =~= old_out.to_multiset().insert(x));
            assert(out@.to_multiset().add(rest@.to_multiset()) =~= orig.to_multiset());
            assert forall|i: int, j: int|
                0 <= i < j < out@.len() implies key_le(
                #[trigger] out@[i].key(),
                #[trigger] out@[j].key(),
            ) by {
                if j == out@.len() - 1 {
                    assert(out@[j] == x);
                    assert(key_le(old_out[i].key(), old_rest[m as int].key()));
                }
            }
            assert forall|i: int, j: int|
                0 <= i < out@.len() && 0 <= j < rest@.len() implies key_le(
                #[trigger] out@[i].key(),
                #[trigger] rest@[j].key(),
            ) by {
                if i < out@.len() - 1 {
                    if j < m {
                        assert(rest@[j] == old_rest[j]);
                    } else {
                        assert(rest@[j] == old_rest[j + 1]);
                    }
                } else {
                    assert(out@[i] == x);
                }
            }
        }
    }
    proof {
        assert(out@.to_multiset().add(rest@.to_multiset()) =~= out@.to_multiset());
    }
    out
}

} // verus!
