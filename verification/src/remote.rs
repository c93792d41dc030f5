//! Records of the current remote state.
//!
//! A remote record carries, besides the term key and its translation text,
//! the opaque identifier under which the remote store knows the term. That
//! identifier is required for update and delete calls and does not exist for
//! terms that were never created remotely.

use vstd::prelude::*;
use crate::order::key_lt;
use crate::order::lemma_key_lt_asymmetric;
use crate::order::lemma_key_lt_connected;
use crate::order::lemma_key_lt_transitive;
use crate::order::str_key_lt;
use crate::sort::distinct_keys;
use crate::sort::find_by_key;
use crate::sort::has_key;
use crate::sort::lemma_distinct_keys_preserved;
use crate::sort::lemma_find_by_key_permutation;
use crate::sort::lemma_find_by_key_unique;
use crate::sort::lemma_sorted_distinct_strict;
use crate::sort::record_at;
use crate::sort::sort_by_key;
use crate::sort::strictly_sorted_by_key;
use crate::sort::Keyed;

verus! {

/// Opaque handle assigned by the remote store to an existing term.
///
/// The engine never interprets it; it is only carried through so that the
/// resulting actions can be executed against the remote store.
#[derive(Debug)]
pub struct TermId(pub String);

impl Clone for TermId {
    fn clone(&self) -> (r: Self)
        ensures
            r@ == self@,
    {
        TermId(self.0.clone())
    }
}

impl PartialEq for TermId {
    fn eq(&self, other: &Self) -> bool {
        self.0 == other.0
    }
}

impl vstd::std_specs::cmp::PartialEqSpecImpl for TermId {
    open spec fn obeys_eq_spec() -> bool {
        true
    }

    open spec fn eq_spec(&self, other: &Self) -> bool {
        self.0@ == other.0@
    }
}

impl View for TermId {
    type V = Seq<char>;

    open spec fn view(&self) -> Seq<char> {
        self.0@
    }
}

impl DeepView for TermId {
    type V = Seq<char>;

    open spec fn deep_view(&self) -> Seq<char> {
        self@
    }
}

/// One term as it currently exists in the remote store.
#[derive(Debug)]
pub struct Translation {
    pub term_id: TermId,
    pub term: String,
    pub translation: String,
}

impl Clone for Translation {
    fn clone(&self) -> (r: Self)
        ensures
            r@ == self@,
    {
        Self {
            term_id: self.term_id.clone(),
            term: self.term.clone(),
            translation: self.translation.clone(),
        }
    }
}

/// Mathematical model of a remote record.
pub ghost struct TranslationModel {
    pub term_id: Seq<char>,
    pub term: Seq<char>,
    pub translation: Seq<char>,
}

impl View for Translation {
    type V = TranslationModel;

    open spec fn view(&self) -> TranslationModel {
        TranslationModel {
            term_id: self.term_id@,
            term: self.term@,
            translation: self.translation@,
        }
    }
}

impl DeepView for Translation {
    type V = TranslationModel;

    open spec fn deep_view(&self) -> TranslationModel {
        self@
    }
}

/// One term as the remote store lists it: its identifier and its key.
#[derive(Debug)]
pub struct Term {
    pub id: TermId,
    pub value: String,
}

impl Keyed for Term {
    open spec fn key(&self) -> Seq<char> {
        self.id@
    }

    fn key_str(&self) -> (r: &str)
        ensures
            r@ == self.key(),
    {
        self.id.0.as_str()
    }
}

/// One translation entry as the remote store lists it for a locale: the
/// identifier of the term it belongs to, and its text.
#[derive(Debug)]
pub struct TranslationEntry {
    pub term_id: TermId,
    pub value: String,
}

impl Keyed for TranslationEntry {
    open spec fn key(&self) -> Seq<char> {
        self.term_id@
    }

    fn key_str(&self) -> (r: &str)
        ensures
            r@ == self.key(),
    {
        self.term_id.0.as_str()
    }
}

/// The remote record that a term and its translation entry, if any, pair
/// up to: a term without an entry has no translation text yet.
pub open spec fn paired_model(t: Term, e: Option<TranslationEntry>) -> TranslationModel {
    TranslationModel {
        term_id: t.id@,
        term: t.value@,
        translation: match e {
            Some(e) => e.value@,
            None => Seq::empty(),
        },
    }
}

/// What it means for `out` to pair the fetched `terms` with the fetched
/// `translations`: one record per term, in strictly ascending identifier
/// order, each carrying the entry text recorded under its identifier (or an
/// empty text when there is none). Entries whose term does not exist are
/// dropped.
pub open spec fn is_paired_list(
    out: Seq<Translation>,
    terms: Seq<Term>,
    translations: Seq<TranslationEntry>,
) -> bool {
    &&& forall|i: int, j: int|
        0 <= i < j < out.len() ==> key_lt(
            (#[trigger] out[i]).term_id@,
            (#[trigger] out[j]).term_id@,
        )
    &&& forall|i: int|
        0 <= i < out.len() ==> has_key(terms, (#[trigger] out[i]).term_id@) && out[i]@
            == paired_model(
            record_at(terms, out[i].term_id@),
            find_by_key(translations, out[i].term_id@),
        )
    &&& forall|k: Seq<char>|
        #[trigger] has_key(terms, k) ==> exists|i: int|
            0 <= i < out.len() && (#[trigger] out[i].term_id@) == k
}

/// Pairs each remote term with the translation text recorded under its
/// identifier, as the remote loader does after fetching both lists.
pub fn pair_terms(terms: Vec<Term>, translations: Vec<TranslationEntry>) -> (out: Vec<
    Translation,
>)
    requires
        distinct_keys(terms@),
        distinct_keys(translations@),
    ensures
        is_paired_list(out@, terms@, translations@),
{
    let ghost t0 = terms@;
    let ghost e0 = translations@;
    let ts = sort_by_key(terms);
    let es = sort_by_key(translations);
    proof {
        lemma_distinct_keys_preserved(t0, ts@);
        lemma_distinct_keys_preserved(e0, es@);
        lemma_sorted_distinct_strict(ts@);
        lemma_sorted_distinct_strict(es@);
        lemma_find_by_key_permutation(t0, ts@);
        lemma_find_by_key_permutation(e0, es@);
    }
    let mut out: Vec<Translation> = Vec::new();
    let mut i: usize = 0;
    let mut j: usize = 0;
    while i < ts.len()
        invariant
            i <= ts@.len(),
            j <= es@.len(),
            strictly_sorted_by_key(ts@),
            distinct_keys(ts@),
            strictly_sorted_by_key(es@),
            distinct_keys(es@),
            out@.len() == i,
            forall|p: int|
                0 <= p < out@.len() ==> (#[trigger] out@[p]).term_id@ == ts@[p].key(),
            forall|p: int|
                0 <= p < out@.len() ==> (#[trigger] out@[p])@ == paired_model(
                    ts@[p],
                    find_by_key(es@, ts@[p].key()),
                ),
            forall|q: int|
                0 <= q < j && i < ts@.len() ==> key_lt(
                    (#[trigger] es@[q]).key(),
                    ts@[i as int].key(),
                ),
        decreases ts@.len() - i,
    {
        while j < es.len() && str_key_lt(es[j].term_id.0.as_str(), ts[i].id.0.as_str())
            invariant
                i < ts@.len(),
                j <= es@.len(),
                forall|q: int|
                    0 <= q < j ==> key_lt((#[trigger] es@[q]).key(), ts@[i as int].key()),
            decreases es@.len() - j,
        {
            j = j + 1;
        }
        let ghost k0 = ts@[i as int].key();
        let found = j < es.len() && !str_key_lt(ts[i].id.0.as_str(), es[j].term_id.0.as_str());
        proof {
            lemma_find_by_key_unique(ts@, i as int);
            if found {
                lemma_key_lt_connected(k0, es@[j as int].key());
                assert(es@[j as int].key() == k0);
                lemma_find_by_key_unique(es@, j as int);
                assert(find_by_key(es@, k0) == Some(es@[j as int]));
            } else {
                assert(!has_key(es@, k0)) by {
                    assert forall|q: int| 0 <= q < es@.len() implies (#[trigger] es@[q]).key()
                        != k0 by {
                        if q < j {
                            lemma_key_lt_asymmetric(es@[q].key(), k0);
                        } else {
                            assert(j < es@.len());
                            assert(key_lt(k0, es@[j as int].key()));
                            if q > j {
                                lemma_key_lt_transitive(k0, es@[j as int].key(), es@[q].key());
                            }
                            lemma_key_lt_asymmetric(k0, es@[q].key());
                        }
                    }
                }
                assert(find_by_key(es@, k0) is None);
            }
        }
        if found {
            out.push(
                Translation {
                    term_id: ts[i].id.clone(),
                    term: ts[i].value.clone(),
                    translation: es[j].value.clone(),
                },
            );
        } else {
            out.push(
                Translation {
                    term_id: ts[i].id.clone(),
                    term: ts[i].value.clone(),
                    translation: String::new(),
                },
            );
        }
        i = i + 1;
        proof {
            let n = out@.len() - 1;
            assert(out@[n].term_id@ == k0);
            assert(out@[n]@ == paired_model(ts@[i - 1], find_by_key(es@, k0)));
            if i < ts@.len() {
                assert(key_lt(ts@[i - 1].key(), ts@[i as int].key()));
                assert forall|q: int| 0 <= q < j implies key_lt(
                    (#[trigger] es@[q]).key(),
                    ts@[i as int].key(),
                ) by {
                    lemma_key_lt_transitive(es@[q].key(), k0, ts@[i as int].key());
                }
            }
        }
    }
    proof {
        assert forall|a: int, b: int| 0 <= a < b < out@.len() implies key_lt(
            (#[trigger] out@[a]).term_id@,
            (#[trigger] out@[b]).term_id@,
        ) by {
            assert(out@[a].term_id@ == ts@[a].key());
            assert(out@[b].term_id@ == ts@[b].key());
        }
        assert forall|p: int| 0 <= p < out@.len() implies has_key(
            t0,
            (#[trigger] out@[p]).term_id@,
        ) && out@[p]@ == paired_model(
            record_at(t0, out@[p].term_id@),
            find_by_key(e0, out@[p].term_id@),
        ) by {
            lemma_find_by_key_unique(ts@, p);
            assert(find_by_key(ts@, out@[p].term_id@) == Some(ts@[p]));
            assert(find_by_key(t0, out@[p].term_id@) == find_by_key(ts@, out@[p].term_id@));
            assert(find_by_key(e0, out@[p].term_id@) == find_by_key(es@, out@[p].term_id@));
        }
        assert forall|k: Seq<char>| #[trigger] has_key(t0, k) implies exists|i2: int|
            0 <= i2 < out@.len() && (#[trigger] out@[i2].term_id@) == k by {
            assert(find_by_key(t0, k) == find_by_key(ts@, k));
            assert(has_key(ts@, k));
            let w = choose|w: int| 0 <= w < ts@.len() && (#[trigger] ts@[w].key()) == k;
            assert(out@[w].term_id@ == k);
        }
    }
    out
}

} // verus!
