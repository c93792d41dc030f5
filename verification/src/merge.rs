//! The reconciliation engine.
//!
//! Given the local snapshot, the remote snapshot and (optionally) a baseline
//! snapshot of the local file at a historical reference point, the engine
//! decides for every term which remote mutation, if any, is correct.
//!
//! The computation is a two-stage pipeline. The two-way merge joins Local and
//! Remote by key and classifies every key as added, updated or removed. The
//! three-way refinement then holds that tentative classification against the
//! baseline and suppresses actions that would overwrite an independent remote
//! edit or resurrect an externally deleted term. When no baseline is
//! available the tentative classification is returned unchanged.

use vstd::prelude::*;
use crate::local;
use crate::order::key_lt;
use crate::order::lemma_key_lt_asymmetric;
use crate::order::lemma_key_lt_transitive;
use crate::order::lemma_key_lt_connected;
use crate::order::str_key_lt;
use crate::remote;
use crate::remote::TermId;
use crate::sort::distinct_keys;
use crate::sort::find_by_key;
use crate::sort::has_key;
use crate::sort::lemma_distinct_keys_preserved;
use crate::sort::lemma_find_by_key_permutation;
use crate::sort::lemma_find_by_key_unique;
use crate::sort::lemma_sorted_distinct_strict;
use crate::sort::record_at;
use crate::sort::lemma_strict_sorted_distinct;
use crate::sort::sort_by_key;
use crate::sort::strictly_sorted_by_key;
use crate::sort::Keyed;

verus! {

impl Keyed for local::Translation {
    open spec fn key(&self) -> Seq<char> {
        self.term@
    }

    fn key_str(&self) -> (r: &str)
        ensures
            r@ == self.key(),
    {
        self.term.as_str()
    }
}

impl Keyed for remote::Translation {
    open spec fn key(&self) -> Seq<char> {
        self.term@
    }

    fn key_str(&self) -> (r: &str)
        ensures
            r@ == self.key(),
    {
        self.term.as_str()
    }
}

/// The kind of remote mutation an action asks for. An update or a removal
/// addresses an existing remote term and therefore carries its remote
/// identifier; an added term has no remote identity yet.
#[derive(Debug)]
pub enum Modification {
    Removed(TermId),
    Updated(TermId),
    Added,
}

/// Mathematical model of a [`Modification`].
pub ghost enum ModificationModel {
    Removed(Seq<char>),
    Updated(Seq<char>),
    Added,
}

impl View for Modification {
    type V = ModificationModel;

    open spec fn view(&self) -> ModificationModel {
        match self {
            Modification::Removed(id) => ModificationModel::Removed(id@),
            Modification::Updated(id) => ModificationModel::Updated(id@),
            Modification::Added => ModificationModel::Added,
        }
    }
}

impl DeepView for Modification {
    type V = ModificationModel;

    open spec fn deep_view(&self) -> ModificationModel {
        self@
    }
}

impl PartialEq for Modification {
    fn eq(&self, other: &Self) -> bool {
        match (self, other) {
            (Modification::Removed(a), Modification::Removed(b)) => a == b,
            (Modification::Updated(a), Modification::Updated(b)) => a == b,
            (Modification::Added, Modification::Added) => true,
            _ => false,
        }
    }
}

impl vstd::std_specs::cmp::PartialEqSpecImpl for Modification {
    open spec fn obeys_eq_spec() -> bool {
        true
    }

    open spec fn eq_spec(&self, other: &Self) -> bool {
        self@ == other@
    }
}

impl Clone for Modification {
    fn clone(&self) -> (r: Self)
        ensures
            r@ == self@,
    {
        match self {
            Modification::Removed(id) => Modification::Removed(id.clone()),
            Modification::Updated(id) => Modification::Updated(id.clone()),
            Modification::Added => Modification::Added,
        }
    }
}

/// One action of the engine's output: the proposed remote mutation for one
/// term, together with the translation text needed to display and execute
/// it.
#[derive(Debug)]
pub struct Translation {
    pub term: String,
    pub translation: String,
    pub modification: Modification,
}

/// Mathematical model of an action.
pub ghost struct TranslationModel {
    pub term: Seq<char>,
    pub translation: Seq<char>,
    pub modification: ModificationModel,
}

impl View for Translation {
    type V = TranslationModel;

    open spec fn view(&self) -> TranslationModel {
        TranslationModel {
            term: self.term@,
            translation: self.translation@,
            modification: self.modification@,
        }
    }
}

impl DeepView for Translation {
    type V = TranslationModel;

    open spec fn deep_view(&self) -> TranslationModel {
        self@
    }
}

impl Keyed for Translation {
    open spec fn key(&self) -> Seq<char> {
        self.term@
    }

    fn key_str(&self) -> (r: &str)
        ensures
            r@ == self.key(),
    {
        self.term.as_str()
    }
}

impl PartialEq for Translation {
    fn eq(&self, other: &Self) -> bool {
        self.term == other.term && self.translation == other.translation
            && self.modification == other.modification
    }
}

impl vstd::std_specs::cmp::PartialEqSpecImpl for Translation {
    open spec fn obeys_eq_spec() -> bool {
        true
    }

    open spec fn eq_spec(&self, other: &Self) -> bool {
        self@ == other@
    }
}

impl Clone for Translation {
    fn clone(&self) -> (r: Self)
        ensures
            r@ == self@,
    {
        Translation {
            term: self.term.clone(),
            translation: self.translation.clone(),
            modification: self.modification.clone(),
        }
    }
}

impl Translation {
    /// An action that creates the term remotely.
    pub fn added(term: String, translation: String) -> (r: Self)
        ensures
            r@ == (TranslationModel {
                term: term@,
                translation: translation@,
                modification: ModificationModel::Added,
            }),
    {
        Self { term, translation, modification: Modification::Added }
    }

    /// An action that deletes the term from the remote store.
    pub fn removed(term: String, translation: String, term_id: TermId) -> (r: Self)
        ensures
            r@ == (TranslationModel {
                term: term@,
                translation: translation@,
                modification: ModificationModel::Removed(term_id@),
            }),
    {
        Self { term, translation, modification: Modification::Removed(term_id) }
    }

    /// An action that replaces the term's remote translation text.
    pub fn updated(term: String, translation: String, term_id: TermId) -> (r: Self)
        ensures
            r@ == (TranslationModel {
                term: term@,
                translation: translation@,
                modification: ModificationModel::Updated(term_id@),
            }),
    {
        Self { term, translation, modification: Modification::Updated(term_id) }
    }
}

/// The tentative classification of one key, from its local and remote
/// records alone.
///
/// A key present on both sides whose texts agree needs no action; one whose
/// texts differ is updated to the local text, unless the local text is empty
/// — an empty local text means "no translation yet", never an intentional
/// erasure. A key only present locally is added; a key only present remotely
/// is tentatively removed.
pub open spec fn two_way_action(
    l: Option<local::Translation>,
    r: Option<remote::Translation>,
) -> Option<TranslationModel> {
    match (l, r) {
        (Some(l), Some(r)) => if l.translation@ != r.translation@ && l.translation@.len() > 0 {
            Some(TranslationModel {
                term: l.term@,
                translation: l.translation@,
                modification: ModificationModel::Updated(r.term_id@),
            })
        } else {
            None
        },
        (Some(l), None) => Some(TranslationModel {
            term: l.term@,
            translation: l.translation@,
            modification: ModificationModel::Added,
        }),
        (None, Some(r)) => Some(TranslationModel {
            term: r.term@,
            translation: r.translation@,
            modification: ModificationModel::Removed(r.term_id@),
        }),
        (None, None) => None,
    }
}

/// The tentative action of the two-way merge for one key.
pub open spec fn tentative_action(
    l: Seq<local::Translation>,
    r: Seq<remote::Translation>,
    k: Seq<char>,
) -> Option<TranslationModel> {
    two_way_action(find_by_key(l, k), find_by_key(r, k))
}

/// The disposition of one tentative action under the baseline.
///
/// A removal is kept only when the baseline still has the term: then the term
/// provably existed at the reference point and vanished locally, an
/// intentional deletion. A removal of a term the baseline never knew is
/// dropped — the term was most likely created remotely by someone else. An
/// addition of a term the baseline has is dropped: the term is not new, it
/// was deleted remotely after the baseline. An update is kept only when the
/// local text differs from the baseline text; if it does not, the divergence
/// from the remote was caused by an independent remote edit that must not be
/// overwritten. A key the baseline does not know (other than a removal) keeps
/// its tentative action: there is no history to disambiguate with.
pub open spec fn refine_action(
    t: TranslationModel,
    g: Option<local::Translation>,
) -> Option<TranslationModel> {
    match g {
        Some(g) => match t.modification {
            ModificationModel::Removed(_) => Some(t),
            ModificationModel::Added => None,
            ModificationModel::Updated(_) => if t.translation != g.translation@ {
                Some(t)
            } else {
                None
            },
        },
        None => match t.modification {
            ModificationModel::Removed(_) => None,
            _ => Some(t),
        },
    }
}

/// The refined action for one key, from a tentative action list and the
/// baseline snapshot.
pub open spec fn refined_action(
    t: Seq<Translation>,
    g: Seq<local::Translation>,
    k: Seq<char>,
) -> Option<TranslationModel> {
    match find_by_key(t, k) {
        Some(a) => refine_action(a@, find_by_key(g, k)),
        None => None,
    }
}

/// The engine's final action for one key, from the three snapshots.
pub open spec fn final_action(
    l: Seq<local::Translation>,
    r: Seq<remote::Translation>,
    g: Seq<local::Translation>,
    k: Seq<char>,
) -> Option<TranslationModel> {
    match tentative_action(l, r, k) {
        Some(t) => refine_action(t, find_by_key(g, k)),
        None => None,
    }
}

/// What it means for `out` to be the action list of the two-way merge of
/// `l` and `r`: the actions are in strictly ascending key order, every
/// listed action is exactly the tentative action of its key, and every key
/// with a tentative action is listed.
///
/// A strictly sorted sequence is determined, up to the model of its records,
/// by which keys it holds and what stands at each key, so this predicate
/// pins the output completely.
pub open spec fn is_tentative_list(
    out: Seq<Translation>,
    l: Seq<local::Translation>,
    r: Seq<remote::Translation>,
) -> bool {
    &&& strictly_sorted_by_key(out)
    &&& forall|i: int|
        0 <= i < out.len() ==> Some((#[trigger] out[i])@) == tentative_action(l, r, out[i].term@)
    &&& forall|k: Seq<char>|
        (#[trigger] tentative_action(l, r, k)) is Some ==> has_key(out, k)
}

/// What it means for `out` to be the refinement of the tentative list `t`
/// under the baseline `g`.
pub open spec fn is_refined_list(
    out: Seq<Translation>,
    t: Seq<Translation>,
    g: Seq<local::Translation>,
) -> bool {
    &&& strictly_sorted_by_key(out)
    &&& forall|i: int|
        0 <= i < out.len() ==> Some((#[trigger] out[i])@) == refined_action(t, g, out[i].term@)
    &&& forall|k: Seq<char>| (#[trigger] refined_action(t, g, k)) is Some ==> has_key(out, k)
}

/// What it means for `out` to be the final action list of the full pipeline
/// on the three snapshots.
pub open spec fn is_final_list(
    out: Seq<Translation>,
    l: Seq<local::Translation>,
    r: Seq<remote::Translation>,
    g: Seq<local::Translation>,
) -> bool {
    &&& strictly_sorted_by_key(out)
    &&& forall|i: int|
        0 <= i < out.len() ==> Some((#[trigger] out[i])@) == final_action(l, r, g, out[i].term@)
    &&& forall|k: Seq<char>|
        (#[trigger] final_action(l, r, g, k)) is Some ==> has_key(out, k)
}

/// The key occurs among the first `n` records of the snapshot.
spec fn processed<T: Keyed>(s: Seq<T>, n: int, k: Seq<char>) -> bool {
    exists|p: int| 0 <= p < n && (#[trigger] s[p].key()) == k
}

/// The two-way merge: joins the local and the remote snapshot by key and
/// classifies every key, as [`tentative_action`] describes. Keys whose local
/// and remote texts agree produce no action.
///
/// The result is in strictly ascending key order, whatever order the inputs
/// arrive in.
pub fn two_way_merge(
    local: Vec<local::Translation>,
    remote: Vec<remote::Translation>,
) -> (out: Vec<Translation>)
    requires
        distinct_keys(local@),
        distinct_keys(remote@),
    ensures
        is_tentative_list(out@, local@, remote@),
{
    let ghost l0 = local@;
    let ghost r0 = remote@;
    let lo = sort_by_key(local);
    let re = sort_by_key(remote);
    proof {
        lemma_distinct_keys_preserved(l0, lo@);
        lemma_distinct_keys_preserved(r0, re@);
        lemma_sorted_distinct_strict(lo@);
        lemma_sorted_distinct_strict(re@);
        lemma_find_by_key_permutation(l0, lo@);
        lemma_find_by_key_permutation(r0, re@);
    }
    let mut out: Vec<Translation> = Vec::new();
    let mut i: usize = 0;
    let mut j: usize = 0;
    while i < lo.len() || j < re.len()
        invariant
            i <= lo@.len(),
            j <= re@.len(),
            strictly_sorted_by_key(lo@),
            strictly_sorted_by_key(re@),
            distinct_keys(lo@),
            distinct_keys(re@),
            strictly_sorted_by_key(out@),
            forall|p: int|
                0 <= p < out@.len() ==> Some((#[trigger] out@[p])@) == tentative_action(
                    lo@,
                    re@,
                    out@[p].key(),
                ),
            forall|k: Seq<char>|
                #![trigger tentative_action(lo@, re@, k)]
                (processed(lo@, i as int, k) || processed(re@, j as int, k))
                    && tentative_action(lo@, re@, k) is Some ==> has_key(out@, k),
            forall|p: int|
                0 <= p < out@.len() ==> processed(lo@, i as int, (#[trigger] out@[p]).key())
                    || processed(re@, j as int, out@[p].key()),
            i < lo@.len() ==> (forall|p: int|
                0 <= p < out@.len() ==> key_lt(
                    (#[trigger] out@[p]).key(),
                    lo@[i as int].key(),
                )),
            j < re@.len() ==> (forall|p: int|
                0 <= p < out@.len() ==> key_lt(
                    (#[trigger] out@[p]).key(),
                    re@[j as int].key(),
                )),
            forall|q: int|
                0 <= q < j && i < lo@.len() ==> key_lt(
                    (#[trigger] re@[q]).key(),
                    lo@[i as int].key(),
                ),
            forall|p: int|
                0 <= p < i && j < re@.len() ==> key_lt(
                    (#[trigger] lo@[p]).key(),
                    re@[j as int].key(),
                ),
        decreases lo@.len() - i + re@.len() - j,
    {
        let ghost out_old = out@;
        if j == re.len() || (i < lo.len() && str_key_lt(lo[i].term.as_str(), re[j].term.as_str())) {
            let ghost k0 = lo@[i as int].key();
            proof {
                lemma_find_by_key_unique(lo@, i as int);
                assert(!has_key(re@, k0)) by {
                    assert forall|q: int| 0 <= q < re@.len() implies (#[trigger] re@[q]).key()
                        != k0 by {
                        if q < j {
                            lemma_key_lt_asymmetric(re@[q].key(), k0);
                        } else {
                            assert(j < re@.len());
                            if q > j {
                                lemma_key_lt_transitive(k0, re@[j as int].key(), re@[q].key());
                            }
                            lemma_key_lt_asymmetric(k0, re@[q].key());
                        }
                    }
                }
            }
            out.push(Translation::added(lo[i].term.clone(), lo[i].translation.clone()));
            i = i + 1;
            proof {
                let n = out@.len() - 1;
                assert(out@ == out_old.push(out@[n]));
                assert(out@[n].key() == k0);
                assert(Some(out@[n]@) == tentative_action(lo@, re@, k0));
                assert forall|a: int, b: int| 0 <= a < b < out@.len() implies key_lt(
                    (#[trigger] out@[a]).key(),
                    (#[trigger] out@[b]).key(),
                ) by {
                    if b == n {
                        assert(key_lt(out_old[a].key(), k0));
                    }
                }
                assert forall|k: Seq<char>|
                    #![trigger tentative_action(lo@, re@, k)]
                    (processed(lo@, i as int, k) || processed(re@, j as int, k))
                        && tentative_action(lo@, re@, k) is Some implies has_key(out@, k) by {
                    if processed(lo@, i - 1, k) || processed(re@, j as int, k) {
                        assert(has_key(out_old, k));
                        let w = choose|w: int|
                            0 <= w < out_old.len() && (#[trigger] out_old[w].key()) == k;
                        assert(out@[w].key() == k);
                        assert(has_key(out@, k));
                    } else if processed(lo@, i as int, k) {
                        let p = choose|p: int|
                            0 <= p < i as int && (#[trigger] lo@[p].key()) == k;
                        assert(p == i - 1);
                        assert(out@[n].key() == k);
                        assert(has_key(out@, k));
                    }
                }
                assert forall|p: int| 0 <= p < out@.len() implies processed(
                    lo@,
                    i as int,
                    (#[trigger] out@[p]).key(),
                ) || processed(re@, j as int, out@[p].key()) by {
                    if p < n {
                        if processed(lo@, i - 1, out_old[p].key()) {
                            let w = choose|w: int|
                                0 <= w < i - 1 && (#[trigger] lo@[w].key()) == out_old[p].key();
                            assert(0 <= w < i as int && lo@[w].key() == out@[p].key());
                        }
                    } else {
                        assert(lo@[i - 1].key() == out@[p].key());
                    }
                }
                if i < lo@.len() {
                    assert forall|p: int| 0 <= p < out@.len() implies key_lt(
                        (#[trigger] out@[p]).key(),
                        lo@[i as int].key(),
                    ) by {
                        assert(key_lt(lo@[i - 1].key(), lo@[i as int].key()));
                        if p < n {
                            lemma_key_lt_transitive(
                                out_old[p].key(),
                                lo@[i - 1].key(),
                                lo@[i as int].key(),
                            );
                        }
                    }
                    assert forall|q: int| 0 <= q < j implies key_lt(
                        (#[trigger] re@[q]).key(),
                        lo@[i as int].key(),
                    ) by {
                        lemma_key_lt_transitive(re@[q].key(), k0, lo@[i as int].key());
                    }
                }
                if j < re@.len() {
                    assert(key_lt(k0, re@[j as int].key()));
                    assert forall|p: int| 0 <= p < out@.len() implies key_lt(
                        (#[trigger] out@[p]).key(),
                        re@[j as int].key(),
                    ) by {
                        if p == n {
                            assert(out@[p].key() == k0);
                        }
                    }
                }
            }
        } else if i == lo.len() || str_key_lt(re[j].term.as_str(), lo[i].term.as_str()) {
            let ghost k0 = re@[j as int].key();
            proof {
                lemma_find_by_key_unique(re@, j as int);
                assert(!has_key(lo@, k0)) by {
                    assert forall|p: int| 0 <= p < lo@.len() implies (#[trigger] lo@[p]).key()
                        != k0 by {
                        if p < i {
                            lemma_key_lt_asymmetric(lo@[p].key(), k0);
                        } else {
                            assert(i < lo@.len());
                            if p > i {
                                lemma_key_lt_transitive(k0, lo@[i as int].key(), lo@[p].key());
                            }
                            lemma_key_lt_asymmetric(k0, lo@[p].key());
                        }
                    }
                }
            }
            out.push(
                Translation::removed(
                    re[j].term.clone(),
                    re[j].translation.clone(),
                    re[j].term_id.clone(),
                ),
            );
            j = j + 1;
            proof {
                let n = out@.len() - 1;
                assert(out@ == out_old.push(out@[n]));
                assert(out@[n].key() == k0);
                assert(Some(out@[n]@) == tentative_action(lo@, re@, k0));
                assert forall|a: int, b: int| 0 <= a < b < out@.len() implies key_lt(
                    (#[trigger] out@[a]).key(),
                    (#[trigger] out@[b]).key(),
                ) by {
                    if b == n {
                        assert(key_lt(out_old[a].key(), k0));
                    }
                }
                assert forall|k: Seq<char>|
                    #![trigger tentative_action(lo@, re@, k)]
                    (processed(lo@, i as int, k) || processed(re@, j as int, k))
                        && tentative_action(lo@, re@, k) is Some implies has_key(out@, k) by {
                    if processed(lo@, i as int, k) || processed(re@, j - 1, k) {
                        assert(has_key(out_old, k));
                        let w = choose|w: int|
                            0 <= w < out_old.len() && (#[trigger] out_old[w].key()) == k;
                        assert(out@[w].key() == k);
                        assert(has_key(out@, k));
                    } else if processed(re@, j as int, k) {
                        let q = choose|q: int|
                            0 <= q < j as int && (#[trigger] re@[q].key()) == k;
                        assert(q == j - 1);
                        assert(out@[n].key() == k);
                        assert(has_key(out@, k));
                    }
                }
                assert forall|p: int| 0 <= p < out@.len() implies processed(
                    lo@,
                    i as int,
                    (#[trigger] out@[p]).key(),
                ) || processed(re@, j as int, out@[p].key()) by {
                    if p < n {
                        if processed(re@, j - 1, out_old[p].key()) {
                            let w = choose|w: int|
                                0 <= w < j - 1 && (#[trigger] re@[w].key()) == out_old[p].key();
                            assert(0 <= w < j as int && re@[w].key() == out@[p].key());
                        }
                    } else {
                        assert(re@[j - 1].key() == out@[p].key());
                    }
                }
                if j < re@.len() {
                    assert forall|p: int| 0 <= p < out@.len() implies key_lt(
                        (#[trigger] out@[p]).key(),
                        re@[j as int].key(),
                    ) by {
                        assert(key_lt(re@[j - 1].key(), re@[j as int].key()));
                        if p < n {
                            lemma_key_lt_transitive(
                                out_old[p].key(),
                                re@[j - 1].key(),
                                re@[j as int].key(),
                            );
                        }
                    }
                    assert forall|p: int| 0 <= p < i implies key_lt(
                        (#[trigger] lo@[p]).key(),
                        re@[j as int].key(),
                    ) by {
                        lemma_key_lt_transitive(lo@[p].key(), k0, re@[j as int].key());
                    }
                }
                if i < lo@.len() {
                    assert(key_lt(k0, lo@[i as int].key()));
                    assert forall|p: int| 0 <= p < out@.len() implies key_lt(
                        (#[trigger] out@[p]).key(),
                        lo@[i as int].key(),
                    ) by {
                        if p == n {
                            assert(out@[p].key() == k0);
                        }
                    }
                }
            }
        } else {
            let ghost k0 = lo@[i as int].key();
            proof {
                lemma_key_lt_connected(lo@[i as int].key(), re@[j as int].key());
                assert(lo@[i as int].key() == re@[j as int].key());
                lemma_find_by_key_unique(lo@, i as int);
                lemma_find_by_key_unique(re@, j as int);
            }
            let keep = !(lo[i].translation == re[j].translation)
                && !lo[i].translation.as_str().is_empty();
            if keep {
                out.push(
                    Translation::updated(
                        lo[i].term.clone(),
                        lo[i].translation.clone(),
                        re[j].term_id.clone(),
                    ),
                );
            }
            i = i + 1;
            j = j + 1;
            proof {
                assert(keep == (tentative_action(lo@, re@, k0) is Some));
                if keep {
                    let n = out@.len() - 1;
                    assert(out@ == out_old.push(out@[n]));
                    assert(out@[n].key() == k0);
                    assert(Some(out@[n]@) == tentative_action(lo@, re@, k0));
                    assert forall|a: int, b: int| 0 <= a < b < out@.len() implies key_lt(
                        (#[trigger] out@[a]).key(),
                        (#[trigger] out@[b]).key(),
                    ) by {
                        if b == n {
                            assert(key_lt(out_old[a].key(), k0));
                        }
                    }
                } else {
                    assert(out@ == out_old);
                }
                assert forall|k: Seq<char>|
                    #![trigger tentative_action(lo@, re@, k)]
                    (processed(lo@, i as int, k) || processed(re@, j as int, k))
                        && tentative_action(lo@, re@, k) is Some implies has_key(out@, k) by {
                    if processed(lo@, i - 1, k) || processed(re@, j - 1, k) {
                        assert(has_key(out_old, k));
                        let w = choose|w: int|
                            0 <= w < out_old.len() && (#[trigger] out_old[w].key()) == k;
                        assert(out@[w].key() == k);
                        assert(has_key(out@, k));
                    } else {
                        if processed(lo@, i as int, k) {
                            let p = choose|p: int|
                                0 <= p < i as int && (#[trigger] lo@[p].key()) == k;
                            assert(p == i - 1);
                        } else {
                            let q = choose|q: int|
                                0 <= q < j as int && (#[trigger] re@[q].key()) == k;
                            assert(q == j - 1);
                        }
                        assert(k == k0);
                        assert(out@[out@.len() - 1].key() == k);
                        assert(has_key(out@, k));
                    }
                }
                assert forall|p: int| 0 <= p < out@.len() implies processed(
                    lo@,
                    i as int,
                    (#[trigger] out@[p]).key(),
                ) || processed(re@, j as int, out@[p].key()) by {
                    if p < out_old.len() {
                        if processed(lo@, i - 1, out_old[p].key()) {
                            let w = choose|w: int|
                                0 <= w < i - 1 && (#[trigger] lo@[w].key()) == out_old[p].key();
                            assert(0 <= w < i as int && lo@[w].key() == out@[p].key());
                        } else if processed(re@, j - 1, out_old[p].key()) {
                            let w = choose|w: int|
                                0 <= w < j - 1 && (#[trigger] re@[w].key()) == out_old[p].key();
                            assert(0 <= w < j as int && re@[w].key() == out@[p].key());
                        }
                    } else {
                        assert(lo@[i - 1].key() == out@[p].key());
                    }
                }
                if i < lo@.len() {
                    assert(key_lt(lo@[i - 1].key(), lo@[i as int].key()));
                    assert forall|p: int| 0 <= p < out@.len() implies key_lt(
                        (#[trigger] out@[p]).key(),
                        lo@[i as int].key(),
                    ) by {
                        if p < out_old.len() {
                            lemma_key_lt_transitive(
                                out_old[p].key(),
                                k0,
                                lo@[i as int].key(),
                            );
                        }
                    }
                    assert forall|q: int| 0 <= q < j implies key_lt(
                        (#[trigger] re@[q]).key(),
                        lo@[i as int].key(),
                    ) by {
                        if q < j - 1 {
                            lemma_key_lt_transitive(re@[q].key(), k0, lo@[i as int].key());
                        } else {
                            assert(re@[q].key() == k0);
                        }
                    }
                }
                if j < re@.len() {
                    assert(key_lt(re@[j - 1].key(), re@[j as int].key()));
                    assert forall|p: int| 0 <= p < out@.len() implies key_lt(
                        (#[trigger] out@[p]).key(),
                        re@[j as int].key(),
                    ) by {
                        if p < out_old.len() {
                            lemma_key_lt_transitive(
                                out_old[p].key(),
                                k0,
                                re@[j as int].key(),
                            );
                        }
                    }
                    assert forall|p: int| 0 <= p < i implies key_lt(
                        (#[trigger] lo@[p]).key(),
                        re@[j as int].key(),
                    ) by {
                        if p < i - 1 {
                            lemma_key_lt_transitive(lo@[p].key(), k0, re@[j as int].key());
                        } else {
                            assert(lo@[p].key() == k0);
                        }
                    }
                }
            }
        }
    }
    proof {
        assert forall|k: Seq<char>|
            (#[trigger] tentative_action(l0, r0, k)) is Some implies has_key(out@, k) by {
            assert(tentative_action(lo@, re@, k) == tentative_action(l0, r0, k));
            if has_key(lo@, k) {
                let p = choose|p: int| 0 <= p < lo@.len() && (#[trigger] lo@[p].key()) == k;
                assert(processed(lo@, i as int, k));
            } else if has_key(re@, k) {
                let q = choose|q: int| 0 <= q < re@.len() && (#[trigger] re@[q].key()) == k;
                assert(processed(re@, j as int, k));
            }
        }
        assert forall|p: int| 0 <= p < out@.len() implies Some((#[trigger] out@[p])@)
            == tentative_action(l0, r0, out@[p].term@) by {
            assert(tentative_action(lo@, re@, out@[p].key()) == tentative_action(
                l0,
                r0,
                out@[p].key(),
            ));
        }
    }
    out
}

/// The three-way refinement: holds every tentative action against the
/// baseline snapshot and keeps or drops it, as [`refine_action`] describes.
///
/// The surviving actions keep their order, so the result is again strictly
/// ascending by key, and it is a subset of the tentative list: the
/// refinement never invents an action.
pub fn refine(tentative: Vec<Translation>, git: Vec<local::Translation>) -> (out: Vec<
    Translation,
>)
    requires
        strictly_sorted_by_key(tentative@),
        distinct_keys(git@),
    ensures
        is_refined_list(out@, tentative@, git@),
{
    let ghost g0 = git@;
    let gs = sort_by_key(git);
    proof {
        lemma_distinct_keys_preserved(g0, gs@);
        lemma_sorted_distinct_strict(gs@);
        lemma_find_by_key_permutation(g0, gs@);
        lemma_strict_sorted_distinct(tentative@);
    }
    let mut out: Vec<Translation> = Vec::new();
    let mut i: usize = 0;
    let mut j: usize = 0;
    while i < tentative.len()
        invariant
            i <= tentative@.len(),
            j <= gs@.len(),
            strictly_sorted_by_key(tentative@),
            distinct_keys(tentative@),
            strictly_sorted_by_key(gs@),
            distinct_keys(gs@),
            strictly_sorted_by_key(out@),
            forall|p: int|
                0 <= p < out@.len() ==> Some((#[trigger] out@[p])@) == refined_action(
                    tentative@,
                    gs@,
                    out@[p].key(),
                ),
            forall|k: Seq<char>|
                #![trigger refined_action(tentative@, gs@, k)]
                processed(tentative@, i as int, k) && refined_action(tentative@, gs@, k) is Some
                    ==> has_key(out@, k),
            i < tentative@.len() ==> (forall|p: int|
                0 <= p < out@.len() ==> key_lt(
                    (#[trigger] out@[p]).key(),
                    tentative@[i as int].key(),
                )),
            forall|q: int|
                0 <= q < j && i < tentative@.len() ==> key_lt(
                    (#[trigger] gs@[q]).key(),
                    tentative@[i as int].key(),
                ),
        decreases tentative@.len() - i,
    {
        while j < gs.len() && str_key_lt(gs[j].term.as_str(), tentative[i].term.as_str())
            invariant
                i < tentative@.len(),
                j <= gs@.len(),
                forall|q: int|
                    0 <= q < j ==> key_lt(
                        (#[trigger] gs@[q]).key(),
                        tentative@[i as int].key(),
                    ),
            decreases gs@.len() - j,
        {
            j = j + 1;
        }
        let ghost k0 = tentative@[i as int].key();
        let ghost out_old = out@;
        let in_git = j < gs.len() && !str_key_lt(tentative[i].term.as_str(), gs[j].term.as_str());
        proof {
            lemma_find_by_key_unique(tentative@, i as int);
            if in_git {
                lemma_key_lt_connected(k0, gs@[j as int].key());
                assert(gs@[j as int].key() == k0);
                lemma_find_by_key_unique(gs@, j as int);
                assert(find_by_key(gs@, k0) == Some(gs@[j as int]));
            } else {
                assert(!has_key(gs@, k0)) by {
                    assert forall|q: int| 0 <= q < gs@.len() implies (#[trigger] gs@[q]).key()
                        != k0 by {
                        if q < j {
                            lemma_key_lt_asymmetric(gs@[q].key(), k0);
                        } else {
                            assert(j < gs@.len());
                            assert(key_lt(k0, gs@[j as int].key()));
                            if q > j {
                                lemma_key_lt_transitive(k0, gs@[j as int].key(), gs@[q].key());
                            }
                            lemma_key_lt_asymmetric(k0, gs@[q].key());
                        }
                    }
                }
                assert(find_by_key(gs@, k0) is None);
            }
        }
        let keep: bool = match &tentative[i].modification {
            Modification::Removed(_) => in_git,
            Modification::Added => !in_git,
            Modification::Updated(_) => {
                if in_git {
                    !(tentative[i].translation == gs[j].translation)
                } else {
                    true
                }
            },
        };
        proof {
            assert(keep == (refined_action(tentative@, gs@, k0) is Some));
        }
        if keep {
            out.push(tentative[i].clone());
        }
        i = i + 1;
        proof {
            if keep {
                let n = out@.len() - 1;
                assert(out@ == out_old.push(out@[n]));
                assert(out@[n].key() == k0);
                assert(out@[n]@ == tentative@[i - 1]@);
                assert(Some(out@[n]@) == refined_action(tentative@, gs@, k0));
                assert forall|a: int, b: int| 0 <= a < b < out@.len() implies key_lt(
                    (#[trigger] out@[a]).key(),
                    (#[trigger] out@[b]).key(),
                ) by {
                    if b == n {
                        assert(key_lt(out_old[a].key(), k0));
                    }
                }
            } else {
                assert(out@ == out_old);
            }
            assert forall|k: Seq<char>|
                #![trigger refined_action(tentative@, gs@, k)]
                processed(tentative@, i as int, k) && refined_action(tentative@, gs@, k) is Some
                    implies has_key(out@, k) by {
                if processed(tentative@, i - 1, k) {
                    assert(has_key(out_old, k));
                    let w = choose|w: int|
                        0 <= w < out_old.len() && (#[trigger] out_old[w].key()) == k;
                    assert(out@[w].key() == k);
                    assert(has_key(out@, k));
                } else {
                    let p = choose|p: int|
                        0 <= p < i as int && (#[trigger] tentative@[p].key()) == k;
                    assert(p == i - 1);
                    assert(k == k0);
                    assert(out@[out@.len() - 1].key() == k);
                    assert(has_key(out@, k));
                }
            }
            if i < tentative@.len() {
                assert(key_lt(k0, tentative@[i as int].key()));
                assert forall|p: int| 0 <= p < out@.len() implies key_lt(
                    (#[trigger] out@[p]).key(),
                    tentative@[i as int].key(),
                ) by {
                    if p < out_old.len() {
                        lemma_key_lt_transitive(
                            out_old[p].key(),
                            k0,
                            tentative@[i as int].key(),
                        );
                    } else {
                        assert(out@[p].key() == k0);
                    }
                }
                assert forall|q: int| 0 <= q < j implies key_lt(
                    (#[trigger] gs@[q]).key(),
                    tentative@[i as int].key(),
                ) by {
                    lemma_key_lt_transitive(gs@[q].key(), k0, tentative@[i as int].key());
                }
            }
        }
    }
    proof {
        assert forall|k: Seq<char>| #[trigger]
            refined_action(tentative@, g0, k) == refined_action(tentative@, gs@, k) by {
            assert(find_by_key(g0, k) == find_by_key(gs@, k));
        }
        assert forall|k: Seq<char>|
            (#[trigger] refined_action(tentative@, g0, k)) is Some implies has_key(out@, k) by {
            let p = choose|p: int|
                0 <= p < tentative@.len() && (#[trigger] tentative@[p].key()) == k;
            assert(processed(tentative@, i as int, k));
        }
    }
    out
}

/// The full two-stage pipeline with a baseline snapshot: two-way merge of
/// Local and Remote, then three-way refinement against the baseline.
///
/// An empty baseline snapshot is a baseline that knows no term: every
/// tentative removal is then unconfirmed and dropped. For the distinct
/// "no baseline available" mode see [`reconcile`].
pub fn merge(
    local: Vec<local::Translation>,
    remote: Vec<remote::Translation>,
    git: Vec<local::Translation>,
) -> (out: Vec<Translation>)
    requires
        distinct_keys(local@),
        distinct_keys(remote@),
        distinct_keys(git@),
    ensures
        is_final_list(out@, local@, remote@, git@),
{
    let ghost l0 = local@;
    let ghost r0 = remote@;
    let ghost g0 = git@;
    let tentative = two_way_merge(local, remote);
    let ghost t0 = tentative@;
    let out = refine(tentative, git);
    proof {
        lemma_strict_sorted_distinct(t0);
        assert forall|k: Seq<char>| #[trigger]
            refined_action(t0, g0, k) == final_action(l0, r0, g0, k) by {
            if has_key(t0, k) {
                let w = choose|w: int| 0 <= w < t0.len() && (#[trigger] t0[w].key()) == k;
                lemma_find_by_key_unique(t0, w);
                assert(Some(t0[w]@) == tentative_action(l0, r0, k));
            } else {
                if tentative_action(l0, r0, k) is Some {
                    assert(has_key(t0, k));
                }
            }
        }
        assert forall|p: int| 0 <= p < out@.len() implies Some((#[trigger] out@[p])@)
            == final_action(l0, r0, g0, out@[p].term@) by {
            assert(refined_action(t0, g0, out@[p].key()) == final_action(
                l0,
                r0,
                g0,
                out@[p].key(),
            ));
        }
        assert forall|k: Seq<char>|
            (#[trigger] final_action(l0, r0, g0, k)) is Some implies has_key(out@, k) by {
            assert(refined_action(t0, g0, k) == final_action(l0, r0, g0, k));
        }
    }
    out
}

/// The whole engine. When a baseline snapshot is available the tentative
/// two-way classification is refined against it; when none is, the
/// tentative classification is the result, unchanged.
///
/// Absence of a baseline is a distinct mode, not an empty baseline: an
/// empty baseline snapshot drops every tentative removal as unconfirmed,
/// while an absent one confirms everything the two-way merge decided.
pub fn reconcile(
    local: Vec<local::Translation>,
    remote: Vec<remote::Translation>,
    baseline: Option<Vec<local::Translation>>,
) -> (out: Vec<Translation>)
    requires
        distinct_keys(local@),
        distinct_keys(remote@),
        match baseline {
            Some(g) => distinct_keys(g@),
            None => true,
        },
    ensures
        match baseline {
            Some(g) => is_final_list(out@, local@, remote@, g@),
            None => is_tentative_list(out@, local@, remote@),
        },
{
    match baseline {
        Some(git) => merge(local, remote, git),
        None => two_way_merge(local, remote),
    }
}

/// Two strictly sorted action lists that hold the same keys and pin the
/// same record to every key are the same list, record for record.
proof fn lemma_pinned_lists_equal(a: Seq<Translation>, b: Seq<Translation>)
    requires
        strictly_sorted_by_key(a),
        strictly_sorted_by_key(b),
        forall|k: Seq<char>| #[trigger] has_key(a, k) == has_key(b, k),
        forall|i: int, j: int|
            0 <= i < a.len() && 0 <= j < b.len() && (#[trigger] a[i]).key() == (
            #[trigger] b[j]).key() ==> a[i]@ == b[j]@,
    ensures
        a.len() == b.len(),
        forall|i: int| 0 <= i < a.len() ==> (#[trigger] a[i])@ == b[i]@,
    decreases a.len(),
{
    if a.len() == 0 {
        if b.len() > 0 {
            assert(has_key(b, b[0].key()));
            assert(has_key(a, b[0].key()));
            assert(false);
        }
    } else if b.len() == 0 {
        assert(has_key(a, a[0].key()));
        assert(has_key(b, a[0].key()));
        assert(false);
    } else {
        assert(has_key(a, a[0].key()));
        assert(has_key(b, a[0].key()));
        let q = choose|q: int| 0 <= q < b.len() && (#[trigger] b[q].key()) == a[0].key();
        assert(has_key(b, b[0].key()));
        assert(has_key(a, b[0].key()));
        let p = choose|p: int| 0 <= p < a.len() && (#[trigger] a[p].key()) == b[0].key();
        if p > 0 {
            assert(key_lt(a[0].key(), a[p].key()));
            lemma_key_lt_asymmetric(a[0].key(), a[p].key());
        }
        if q > 0 {
            assert(key_lt(b[0].key(), b[q].key()));
            lemma_key_lt_asymmetric(b[0].key(), b[q].key());
        }
        lemma_key_lt_connected(a[0].key(), b[0].key());
        assert(a[0].key() == b[0].key());
        assert(a[0]@ == b[0]@);
        let at = a.drop_first();
        let bt = b.drop_first();
        assert forall|i: int, j: int| 0 <= i < j < at.len() implies key_lt(
            (#[trigger] at[i]).key(),
            (#[trigger] at[j]).key(),
        ) by {
            assert(at[i] == a[i + 1] && at[j] == a[j + 1]);
        }
        assert forall|i: int, j: int| 0 <= i < j < bt.len() implies key_lt(
            (#[trigger] bt[i]).key(),
            (#[trigger] bt[j]).key(),
        ) by {
            assert(bt[i] == b[i + 1] && bt[j] == b[j + 1]);
        }
        assert forall|k: Seq<char>| #[trigger] has_key(at, k) == has_key(bt, k) by {
            if has_key(at, k) {
                let w = choose|w: int| 0 <= w < at.len() && (#[trigger] at[w].key()) == k;
                assert(a[w + 1].key() == k);
                assert(has_key(a, k));
                assert(has_key(b, k));
                let v = choose|v: int| 0 <= v < b.len() && (#[trigger] b[v].key()) == k;
                assert(key_lt(a[0].key(), a[w + 1].key()));
                if v == 0 {
                    lemma_key_lt_asymmetric(a[0].key(), k);
                    assert(false);
                }
                assert(bt[v - 1].key() == k);
                assert(has_key(bt, k));
            }
            if has_key(bt, k) {
                let w = choose|w: int| 0 <= w < bt.len() && (#[trigger] bt[w].key()) == k;
                assert(b[w + 1].key() == k);
                assert(has_key(b, k));
                assert(has_key(a, k));
                let v = choose|v: int| 0 <= v < a.len() && (#[trigger] a[v].key()) == k;
                assert(key_lt(b[0].key(), b[w + 1].key()));
                if v == 0 {
                    lemma_key_lt_asymmetric(b[0].key(), k);
                    assert(false);
                }
                assert(at[v - 1].key() == k);
                assert(has_key(at, k));
            }
        }
        assert forall|i: int, j: int|
            0 <= i < at.len() && 0 <= j < bt.len() && (#[trigger] at[i]).key() == (
            #[trigger] bt[j]).key() implies at[i]@ == bt[j]@ by {
            assert(at[i] == a[i + 1] && bt[j] == b[j + 1]);
        }
        lemma_pinned_lists_equal(at, bt);
        assert forall|i: int| 0 <= i < a.len() implies (#[trigger] a[i])@ == b[i]@ by {
            if i > 0 {
                assert(at[i - 1]@ == bt[i - 1]@);
                assert(at[i - 1] == a[i] && bt[i - 1] == b[i]);
            }
        }
    }
}

/// Determinism of the two-way merge: any two action lists that meet its
/// contract for the same Local and Remote snapshots are the same list,
/// record for record. This also states the bypass equivalence: the engine
/// run without a baseline promises exactly the tentative list, so its
/// output equals the two-way merge's output.
pub proof fn lemma_two_way_deterministic(
    l: Seq<local::Translation>,
    r: Seq<remote::Translation>,
    a: Seq<Translation>,
    b: Seq<Translation>,
)
    requires
        is_tentative_list(a, l, r),
        is_tentative_list(b, l, r),
    ensures
        a.len() == b.len(),
        forall|i: int| 0 <= i < a.len() ==> (#[trigger] a[i])@ == b[i]@,
{
    assert forall|k: Seq<char>| #[trigger] has_key(a, k) == has_key(b, k) by {
        if has_key(a, k) {
            let w = choose|w: int| 0 <= w < a.len() && (#[trigger] a[w].key()) == k;
            assert(Some(a[w]@) == tentative_action(l, r, k));
            assert(has_key(b, k));
        }
        if has_key(b, k) {
            let w = choose|w: int| 0 <= w < b.len() && (#[trigger] b[w].key()) == k;
            assert(Some(b[w]@) == tentative_action(l, r, k));
            assert(has_key(a, k));
        }
    }
    assert forall|i: int, j: int|
        0 <= i < a.len() && 0 <= j < b.len() && (#[trigger] a[i]).key() == (
        #[trigger] b[j]).key() implies a[i]@ == b[j]@ by {
        assert(Some(a[i]@) == tentative_action(l, r, a[i].term@));
        assert(Some(b[j]@) == tentative_action(l, r, b[j].term@));
    }
    lemma_pinned_lists_equal(a, b);
}

/// Determinism of the full pipeline: any two action lists that meet its
/// contract for the same three snapshots are the same list, record for
/// record.
pub proof fn lemma_merge_deterministic(
    l: Seq<local::Translation>,
    r: Seq<remote::Translation>,
    g: Seq<local::Translation>,
    a: Seq<Translation>,
    b: Seq<Translation>,
)
    requires
        is_final_list(a, l, r, g),
        is_final_list(b, l, r, g),
    ensures
        a.len() == b.len(),
        forall|i: int| 0 <= i < a.len() ==> (#[trigger] a[i])@ == b[i]@,
{
    assert forall|k: Seq<char>| #[trigger] has_key(a, k) == has_key(b, k) by {
        if has_key(a, k) {
            let w = choose|w: int| 0 <= w < a.len() && (#[trigger] a[w].key()) == k;
            assert(Some(a[w]@) == final_action(l, r, g, k));
            assert(has_key(b, k));
        }
        if has_key(b, k) {
            let w = choose|w: int| 0 <= w < b.len() && (#[trigger] b[w].key()) == k;
            assert(Some(b[w]@) == final_action(l, r, g, k));
            assert(has_key(a, k));
        }
    }
    assert forall|i: int, j: int|
        0 <= i < a.len() && 0 <= j < b.len() && (#[trigger] a[i]).key() == (
        #[trigger] b[j]).key() implies a[i]@ == b[j]@ by {
        assert(Some(a[i]@) == final_action(l, r, g, a[i].term@));
        assert(Some(b[j]@) == final_action(l, r, g, b[j].term@));
    }
    lemma_pinned_lists_equal(a, b);
}

/// Bypass equivalence: a list produced with an absent baseline and a
/// tentative list of the same Local and Remote snapshots are the same
/// list, record for record. Running the engine without a baseline is
/// observably identical to skipping the refinement stage.
pub proof fn lemma_bypass_equivalence(
    l: Seq<local::Translation>,
    r: Seq<remote::Translation>,
    no_baseline_out: Seq<Translation>,
    tentative_out: Seq<Translation>,
)
    requires
        is_tentative_list(no_baseline_out, l, r),
        is_tentative_list(tentative_out, l, r),
    ensures
        no_baseline_out.len() == tentative_out.len(),
        forall|i: int|
            0 <= i < no_baseline_out.len() ==> (#[trigger] no_baseline_out[i])@
                == tentative_out[i]@,
{
    lemma_two_way_deterministic(l, r, no_baseline_out, tentative_out);
}

/// Subset property of the refinement stage: every key of the refined list
/// carries a tentative action, and the refined record is that tentative
/// record unchanged — the refinement never invents or alters an action.
pub proof fn lemma_refined_subset(
    out: Seq<Translation>,
    t: Seq<Translation>,
    g: Seq<local::Translation>,
)
    requires
        is_refined_list(out, t, g),
    ensures
        forall|i: int| 0 <= i < out.len() ==> has_key(t, (#[trigger] out[i]).term@),
        forall|i: int|
            0 <= i < out.len() ==> (#[trigger] out[i])@ == record_at(t, out[i].term@)@,
{
    assert forall|i: int| 0 <= i < out.len() implies has_key(t, (#[trigger] out[i]).term@)
        && out[i]@ == record_at(t, out[i].term@)@ by {
        assert(Some(out[i]@) == refined_action(t, g, out[i].term@));
    }
}

/// Subset property of the full pipeline: every key of the final list also
/// carries a tentative action of the two-way merge, so the final list is,
/// by key, a subset of the tentative list.
pub proof fn lemma_final_subset_of_tentative(
    out: Seq<Translation>,
    t: Seq<Translation>,
    l: Seq<local::Translation>,
    r: Seq<remote::Translation>,
    g: Seq<local::Translation>,
)
    requires
        is_final_list(out, l, r, g),
        is_tentative_list(t, l, r),
    ensures
        forall|i: int| 0 <= i < out.len() ==> has_key(t, (#[trigger] out[i]).term@),
{
    assert forall|i: int| 0 <= i < out.len() implies has_key(t, (#[trigger] out[i]).term@) by {
        assert(Some(out[i]@) == final_action(l, r, g, out[i].term@));
        assert(tentative_action(l, r, out[i].term@) is Some);
    }
}

/// If Local and Remote hold identical key/text pairs, no key has a
/// tentative action.
proof fn lemma_identical_snapshots_no_action(
    l: Seq<local::Translation>,
    r: Seq<remote::Translation>,
)
    requires
        forall|k: Seq<char>| #[trigger] has_key(l, k) == has_key(r, k),
        forall|k: Seq<char>|
            #[trigger] has_key(l, k) ==> record_at(l, k).translation@ == record_at(
                r,
                k,
            ).translation@,
    ensures
        forall|k: Seq<char>| (#[trigger] tentative_action(l, r, k)) is None,
{
}

/// No-op idempotence of the two-way merge: if Local and Remote hold
/// identical key/text pairs, the action list is empty.
pub proof fn lemma_noop_two_way(
    l: Seq<local::Translation>,
    r: Seq<remote::Translation>,
    out: Seq<Translation>,
)
    requires
        forall|k: Seq<char>| #[trigger] has_key(l, k) == has_key(r, k),
        forall|k: Seq<char>|
            #[trigger] has_key(l, k) ==> record_at(l, k).translation@ == record_at(
                r,
                k,
            ).translation@,
        is_tentative_list(out, l, r),
    ensures
        out.len() == 0,
{
    lemma_identical_snapshots_no_action(l, r);
    if out.len() > 0 {
        assert(Some(out[0]@) == tentative_action(l, r, out[0].term@));
    }
}

/// No-op idempotence of the full pipeline: if Local and Remote hold
/// identical key/text pairs, the action list is empty whatever the
/// baseline holds.
pub proof fn lemma_noop_any_baseline(
    l: Seq<local::Translation>,
    r: Seq<remote::Translation>,
    g: Seq<local::Translation>,
    out: Seq<Translation>,
)
    requires
        forall|k: Seq<char>| #[trigger] has_key(l, k) == has_key(r, k),
        forall|k: Seq<char>|
            #[trigger] has_key(l, k) ==> record_at(l, k).translation@ == record_at(
                r,
                k,
            ).translation@,
        is_final_list(out, l, r, g),
    ensures
        out.len() == 0,
{
    lemma_identical_snapshots_no_action(l, r);
    if out.len() > 0 {
        assert(Some(out[0]@) == final_action(l, r, g, out[0].term@));
    }
}

/// Empty-text safety: a key present in both Local and Remote whose local
/// text is empty yields no action, whatever the remote text and whatever
/// the baseline.
pub proof fn lemma_empty_text_safety(
    l: Seq<local::Translation>,
    r: Seq<remote::Translation>,
    g: Seq<local::Translation>,
    k: Seq<char>,
)
    requires
        has_key(l, k),
        has_key(r, k),
        record_at(l, k).translation@.len() == 0,
    ensures
        tentative_action(l, r, k) is None,
        final_action(l, r, g, k) is None,
{
}

/// A key with no tentative action does not occur in the tentative list.
pub proof fn lemma_absent_from_tentative(
    out: Seq<Translation>,
    l: Seq<local::Translation>,
    r: Seq<remote::Translation>,
    k: Seq<char>,
)
    requires
        is_tentative_list(out, l, r),
        tentative_action(l, r, k) is None,
    ensures
        !has_key(out, k),
{
    if has_key(out, k) {
        let w = choose|w: int| 0 <= w < out.len() && (#[trigger] out[w].key()) == k;
        assert(Some(out[w]@) == tentative_action(l, r, k));
    }
}

/// A key with no final action does not occur in the final list.
pub proof fn lemma_absent_from_final(
    out: Seq<Translation>,
    l: Seq<local::Translation>,
    r: Seq<remote::Translation>,
    g: Seq<local::Translation>,
    k: Seq<char>,
)
    requires
        is_final_list(out, l, r, g),
        final_action(l, r, g, k) is None,
    ensures
        !has_key(out, k),
{
    if has_key(out, k) {
        let w = choose|w: int| 0 <= w < out.len() && (#[trigger] out[w].key()) == k;
        assert(Some(out[w]@) == final_action(l, r, g, k));
    }
}

} // verus!
