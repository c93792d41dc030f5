//! The reviewable form of the engine's output.
//!
//! Before the actions are executed they are shown to a human as three lists
//! — added, removed and updated terms — whose entries can be deselected
//! individually. This module holds the data model of that review surface:
//! grouping the action list into the three lists, and turning the selected
//! entries back into actions for execution.

use vstd::prelude::*;
use crate::merge;
use crate::merge::Modification;
use crate::merge::ModificationModel;
use crate::merge::TranslationModel;
use crate::remote::TermId;

verus! {

/// Marker of an entry whose term is to be deleted remotely; carries the
/// remote identifier the delete call needs.
#[derive(Debug)]
pub struct Removed(pub TermId);

/// Marker of an entry whose remote translation text is to be replaced;
/// carries the remote identifier the update call needs.
#[derive(Debug)]
pub struct Updated(pub TermId);

/// Marker of an entry whose term is to be created remotely; such a term has
/// no remote identity yet.
#[derive(Debug)]
pub struct Added;

impl View for Removed {
    type V = Seq<char>;

    open spec fn view(&self) -> Seq<char> {
        self.0@
    }
}

impl View for Updated {
    type V = Seq<char>;

    open spec fn view(&self) -> Seq<char> {
        self.0@
    }
}

impl View for Added {
    type V = ();

    open spec fn view(&self) -> () {
        ()
    }
}

/// One reviewable entry: whether it is currently selected for execution,
/// and the term and translation text it shows.
#[derive(Debug)]
pub struct ModificationEntry<T> {
    pub active: bool,
    pub term: String,
    pub translation: String,
    pub modification: T,
}

/// Mathematical model of a reviewable entry.
pub ghost struct EntryModel<V> {
    pub active: bool,
    pub term: Seq<char>,
    pub translation: Seq<char>,
    pub modification: V,
}

impl<T: View> View for ModificationEntry<T> {
    type V = EntryModel<<T as View>::V>;

    open spec fn view(&self) -> EntryModel<<T as View>::V> {
        EntryModel {
            active: self.active,
            term: self.term@,
            translation: self.translation@,
            modification: self.modification@,
        }
    }
}

impl ModificationEntry<Updated> {
    /// A freshly built entry is selected.
    pub fn updated(term: String, translation: String, id: TermId) -> (r: Self)
        ensures
            r@ == (EntryModel {
                active: true,
                term: term@,
                translation: translation@,
                modification: id@,
            }),
    {
        Self { active: true, term, modification: Updated(id), translation }
    }
}

impl ModificationEntry<Removed> {
    /// A freshly built entry is selected.
    pub fn removed(term: String, translation: String, id: TermId) -> (r: Self)
        ensures
            r@ == (EntryModel {
                active: true,
                term: term@,
                translation: translation@,
                modification: id@,
            }),
    {
        Self { active: true, term, modification: Removed(id), translation }
    }
}

impl ModificationEntry<Added> {
    /// A freshly built entry is selected.
    pub fn added(term: String, translation: String) -> (r: Self)
        ensures
            r@ == (EntryModel {
                active: true,
                term: term@,
                translation: translation@,
                modification: (),
            }),
    {
        Self { active: true, term, modification: Added, translation }
    }
}

/// The action asks for a remote creation.
pub open spec fn is_added(t: merge::Translation) -> bool {
    t.modification@ is Added
}

/// The action asks for a remote deletion.
pub open spec fn is_removed(t: merge::Translation) -> bool {
    t.modification@ is Removed
}

/// The action asks for a remote text replacement.
pub open spec fn is_updated(t: merge::Translation) -> bool {
    t.modification@ is Updated
}

/// The creations of an action list, in order.
pub open spec fn added_of(s: Seq<merge::Translation>) -> Seq<merge::Translation> {
    s.filter(|t: merge::Translation| is_added(t))
}

/// The deletions of an action list, in order.
pub open spec fn removed_of(s: Seq<merge::Translation>) -> Seq<merge::Translation> {
    s.filter(|t: merge::Translation| is_removed(t))
}

/// The text replacements of an action list, in order.
pub open spec fn updated_of(s: Seq<merge::Translation>) -> Seq<merge::Translation> {
    s.filter(|t: merge::Translation| is_updated(t))
}

/// The remote identifier an action carries; empty for a creation, which
/// has none.
pub open spec fn mod_id(t: merge::Translation) -> Seq<char> {
    match t.modification@ {
        ModificationModel::Removed(id) => id,
        ModificationModel::Updated(id) => id,
        ModificationModel::Added => Seq::empty(),
    }
}

/// The selected entries of a review list, in order.
pub open spec fn active_entries<T>(s: Seq<ModificationEntry<T>>) -> Seq<ModificationEntry<T>> {
    s.filter(|e: ModificationEntry<T>| e.active)
}

/// Appending one record to a sequence extends its filtered form by that
/// record exactly when the record passes the filter.
proof fn lemma_filter_push<A>(s: Seq<A>, pred: spec_fn(A) -> bool, x: A)
    ensures
        s.push(x).filter(pred) == if pred(x) {
            s.filter(pred).push(x)
        } else {
            s.filter(pred)
        },
{
    assert(s.push(x).drop_last() =~= s);
    assert(s.push(x).last() == x);
    reveal_with_fuel(Seq::filter, 2);
}

/// Selects or deselects every entry of one review list at once, as the
/// list's select-all toggle does; nothing else about the entries changes.
pub fn set_all_active<T>(entries: Vec<ModificationEntry<T>>, active: bool) -> (r: Vec<
    ModificationEntry<T>,
>)
    ensures
        r@.len() == entries@.len(),
        forall|i: int|
            0 <= i < r@.len() ==> (#[trigger] r@[i]).active == active && r@[i].term
                == entries@[i].term && r@[i].translation == entries@[i].translation
                && r@[i].modification == entries@[i].modification,
{
    let ghost orig = entries@;
    let mut rest = entries;
    let mut out: Vec<ModificationEntry<T>> = Vec::new();
    while rest.len() > 0
        invariant
            orig.len() == out@.len() + rest@.len(),
            forall|i: int| 0 <= i < rest@.len() ==> rest@[i] == orig[out@.len() + i],
            forall|i: int|
                0 <= i < out@.len() ==> (#[trigger] out@[i]).active == active && out@[i].term
                    == orig[i].term && out@[i].translation == orig[i].translation
                    && out@[i].modification == orig[i].modification,
        decreases rest@.len(),
    {
        let mut e = rest.remove(0);
        e.active = active;
        out.push(e);
    }
    out
}

/// The review surface's data: the engine's actions, grouped into the three
/// lists a human reviews, every entry initially selected.
#[derive(Debug)]
pub struct AppState {
    pub added: Vec<ModificationEntry<Added>>,
    pub removed: Vec<ModificationEntry<Removed>>,
    pub updated: Vec<ModificationEntry<Updated>>,
}

impl AppState {
    /// Groups an action list into the three review lists. Each list holds
    /// exactly the actions of its kind, in the order the engine produced
    /// them, and every entry starts out selected.
    pub fn build(translations: Vec<merge::Translation>) -> (r: Self)
        ensures
            r.added@.len() == added_of(translations@).len(),
            forall|i: int|
                0 <= i < r.added@.len() ==> (#[trigger] r.added@[i])@ == (EntryModel {
                    active: true,
                    term: added_of(translations@)[i].term@,
                    translation: added_of(translations@)[i].translation@,
                    modification: (),
                }),
            r.removed@.len() == removed_of(translations@).len(),
            forall|i: int|
                0 <= i < r.removed@.len() ==> (#[trigger] r.removed@[i])@ == (EntryModel {
                    active: true,
                    term: removed_of(translations@)[i].term@,
                    translation: removed_of(translations@)[i].translation@,
                    modification: mod_id(removed_of(translations@)[i]),
                }),
            r.updated@.len() == updated_of(translations@).len(),
            forall|i: int|
                0 <= i < r.updated@.len() ==> (#[trigger] r.updated@[i])@ == (EntryModel {
                    active: true,
                    term: updated_of(translations@)[i].term@,
                    translation: updated_of(translations@)[i].translation@,
                    modification: mod_id(updated_of(translations@)[i]),
                }),
    {
        let ghost all = translations@;
        let mut added: Vec<ModificationEntry<Added>> = Vec::new();
        let mut removed: Vec<ModificationEntry<Removed>> = Vec::new();
        let mut updated: Vec<ModificationEntry<Updated>> = Vec::new();
        let mut p: usize = 0;
        proof {
            assert(all.take(0) =~= Seq::<merge::Translation>::empty());
            reveal_with_fuel(Seq::filter, 2);
        }
        while p < translations.len()
            invariant
                p <= all.len(),
                translations@ == all,
                added@.len() == added_of(all.take(p as int)).len(),
                forall|i: int|
                    0 <= i < added@.len() ==> (#[trigger] added@[i])@ == (EntryModel {
                        active: true,
                        term: added_of(all.take(p as int))[i].term@,
                        translation: added_of(all.take(p as int))[i].translation@,
                        modification: (),
                    }),
                removed@.len() == removed_of(all.take(p as int)).len(),
                forall|i: int|
                    0 <= i < removed@.len() ==> (#[trigger] removed@[i])@ == (EntryModel {
                        active: true,
                        term: removed_of(all.take(p as int))[i].term@,
                        translation: removed_of(all.take(p as int))[i].translation@,
                        modification: mod_id(removed_of(all.take(p as int))[i]),
                    }),
                updated@.len() == updated_of(all.take(p as int)).len(),
                forall|i: int|
                    0 <= i < updated@.len() ==> (#[trigger] updated@[i])@ == (EntryModel {
                        active: true,
                        term: updated_of(all.take(p as int))[i].term@,
                        translation: updated_of(all.take(p as int))[i].translation@,
                        modification: mod_id(updated_of(all.take(p as int))[i]),
                    }),
            decreases all.len() - p,
        {
            let ghost prefix = all.take(p as int);
            let ghost x = all[p as int];
            proof {
                assert(all.take(p as int + 1) =~= prefix.push(x));
                lemma_filter_push(prefix, |t: merge::Translation| is_added(t), x);
                lemma_filter_push(prefix, |t: merge::Translation| is_removed(t), x);
                lemma_filter_push(prefix, |t: merge::Translation| is_updated(t), x);
            }
            let t = &translations[p];
            match &t.modification {
                Modification::Removed(id) => {
                    removed.push(
                        ModificationEntry::removed(
                            t.term.clone(),
                            t.translation.clone(),
                            id.clone(),
                        ),
                    );
                },
                Modification::Added => {
                    added.push(ModificationEntry::added(t.term.clone(), t.translation.clone()));
                },
                Modification::Updated(id) => {
                    updated.push(
                        ModificationEntry::updated(
                            t.term.clone(),
                            t.translation.clone(),
                            id.clone(),
                        ),
                    );
                },
            }
            p = p + 1;
        }
        proof {
            assert(all.take(all.len() as int) =~= all);
        }
        Self { added, removed, updated }
    }

    /// Turns the selected entries back into the actions to execute: first
    /// the selected creations, then the selected deletions, then the
    /// selected text replacements, each group in review order.
    pub fn extract_translations(&self) -> (r: Vec<merge::Translation>)
        ensures
            r@.len() == active_entries(self.added@).len() + active_entries(self.removed@).len()
                + active_entries(self.updated@).len(),
            forall|i: int|
                0 <= i < active_entries(self.added@).len() ==> (#[trigger] r@[i])@ == (
                TranslationModel {
                    term: active_entries(self.added@)[i].term@,
                    translation: active_entries(self.added@)[i].translation@,
                    modification: ModificationModel::Added,
                }),
            forall|i: int|
                0 <= i < active_entries(self.removed@).len() ==> (#[trigger] r@[i
                    + active_entries(self.added@).len()])@ == (TranslationModel {
                    term: active_entries(self.removed@)[i].term@,
                    translation: active_entries(self.removed@)[i].translation@,
                    modification: ModificationModel::Removed(
                        active_entries(self.removed@)[i].modification@,
                    ),
                }),
            forall|i: int|
                0 <= i < active_entries(self.updated@).len() ==> (#[trigger] r@[i
                    + active_entries(self.added@).len() + active_entries(
                    self.removed@,
                ).len()])@ == (TranslationModel {
                    term: active_entries(self.updated@)[i].term@,
                    translation: active_entries(self.updated@)[i].translation@,
                    modification: ModificationModel::Updated(
                        active_entries(self.updated@)[i].modification@,
                    ),
                }),
    {
        let mut r: Vec<merge::Translation> = Vec::new();
        let ghost a_all = self.added@;
        let ghost b_all = self.removed@;
        let ghost c_all = self.updated@;
        let mut p: usize = 0;
        proof {
            assert(a_all.take(0) =~= Seq::<ModificationEntry<Added>>::empty());
            reveal_with_fuel(Seq::filter, 2);
        }
        while p < self.added.len()
            invariant
                p <= a_all.len(),
                self.added@ == a_all,
                r@.len() == active_entries(a_all.take(p as int)).len(),
                forall|i: int|
                    0 <= i < r@.len() ==> (#[trigger] r@[i])@ == (TranslationModel {
                        term: active_entries(a_all.take(p as int))[i].term@,
                        translation: active_entries(a_all.take(p as int))[i].translation@,
                        modification: ModificationModel::Added,
                    }),
            decreases a_all.len() - p,
        {
            let ghost prefix = a_all.take(p as int);
            proof {
                assert(a_all.take(p as int + 1) =~= prefix.push(a_all[p as int]));
                lemma_filter_push(
                    prefix,
                    |e: ModificationEntry<Added>| e.active,
                    a_all[p as int],
                );
            }
            let e = &self.added[p];
            if e.active {
                r.push(merge::Translation::added(e.term.clone(), e.translation.clone()));
            }
            p = p + 1;
        }
        proof {
            assert(a_all.take(a_all.len() as int) =~= a_all);
        }
        let ghost base_a = r@;
        let mut p: usize = 0;
        proof {
            assert(b_all.take(0) =~= Seq::<ModificationEntry<Removed>>::empty());
            reveal_with_fuel(Seq::filter, 2);
        }
        while p < self.removed.len()
            invariant
                p <= b_all.len(),
                self.removed@ == b_all,
                r@.len() == base_a.len() + active_entries(b_all.take(p as int)).len(),
                forall|i: int| 0 <= i < base_a.len() ==> (#[trigger] r@[i]) == base_a[i],
                forall|i: int|
                    0 <= i < active_entries(b_all.take(p as int)).len() ==> (#[trigger] r@[i
                        + base_a.len()])@ == (TranslationModel {
                        term: active_entries(b_all.take(p as int))[i].term@,
                        translation: active_entries(b_all.take(p as int))[i].translation@,
                        modification: ModificationModel::Removed(
                            active_entries(b_all.take(p as int))[i].modification@,
                        ),
                    }),
            decreases b_all.len() - p,
        {
            let ghost prefix = b_all.take(p as int);
            proof {
                assert(b_all.take(p as int + 1) =~= prefix.push(b_all[p as int]));
                lemma_filter_push(
                    prefix,
                    |e: ModificationEntry<Removed>| e.active,
                    b_all[p as int],
                );
            }
            let e = &self.removed[p];
            if e.active {
                r.push(
                    merge::Translation::removed(
                        e.term.clone(),
                        e.translation.clone(),
                        e.modification.0.clone(),
                    ),
                );
            }
            p = p + 1;
        }
        proof {
            assert(b_all.take(b_all.len() as int) =~= b_all);
        }
        let ghost base_b = r@;
        let mut p: usize = 0;
        proof {
            assert(c_all.take(0) =~= Seq::<ModificationEntry<Updated>>::empty());
            reveal_with_fuel(Seq::filter, 2);
        }
        while p < self.updated.len()
            invariant
                p <= c_all.len(),
                self.updated@ == c_all,
                r@.len() == base_b.len() + active_entries(c_all.take(p as int)).len(),
                forall|i: int| 0 <= i < base_b.len() ==> (#[trigger] r@[i]) == base_b[i],
                forall|i: int|
                    0 <= i < active_entries(c_all.take(p as int)).len() ==> (#[trigger] r@[i
                        + base_b.len()])@ == (TranslationModel {
                        term: active_entries(c_all.take(p as int))[i].term@,
                        translation: active_entries(c_all.take(p as int))[i].translation@,
                        modification: ModificationModel::Updated(
                            active_entries(c_all.take(p as int))[i].modification@,
                        ),
                    }),
            decreases c_all.len() - p,
        {
            let ghost prefix = c_all.take(p as int);
            proof {
                assert(c_all.take(p as int + 1) =~= prefix.push(c_all[p as int]));
                lemma_filter_push(
                    prefix,
                    |e: ModificationEntry<Updated>| e.active,
                    c_all[p as int],
                );
            }
            let e = &self.updated[p];
            if e.active {
                r.push(
                    merge::Translation::updated(
                        e.term.clone(),
                        e.translation.clone(),
                        e.modification.0.clone(),
                    ),
                );
            }
            p = p + 1;
        }
        proof {
            assert(c_all.take(c_all.len() as int) =~= c_all);
            assert(base_b.len() == active_entries(a_all).len() + active_entries(b_all).len());
            assert forall|i: int|
                0 <= i < active_entries(c_all).len() implies (#[trigger] r@[i + active_entries(
                a_all,
            ).len() + active_entries(b_all).len()])@ == (TranslationModel {
                term: active_entries(c_all)[i].term@,
                translation: active_entries(c_all)[i].translation@,
                modification: ModificationModel::Updated(active_entries(c_all)[i].modification@),
            }) by {
                assert(r@[i + base_b.len()]@ == (TranslationModel {
                    term: active_entries(c_all)[i].term@,
                    translation: active_entries(c_all)[i].translation@,
                    modification: ModificationModel::Updated(
                        active_entries(c_all)[i].modification@,
                    ),
                }));
            }
        }
        r
    }
}

} // verus!
