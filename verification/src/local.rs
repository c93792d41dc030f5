//! Records of the local translation file.
//!
//! The same record shape serves two snapshots: the current content of the
//! local file, and the baseline content of that file at a historical
//! reference point.

use vstd::prelude::*;

verus! {

/// One term/translation pair as read from the local translation file, or
/// from the baseline revision of it.
///
/// `translation` may be empty, meaning "no local translation yet"; the merge
/// never treats an empty text as an intentional erasure.
#[derive(Debug)]
pub struct Translation {
    pub term: String,
    pub translation: String,
}

impl Clone for Translation {
    fn clone(&self) -> (r: Self)
        ensures
            r@ == self@,
    {
        Self { term: self.term.clone(), translation: self.translation.clone() }
    }
}

/// Mathematical model of a local record: both fields as character sequences.
pub ghost struct TranslationModel {
    pub term: Seq<char>,
    pub translation: Seq<char>,
}

impl View for Translation {
    type V = TranslationModel;

    open spec fn view(&self) -> TranslationModel {
        TranslationModel { term: self.term@, translation: self.translation@ }
    }
}

impl DeepView for Translation {
    type V = TranslationModel;

    open spec fn deep_view(&self) -> TranslationModel {
        self@
    }
}

impl PartialEq for Translation {
    fn eq(&self, other: &Self) -> bool {
        self.term == other.term && self.translation == other.translation
    }
}

impl vstd::std_specs::cmp::PartialEqSpecImpl for Translation {
    open spec fn obeys_eq_spec() -> bool {
        true
    }

    open spec fn eq_spec(&self, other: &Self) -> bool {
        self@ == other@
    }
}

impl Translation {
    pub fn new(term: String, translation: String) -> (r: Self)
        ensures
            r@.term == term@,
            r@.translation == translation@,
    {
        Self { term, translation }
    }
}

} // verus!
