use traduora_update::local;
use traduora_update::merge::{merge, reconcile, two_way_merge, Modification, Translation};
use traduora_update::remote;
use traduora_update::remote::{pair_terms, Term, TermId, TranslationEntry};

fn loc(term: &str, translation: &str) -> local::Translation {
    local::Translation::new(term.to_string(), translation.to_string())
}

fn rem(id: &str, term: &str, translation: &str) -> remote::Translation {
    remote::Translation {
        term_id: TermId(id.to_string()),
        term: term.to_string(),
        translation: translation.to_string(),
    }
}

#[test]
fn do_not_remove_text_for_translation_update() {
    let remote = vec![rem("example-id", "foo.bar.baz", "hello world")];
    let local = vec![loc("foo.bar.baz", "")];
    let git = Vec::new();

    let result = merge(local, remote, git);

    let expected: &[Translation] = &[];
    assert_eq!(expected, result);
}

#[test]
fn added_without_baseline() {
    let local = vec![loc("a.b", "hello")];
    let remote = Vec::new();

    let result = reconcile(local, remote, None);

    assert_eq!(result.len(), 1);
    assert_eq!(result[0].term, "a.b");
    assert_eq!(result[0].translation, "hello");
    assert_eq!(result[0].modification, Modification::Added);
}

#[test]
fn removed_confirmed_by_baseline() {
    let local = Vec::new();
    let remote = vec![rem("1", "a.b", "hi")];
    let baseline = vec![loc("a.b", "hi")];

    let result = merge(local, remote, baseline);

    assert_eq!(result.len(), 1);
    assert_eq!(result[0].term, "a.b");
    assert_eq!(result[0].modification, Modification::Removed(TermId("1".to_string())));
}

#[test]
fn removed_unconfirmed_is_dropped() {
    let local = Vec::new();
    let remote = vec![rem("1", "a.b", "hi")];
    let baseline = Vec::new();

    let result = merge(local, remote, baseline);

    assert!(result.is_empty());
}

#[test]
fn stale_local_update_is_suppressed() {
    let local = vec![loc("a.b", "old")];
    let remote = vec![rem("1", "a.b", "new-from-elsewhere")];
    let baseline = vec![loc("a.b", "old")];

    let result = merge(local, remote, baseline);

    assert!(result.is_empty());
}

#[test]
fn genuine_local_edit_is_kept() {
    let local = vec![loc("a.b", "new-local")];
    let remote = vec![rem("1", "a.b", "remote-text")];
    let baseline = vec![loc("a.b", "old-local")];

    let result = merge(local, remote, baseline);

    assert_eq!(result.len(), 1);
    assert_eq!(result[0].term, "a.b");
    assert_eq!(result[0].translation, "new-local");
    assert_eq!(result[0].modification, Modification::Updated(TermId("1".to_string())));
}

#[test]
fn added_term_known_to_baseline_is_dropped() {
    // The term exists locally and in the baseline but not remotely: it was
    // deleted remotely after the baseline, so it must not be re-created.
    let local = vec![loc("a.b", "hello")];
    let remote = Vec::new();
    let baseline = vec![loc("a.b", "hello")];

    let result = merge(local, remote, baseline);

    assert!(result.is_empty());
}

#[test]
fn update_of_term_unknown_to_baseline_is_kept() {
    let local = vec![loc("a.b", "mine")];
    let remote = vec![rem("1", "a.b", "theirs")];
    let baseline = Vec::new();

    let result = merge(local, remote, baseline);

    assert_eq!(result.len(), 1);
    assert_eq!(result[0].modification, Modification::Updated(TermId("1".to_string())));
}

#[test]
fn identical_snapshots_need_no_action() {
    let local = vec![loc("a", "x"), loc("b", "y"), loc("c", "")];
    let remote = vec![rem("1", "a", "x"), rem("2", "b", "y"), rem("3", "c", "")];

    assert!(two_way_merge(local.clone(), remote.clone()).is_empty());
    assert!(merge(local.clone(), remote.clone(), Vec::new()).is_empty());
    assert!(merge(local, remote, vec![loc("a", "x")]).is_empty());
}

#[test]
fn empty_local_text_produces_no_action() {
    let local = vec![loc("a.b", ""), loc("c.d", "set")];
    let remote = vec![rem("1", "a.b", "kept"), rem("2", "c.d", "old")];

    let result = merge(local, remote, Vec::new());

    assert_eq!(result.len(), 1);
    assert_eq!(result[0].term, "c.d");
    assert_eq!(result[0].modification, Modification::Updated(TermId("2".to_string())));
}

#[test]
fn repeated_runs_give_identical_output() {
    let local = vec![loc("b", "2"), loc("a", "1"), loc("d", "4")];
    let remote = vec![rem("9", "c", "3"), rem("8", "a", "other")];
    let baseline = vec![loc("c", "3"), loc("a", "1")];

    let first = merge(local.clone(), remote.clone(), baseline.clone());
    let second = merge(local, remote, baseline);

    assert_eq!(first, second);
}

#[test]
fn output_is_ascending_by_key_whatever_the_input_order() {
    let local = vec![loc("z.last", "1"), loc("a.first", "2"), loc("m.middle", "3")];
    let remote = Vec::new();

    let result = reconcile(local, remote, None);

    assert_eq!(result.len(), 3);
    assert_eq!(result[0].term, "a.first");
    assert_eq!(result[1].term, "m.middle");
    assert_eq!(result[2].term, "z.last");
}

#[test]
fn keys_order_by_code_point() {
    // U+00E9 is above every ASCII letter, so "zz" sorts before the accented key.
    let local = vec![loc("\u{e9}tat", "1"), loc("zz", "2")];
    let remote = Vec::new();

    let result = reconcile(local, remote, None);

    assert_eq!(result.len(), 2);
    assert_eq!(result[0].term, "zz");
    assert_eq!(result[1].term, "\u{e9}tat");
}

#[test]
fn refinement_output_is_subset_of_tentative() {
    let local = vec![loc("a", "1"), loc("b", "2")];
    let remote = vec![rem("1", "b", "other"), rem("2", "c", "gone")];
    let baseline = vec![loc("b", "2"), loc("c", "gone")];

    let tentative = two_way_merge(local.clone(), remote.clone());
    let refined = merge(local, remote, baseline);

    for action in &refined {
        assert!(tentative.iter().any(|t| t.term == action.term));
    }
}

#[test]
fn bypass_mode_equals_two_way_merge() {
    let local = vec![loc("a", "1"), loc("b", "2")];
    let remote = vec![rem("1", "b", "other"), rem("2", "c", "gone")];

    let bypass = reconcile(local.clone(), remote.clone(), None);
    let tentative = two_way_merge(local.clone(), remote.clone());
    // An empty baseline is not the bypass mode: it drops the unconfirmed removal.
    let empty_baseline = reconcile(local, remote, Some(Vec::new()));

    assert_eq!(bypass, tentative);
    assert_eq!(bypass.len(), 3);
    assert_eq!(empty_baseline.len(), 2);
}

#[test]
fn full_pipeline_mixed_scenario() {
    let local = vec![
        loc("new.term", "fresh"),
        loc("edited.term", "local-edit"),
        loc("stale.term", "unchanged"),
        loc("revived.term", "back"),
    ];
    let remote = vec![
        rem("10", "edited.term", "remote-text"),
        rem("11", "stale.term", "remote-edit"),
        rem("12", "deleted.term", "bye"),
        rem("13", "foreign.term", "keep-me"),
    ];
    let baseline = vec![
        loc("edited.term", "old"),
        loc("stale.term", "unchanged"),
        loc("deleted.term", "bye"),
        loc("revived.term", "back"),
    ];

    let result = merge(local, remote, baseline);

    // deleted.term: gone locally, known to the baseline -> removed remotely.
    // edited.term: local text changed since baseline -> updated.
    // foreign.term: created remotely, unknown to baseline and local -> left alone.
    // new.term: unknown to baseline and remote -> added.
    // revived.term: in local and baseline but not remote -> deleted remotely, dropped.
    // stale.term: local equals baseline -> remote edit wins, dropped.
    assert_eq!(result.len(), 3);
    assert_eq!(result[0].term, "deleted.term");
    assert_eq!(result[0].modification, Modification::Removed(TermId("12".to_string())));
    assert_eq!(result[1].term, "edited.term");
    assert_eq!(result[1].translation, "local-edit");
    assert_eq!(result[1].modification, Modification::Updated(TermId("10".to_string())));
    assert_eq!(result[2].term, "new.term");
    assert_eq!(result[2].translation, "fresh");
    assert_eq!(result[2].modification, Modification::Added);
}

#[test]
fn pairing_joins_terms_with_their_entries() {
    let terms = vec![
        Term { id: TermId("2".to_string()), value: "b.term".to_string() },
        Term { id: TermId("1".to_string()), value: "a.term".to_string() },
    ];
    let translations = vec![
        TranslationEntry { term_id: TermId("1".to_string()), value: "hello".to_string() },
        TranslationEntry { term_id: TermId("3".to_string()), value: "orphan".to_string() },
    ];

    let result = pair_terms(terms, translations);

    // One record per term, ordered by identifier; the entry without a term
    // is dropped, the term without an entry gets an empty text.
    assert_eq!(result.len(), 2);
    assert_eq!(result[0].term_id.0, "1");
    assert_eq!(result[0].term, "a.term");
    assert_eq!(result[0].translation, "hello");
    assert_eq!(result[1].term_id.0, "2");
    assert_eq!(result[1].term, "b.term");
    assert_eq!(result[1].translation, "");
}
