use musync::hashing::fingerprint;
use musync::prune::should_remove;
use musync::scan::{examine, process_file, Action, ExpectedSet, FileOutcome};
use musync::state::StateTable;

fn b(s: &str) -> Vec<u8> {
    s.as_bytes().to_vec()
}

fn run_one(
    prior: &StateTable,
    new_state: &mut StateTable,
    expected: &mut ExpectedSet,
    rel: &str,
    data: &str,
) -> Option<FileOutcome> {
    process_file(prior, new_state, expected, &b(rel), &b(data))
}

#[test]
fn examine_filters_extensions() {
    assert_eq!(examine(&b("a/b.flac")), Some(true));
    assert_eq!(examine(&b("a/b.aiff")), Some(true));
    assert_eq!(examine(&b("a/b.ogg")), Some(true));
    assert_eq!(examine(&b("a/b.mod")), Some(true));
    assert_eq!(examine(&b("a/b.xm")), Some(true));
    assert_eq!(examine(&b("a/b.m4a")), Some(true));
    assert_eq!(examine(&b("a/b.mp3")), Some(false));
    assert_eq!(examine(&b("a/b.txt")), None);
    assert_eq!(examine(&b("a/cover.jpg")), None);
    assert_eq!(examine(&b("a/README")), None);
    assert_eq!(examine(&b("a/.flac")), None);
}

#[test]
fn filtered_file_leaves_no_trace() {
    let prior = StateTable::new();
    let mut new_state = StateTable::new();
    let mut expected = ExpectedSet::new();
    let r = run_one(&prior, &mut new_state, &mut expected, "notes/readme.txt", "hello");
    assert!(r.is_none());
    assert_eq!(new_state.len(), 0);
    assert!(!expected.contains(&b("notes/readme.mp3")));
}

#[test]
fn new_convertible_file_is_converted() {
    let prior = StateTable::new();
    let mut new_state = StateTable::new();
    let mut expected = ExpectedSet::new();
    let o = run_one(&prior, &mut new_state, &mut expected, "artist/album/song.flac", "audio")
        .unwrap();
    assert!(matches!(o.action, Action::Convert));
    assert_eq!(o.rel_out, b("artist/song.mp3"));
    assert!(!o.collision);
    assert_eq!(new_state.get(&fingerprint(&b("audio"))), Some(b("artist/song.mp3")));
    assert!(expected.contains(&b("artist/song.mp3")));
}

#[test]
fn new_mp3_file_is_copied() {
    let prior = StateTable::new();
    let mut new_state = StateTable::new();
    let mut expected = ExpectedSet::new();
    let o = run_one(&prior, &mut new_state, &mut expected, "a/b/c.mp3", "audio").unwrap();
    assert!(matches!(o.action, Action::Copy));
    assert_eq!(o.rel_out, b("a/c.mp3"));
}

#[test]
fn known_content_at_same_path_is_unchanged() {
    let mut prior = StateTable::new();
    prior.insert(fingerprint(&b("audio")), b("a/c.mp3"));
    let mut new_state = StateTable::new();
    let mut expected = ExpectedSet::new();
    let o = run_one(&prior, &mut new_state, &mut expected, "a/b/c.flac", "audio").unwrap();
    assert!(matches!(o.action, Action::Unchanged));
}

#[test]
fn known_content_at_new_path_is_renamed() {
    let mut prior = StateTable::new();
    prior.insert(fingerprint(&b("audio")), b("old/name.mp3"));
    let mut new_state = StateTable::new();
    let mut expected = ExpectedSet::new();
    let o = run_one(&prior, &mut new_state, &mut expected, "fresh/name.flac", "audio").unwrap();
    match o.action {
        Action::Rename { from } => assert_eq!(from, b("old/name.mp3")),
        _ => panic!("expected a rename"),
    }
    assert_eq!(o.rel_out, b("fresh/name.mp3"));
    assert_eq!(new_state.get(&fingerprint(&b("audio"))), Some(b("fresh/name.mp3")));
}

#[test]
fn colliding_content_in_one_run_is_flagged() {
    let prior = StateTable::new();
    let mut new_state = StateTable::new();
    let mut expected = ExpectedSet::new();
    let first = run_one(&prior, &mut new_state, &mut expected, "a/one.flac", "same").unwrap();
    let second = run_one(&prior, &mut new_state, &mut expected, "b/two.flac", "same").unwrap();
    assert!(!first.collision);
    assert!(second.collision);
    assert_eq!(new_state.len(), 1);
    assert_eq!(new_state.get(&fingerprint(&b("same"))), Some(b("b/two.mp3")));
}

#[test]
fn second_run_over_unchanged_tree_is_idempotent() {
    let files = [("a/b/one.flac", "oneaudio"), ("two.mp3", "twoaudio"), ("c/skip.txt", "text")];
    let prior = StateTable::new();
    let mut state1 = StateTable::new();
    let mut exp1 = ExpectedSet::new();
    for (rel, data) in files.iter() {
        run_one(&prior, &mut state1, &mut exp1, rel, data);
    }
    let mut state2 = StateTable::new();
    let mut exp2 = ExpectedSet::new();
    for (rel, data) in files.iter() {
        let r = run_one(&state1, &mut state2, &mut exp2, rel, data);
        if let Some(o) = r {
            assert!(matches!(o.action, Action::Unchanged));
        }
    }
    assert_eq!(
        musync::state::serialize_table(&state2),
        musync::state::serialize_table(&state1)
    );
}

#[test]
fn removed_source_file_is_pruned_next_run() {
    let prior = StateTable::new();
    let mut state1 = StateTable::new();
    let mut exp1 = ExpectedSet::new();
    run_one(&prior, &mut state1, &mut exp1, "a/keep.flac", "keepaudio");
    run_one(&prior, &mut state1, &mut exp1, "a/gone.flac", "goneaudio");
    assert!(!should_remove(&b("a/keep.mp3"), &exp1));
    assert!(!should_remove(&b("a/gone.mp3"), &exp1));

    // next run: the second source file no longer exists
    let mut state2 = StateTable::new();
    let mut exp2 = ExpectedSet::new();
    run_one(&state1, &mut state2, &mut exp2, "a/keep.flac", "keepaudio");
    assert!(!should_remove(&b("a/keep.mp3"), &exp2));
    assert!(should_remove(&b("a/gone.mp3"), &exp2));
}

#[test]
fn state_file_is_never_pruned() {
    let expected = ExpectedSet::new();
    assert!(!should_remove(&b(".musync"), &expected));
    assert!(should_remove(&b("anything.mp3"), &expected));
}

#[test]
fn expected_set_membership() {
    let mut s = ExpectedSet::new();
    assert!(!s.contains(&b("a.mp3")));
    s.insert(b("a.mp3"));
    s.insert(b("b/c.mp3"));
    assert!(s.contains(&b("a.mp3")));
    assert!(s.contains(&b("b/c.mp3")));
    assert!(!s.contains(&b("d.mp3")));
}
