use strata::transfer::{
    drain_step, input_changed, is_path_input, listing_is_current, poll_gate, results_to_show,
    start_drain, DrainProgress, InputAction, PollGate, Received, SearchHit, SearchUpdate,
    MAX_UPDATES_PER_POLL,
};

fn results(query: &str) -> SearchUpdate {
    SearchUpdate::Results {
        query: query.to_string(),
        hits: vec![SearchHit { path: format!("/x/{query}"), is_directory: true }],
    }
}

#[test]
fn path_like_text_lists_folders() {
    assert!(is_path_input("~"));
    assert!(is_path_input("a/b"));
    assert!(is_path_input("   "));
    assert!(is_path_input(""));
    assert!(!is_path_input("music"));
    assert!(!is_path_input("a~"));
}

#[test]
fn each_edit_takes_a_new_request() {
    let c = input_changed(4, "~/Doc");
    assert_eq!(c.generation, 5);
    assert!(!c.search_mode);
    assert!(matches!(c.action, InputAction::ListFolders { request: 5 }));
    let d = input_changed(c.generation, "music");
    assert_eq!(d.generation, 6);
    assert!(d.search_mode);
    assert!(matches!(d.action, InputAction::Search));
    assert!(!listing_is_current(d.generation, 5));
    assert!(listing_is_current(c.generation, 5));
}

#[test]
fn request_numbers_stop_at_the_largest_value() {
    let c = input_changed(u64::MAX, "x/");
    assert_eq!(c.generation, u64::MAX);
}

#[test]
fn drain_keeps_the_latest_update() {
    let d = start_drain();
    let d = match drain_step(d, Received::Update(results("a"))) {
        DrainProgress::More(d) => d,
        _ => panic!("expected more"),
    };
    let d = match drain_step(d, Received::Update(results("b"))) {
        DrainProgress::More(d) => d,
        _ => panic!("expected more"),
    };
    match drain_step(d, Received::Empty) {
        DrainProgress::Done(Some(SearchUpdate::Results { query, .. })) => assert_eq!(query, "b"),
        _ => panic!("expected the latest results"),
    }
}

#[test]
fn drain_stops_after_the_limit() {
    let mut d = start_drain();
    for i in 0..MAX_UPDATES_PER_POLL {
        match drain_step(d, Received::Update(results(&i.to_string()))) {
            DrainProgress::More(next) => {
                assert!(i + 1 < MAX_UPDATES_PER_POLL);
                d = next;
            }
            DrainProgress::Done(Some(SearchUpdate::Results { query, .. })) => {
                assert_eq!(i + 1, MAX_UPDATES_PER_POLL);
                assert_eq!(query, "7");
                return;
            }
            _ => panic!("unexpected"),
        }
    }
    panic!("drain did not stop");
}

#[test]
fn closed_index_stops_polling() {
    assert!(matches!(drain_step(start_drain(), Received::Disconnected), DrainProgress::Closed));
    assert!(matches!(drain_step(start_drain(), Received::Empty), DrainProgress::Done(None)));
}

#[test]
fn poll_gate_cases() {
    assert!(matches!(poll_gate(false, true, true), PollGate::Stop));
    assert!(matches!(poll_gate(true, false, true), PollGate::Stop));
    assert!(matches!(poll_gate(true, true, false), PollGate::Idle));
    assert!(matches!(poll_gate(true, true, true), PollGate::Drain));
}

#[test]
fn only_results_for_the_current_text_are_shown() {
    let shown = results_to_show(Some(results("music")), "  music ").expect("shown");
    assert_eq!(shown.len(), 1);
    assert_eq!(shown[0].path, "/x/music");
    assert!(results_to_show(Some(results("mus")), "music").is_none());
    assert!(results_to_show(Some(SearchUpdate::Other), "music").is_none());
    assert!(results_to_show(None, "music").is_none());
}
