use precc_pipeline::coordinator::{Coordinator, PollAction, RunOutcome};
use precc_pipeline::naming::{ends_with, sequence_number, starts_with, unit_name_matches};
use precc_pipeline::scan::ScanState;

fn names(v: &[&str]) -> Vec<String> {
    v.iter().map(|s| s.to_string()).collect()
}

#[test]
fn sequence_number_of_split_unit() {
    assert_eq!(sequence_number("sqlite3.i_1899.pu.c", ".pu.c"), Some(1899));
    assert_eq!(sequence_number("a_b_0.pu.c", ".pu.c"), Some(0));
    assert_eq!(sequence_number("a_007.pu.c", ".pu.c"), Some(7));
}

#[test]
fn sequence_number_absent() {
    assert_eq!(sequence_number("sqlite3.i.pu.c", ".pu.c"), None);
    assert_eq!(sequence_number("a_12x.pu.c", ".pu.c"), None);
    assert_eq!(sequence_number("a_.pu.c", ".pu.c"), None);
    assert_eq!(sequence_number("a_12.c", ".pu.c"), None);
    assert_eq!(sequence_number("_5.pu.c", ".pu.c"), Some(5));
    assert_eq!(sequence_number("a_99999999999999999999999.pu.c", ".pu.c"), None);
}

#[test]
fn unit_names_of_a_run() {
    assert!(unit_name_matches("sqlite3.i_12.pu.c", "sqlite3.i", ".pu.c"));
    assert!(unit_name_matches("sqlite3.i.pu.c", "sqlite3.i", ".pu.c"));
    assert!(!unit_name_matches("sqlite3.i_12.c", "sqlite3.i", ".pu.c"));
    assert!(!unit_name_matches("other.i_12.pu.c", "sqlite3.i", ".pu.c"));
    assert!(!unit_name_matches("sqlite3.ix.pu.c", "sqlite3.i", ".pu.c"));
    assert!(starts_with("abc", "ab"));
    assert!(!starts_with("ab", "abc"));
    assert!(ends_with("abc", "bc"));
    assert!(!ends_with("abc", "ab"));
}

#[test]
fn discovery_hands_out_each_unit_once() {
    let mut st = ScanState::new();
    let first = st.discover(&names(&["in.i_1.pu.c", "junk.txt", "in.i_2.pu.c", "in.i_1.pu.c"]), "in.i", ".pu.c", 0);
    assert_eq!(first, names(&["in.i_1.pu.c", "in.i_2.pu.c"]));
    assert_eq!(st.scanned_count(), 2);
    let second = st.discover(&names(&["in.i_1.pu.c", "in.i_2.pu.c", "in.i_3.pu.c"]), "in.i", ".pu.c", 0);
    assert_eq!(second, names(&["in.i_3.pu.c"]));
    assert_eq!(st.scanned_count(), 3);
    let third = st.discover(&names(&["in.i_3.pu.c"]), "in.i", ".pu.c", 0);
    assert!(third.is_empty());
}

#[test]
fn discovery_skips_units_below_threshold() {
    let mut st = ScanState::new();
    let fresh = st.discover(&names(&["in.i_1.pu.c", "in.i_5.pu.c", "in.i_9.pu.c", "in.i.pu.c"]), "in.i", ".pu.c", 5);
    assert_eq!(fresh, names(&["in.i_5.pu.c", "in.i_9.pu.c", "in.i.pu.c"]));
    assert_eq!(st.scanned_count(), 4);
    let again = st.discover(&names(&["in.i_1.pu.c"]), "in.i", ".pu.c", 5);
    assert!(again.is_empty());
}

#[test]
fn first_failure_wins() {
    let mut st = ScanState::new();
    assert!(!st.failed());
    assert!(!st.record_outcome("a", true));
    assert!(st.record_outcome("b", false));
    assert!(!st.record_outcome("c", false));
    assert!(!st.record_outcome("d", true));
    assert!(st.failed());
    assert_eq!(st.first_failure(), Some("b".to_string()));
    assert_eq!(st.tested(), 2);
}

#[test]
fn timeout_stops_the_run() {
    let mut c = Coordinator::new(10, "in.i".to_string(), ".pu.c".to_string(), 0);
    let mut st = ScanState::new();
    let listing = names(&["in.i_1.pu.c"]);
    match c.poll(&mut st, 9, &listing, false) {
        PollAction::Verify(units) => assert_eq!(units, listing),
        _ => panic!("expected units to verify"),
    }
    match c.poll(&mut st, 10, &listing, false) {
        PollAction::Stop(RunOutcome::TimedOut) => {}
        _ => panic!("expected a timeout"),
    }
    assert!(c.is_finished());
    match c.poll(&mut st, 11, &names(&["in.i_2.pu.c"]), false) {
        PollAction::Stop(RunOutcome::TimedOut) => {}
        _ => panic!("a stopped run stays stopped"),
    }
    assert_eq!(st.scanned_count(), 1);
}

#[test]
fn single_failing_unit_is_reported() {
    let mut c = Coordinator::new(100, "in.i".to_string(), ".pu.c".to_string(), 0);
    let mut st = ScanState::new();
    let listing = names(&["in.i_1.pu.c", "in.i_2.pu.c", "in.i_3.pu.c"]);
    let units = match c.poll(&mut st, 1, &listing, false) {
        PollAction::Verify(units) => units,
        _ => panic!("expected units to verify"),
    };
    for u in &units {
        st.record_outcome(u, u != "in.i_2.pu.c");
    }
    match c.poll(&mut st, 2, &listing, false) {
        PollAction::Stop(RunOutcome::FailureFound(p)) => assert_eq!(p, "in.i_2.pu.c"),
        _ => panic!("expected the failure"),
    }
}

#[test]
fn all_units_pass() {
    let mut c = Coordinator::new(100, "in.i".to_string(), ".pu.c".to_string(), 0);
    let mut st = ScanState::new();
    let mut total = 0;
    let polls = [
        (names(&["in.i_1.pu.c"]), false),
        (names(&["in.i_1.pu.c", "in.i_2.pu.c"]), false),
        (names(&["in.i_1.pu.c", "in.i_2.pu.c", "in.i_3.pu.c", "in.i_4.pu.c"]), true),
    ];
    for (t, (listing, exited)) in polls.iter().enumerate() {
        match c.poll(&mut st, t as u64, listing, *exited) {
            PollAction::Verify(units) | PollAction::VerifyLast(units) => {
                for u in &units {
                    st.record_outcome(u, true);
                    total += 1;
                }
            }
            PollAction::Stop(_) => panic!("nothing failed"),
        }
    }
    assert_eq!(total, 4);
    match c.conclude(&st) {
        RunOutcome::AllPassed => {}
        _ => panic!("expected every unit to pass"),
    }
    assert_eq!(st.tested(), 4);
    assert_eq!(st.scanned_count(), 4);
}

#[test]
fn failure_in_last_units_is_reported() {
    let mut c = Coordinator::new(100, "in.i".to_string(), ".pu.c".to_string(), 0);
    let mut st = ScanState::new();
    let listing = names(&["in.i_1.pu.c", "in.i_2.pu.c"]);
    match c.poll(&mut st, 3, &listing, true) {
        PollAction::VerifyLast(units) => {
            assert_eq!(units, listing);
            st.record_outcome(&units[0], true);
            st.record_outcome(&units[1], false);
        }
        _ => panic!("expected the last units"),
    }
    match c.conclude(&st) {
        RunOutcome::FailureFound(p) => assert_eq!(p, "in.i_2.pu.c"),
        _ => panic!("expected the failure"),
    }
}

#[test]
fn outcome_copy_keeps_path() {
    match RunOutcome::FailureFound("x".to_string()).duplicate() {
        RunOutcome::FailureFound(p) => assert_eq!(p, "x"),
        _ => panic!("copy changed the outcome"),
    }
}
