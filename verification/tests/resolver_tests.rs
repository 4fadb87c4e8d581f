use netmon::resolver::{parse_tasklist_pids, select_pid};

#[test]
fn reads_pids_out_of_csv_listing() {
    let text = b"\"game.exe\",\"1234\",\"Console\",\"1\",\"256,000 K\"\r\n\"game.exe\",\"5678\",\"Console\",\"1\",\"12,000 K\"\r\n";
    assert_eq!(parse_tasklist_pids(text), vec![1234, 5678]);
}

#[test]
fn listing_without_final_newline() {
    let text = b"\"game.exe\",\"42\",\"Console\",\"1\",\"1,000 K\"";
    assert_eq!(parse_tasklist_pids(text), vec![42]);
}

#[test]
fn lines_without_two_fields_or_numbers_are_skipped() {
    let text = b"INFO: No tasks are running which match the specified criteria.\n";
    assert_eq!(parse_tasklist_pids(text).len(), 0);
    let text2 = b"\"game.exe\",\"abc\",\"Console\"\n\"game.exe\",\"77\",\"Console\"\n\n";
    assert_eq!(parse_tasklist_pids(text2), vec![77]);
}

#[test]
fn empty_listing_yields_nothing() {
    assert_eq!(parse_tasklist_pids(b"").len(), 0);
}

#[test]
fn candidate_with_connections_wins() {
    // PID A has 3 connections, PID B none: A is selected.
    let pids = vec![111u32, 222u32];
    let counts = vec![3usize, 0usize];
    assert_eq!(select_pid(&pids, &counts), Some(111));
    // The other way round.
    let counts2 = vec![0usize, 3usize];
    assert_eq!(select_pid(&pids, &counts2), Some(222));
}

#[test]
fn all_idle_candidates_fall_back_to_first_enumerated() {
    let pids = vec![111u32, 222u32];
    let counts = vec![0usize, 0usize];
    assert_eq!(select_pid(&pids, &counts), Some(111));
}

#[test]
fn ties_go_to_the_first_enumerated() {
    let pids = vec![111u32, 222u32, 333u32];
    let counts = vec![0usize, 4usize, 4usize];
    assert_eq!(select_pid(&pids, &counts), Some(222));
}

#[test]
fn single_candidate_is_taken_as_is() {
    assert_eq!(select_pid(&vec![999u32], &vec![0usize]), Some(999));
}

#[test]
fn no_candidates_resolve_to_nothing() {
    assert_eq!(select_pid(&Vec::new(), &Vec::new()), None);
}
