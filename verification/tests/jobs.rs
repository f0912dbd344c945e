use protohackers::jobs::Board;

fn queues(names: &[&str]) -> Vec<Vec<u8>> {
    names.iter().map(|n| n.as_bytes().to_vec()).collect()
}

#[test]
fn jobs_are_numbered_from_zero() {
    let mut board: Board<&str> = Board::new();
    assert_eq!(board.put(b"q", "a", 1), Some(0));
    assert_eq!(board.put(b"q", "b", 1), Some(1));
    assert_eq!(board.put(b"r", "c", 1), Some(2));
    assert_eq!(board.waiting_len(), 3);
    assert_eq!(board.working_len(), 0);
}

#[test]
fn highest_priority_is_taken_first() {
    let mut board: Board<&str> = Board::new();
    board.put(b"q", "low", 1);
    board.put(b"q", "high", 100);
    board.put(b"q", "mid", 50);
    assert_eq!(board.get(7, &queues(&["q"])), Some(1));
    let job = board.held(7, 1).unwrap();
    assert_eq!(job.id, 1);
    assert_eq!(job.pri, 100);
    assert_eq!(job.queue, b"q".to_vec());
    assert_eq!(job.job, "high");
    assert_eq!(board.get(7, &queues(&["q"])), Some(2));
    assert_eq!(board.get(7, &queues(&["q"])), Some(0));
    assert_eq!(board.get(7, &queues(&["q"])), None);
    assert_eq!(board.waiting_len(), 0);
    assert_eq!(board.working_len(), 3);
}

#[test]
fn only_the_named_queues_are_looked_into() {
    let mut board: Board<&str> = Board::new();
    board.put(b"a", "in a", 5);
    board.put(b"b", "in b", 9);
    board.put(b"c", "in c", 7);
    assert_eq!(board.get(1, &queues(&["a", "c"])), Some(2));
    assert_eq!(board.get(1, &queues(&["a", "c", "nothing"])), Some(0));
    assert_eq!(board.get(1, &queues(&["a", "c"])), None);
    assert_eq!(board.get(1, &queues(&[])), None);
    assert_eq!(board.get(1, &queues(&["b", "b"])), Some(1));
}

#[test]
fn equal_priorities_go_by_queue_name_and_then_by_waiting_time() {
    let mut board: Board<&str> = Board::new();
    board.put(b"alpha", "1", 5);
    board.put(b"beta", "2", 5);
    board.put(b"beta", "3", 5);
    board.put(b"alpha", "4", 5);
    let all = queues(&["alpha", "beta"]);
    assert_eq!(board.get(1, &all), Some(1));
    assert_eq!(board.get(1, &all), Some(2));
    assert_eq!(board.get(1, &all), Some(0));
    assert_eq!(board.get(1, &all), Some(3));
}

#[test]
fn deleted_jobs_are_gone() {
    let mut board: Board<&str> = Board::new();
    board.put(b"q", "a", 1);
    board.put(b"q", "b", 2);
    assert!(board.delete(1));
    assert!(!board.delete(1));
    assert!(!board.delete(5));
    assert_eq!(board.get(1, &queues(&["q"])), Some(0));
    assert!(board.delete(0));
    assert!(board.held(1, 0).is_none());
    assert!(!board.abort(1, 0));
    assert_eq!(board.waiting_len(), 0);
    assert_eq!(board.working_len(), 0);
    assert_eq!(board.put(b"q", "c", 1), Some(2));
}

#[test]
fn only_the_client_that_works_on_a_job_can_give_it_back() {
    let mut board: Board<&str> = Board::new();
    board.put(b"q", "a", 1);
    assert_eq!(board.get(1, &queues(&["q"])), Some(0));
    assert!(board.held(2, 0).is_none());
    assert!(!board.abort(2, 0));
    assert!(!board.abort(1, 9));
    assert_eq!(board.get(2, &queues(&["q"])), None);
    assert!(board.abort(1, 0));
    assert!(!board.abort(1, 0));
    assert_eq!(board.get(2, &queues(&["q"])), Some(0));
    assert_eq!(board.held(2, 0).unwrap().job, "a");
}

#[test]
fn a_client_that_goes_away_gives_back_all_its_jobs() {
    let mut board: Board<&str> = Board::new();
    board.put(b"q", "a", 3);
    board.put(b"q", "b", 2);
    board.put(b"q", "c", 1);
    let q = queues(&["q"]);
    assert_eq!(board.get(1, &q), Some(0));
    assert_eq!(board.get(2, &q), Some(1));
    assert_eq!(board.get(1, &q), Some(2));
    board.disconnect(1);
    assert_eq!(board.waiting_len(), 2);
    assert_eq!(board.working_len(), 1);
    assert!(board.held(2, 1).is_some());
    assert_eq!(board.get(3, &q), Some(0));
    assert_eq!(board.get(3, &q), Some(2));
    board.disconnect(9);
    assert_eq!(board.working_len(), 3);
    board.disconnect(3);
    board.disconnect(2);
    assert_eq!(board.waiting_len(), 3);
    assert_eq!(board.working_len(), 0);
}

#[test]
fn a_job_given_back_waits_behind_its_equals() {
    let mut board: Board<&str> = Board::new();
    board.put(b"q", "a", 1);
    board.put(b"q", "b", 1);
    let q = queues(&["q"]);
    assert_eq!(board.get(1, &q), Some(0));
    assert!(board.abort(1, 0));
    assert_eq!(board.get(1, &q), Some(1));
    assert_eq!(board.get(1, &q), Some(0));
}
