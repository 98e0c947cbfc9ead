use sched::{
    sched_finished, sched_get_dur, sched_get_failsafe_stop, sched_get_fp, sched_get_hosts,
    sched_mark_done, sched_new, sched_new_from_txt, sched_next, sched_next_at,
    sched_next_internal, sched_num, sched_num_complete, sched_num_incomplete, Host, LoadError,
    Scheduler, State, UsageError,
};

fn chain() -> Scheduler {
    sched_new("chain.txt", "1 fpA 30 classA 1000 10 0\n2 fpB 30 classA 1000 10 1\n").unwrap()
}

#[test]
fn chain_runs_in_dependency_order() {
    let mut s = chain();
    assert_eq!(sched_next(&mut s), 1);
    assert_eq!(sched_next(&mut s), 0);
    assert_eq!(sched_mark_done(&mut s, 1), Ok(()));
    assert_eq!(sched_next(&mut s), 2);
    assert_eq!(sched_mark_done(&mut s, 2), Ok(()));
    assert!(sched_finished(&s));
}

#[test]
fn counts_add_up_at_every_step() {
    let mut s = chain();
    assert_eq!(sched_num(&s), 2);
    assert_eq!((sched_num_complete(&s), sched_num_incomplete(&s)), (0, 2));
    assert!(!sched_finished(&s));
    sched_next_at(&mut s, 100);
    assert_eq!((sched_num_complete(&s), sched_num_incomplete(&s)), (0, 2));
    sched_mark_done(&mut s, 1).unwrap();
    assert_eq!((sched_num_complete(&s), sched_num_incomplete(&s)), (1, 1));
    sched_next_at(&mut s, 200);
    sched_mark_done(&mut s, 2).unwrap();
    assert_eq!((sched_num_complete(&s), sched_num_incomplete(&s)), (2, 0));
    assert_eq!(sched_num(&s), 2);
    assert!(sched_finished(&s));
}

#[test]
fn empty_catalog_is_finished() {
    let s = Scheduler::new();
    assert_eq!(sched_num(&s), 0);
    assert_eq!(sched_num_complete(&s), 0);
    assert_eq!(sched_num_incomplete(&s), 0);
    assert!(sched_finished(&s));
}

#[test]
fn ready_measurements_are_offered_in_loading_order() {
    let text = "7 a 1 c 1 1 0\n3 b 1 c 1 1 0\n5 c 1 c 1 1 0\n";
    let mut s = sched_new("order.txt", text).unwrap();
    assert_eq!(sched_next_at(&mut s, 0), 7);
    assert_eq!(sched_next_at(&mut s, 0), 3);
    assert_eq!(sched_next_at(&mut s, 0), 5);
    assert_eq!(sched_next_at(&mut s, 0), 0);
}

#[test]
fn peeking_changes_nothing() {
    let mut s = chain();
    assert_eq!(sched_next_internal(&mut s, false), 1);
    assert_eq!(sched_next_internal(&mut s, false), 1);
    assert_eq!(sched_get_failsafe_stop(&s, 1), Ok(0));
    assert_eq!(sched_mark_done(&mut s, 1), Err(UsageError::NotInProgress));
    assert_eq!(sched_next_internal(&mut s, true), 1);
    assert_eq!(sched_next_internal(&mut s, false), 0);
}

#[test]
fn free_measurements_can_all_start_before_anything_is_done() {
    let text = "1 a 1 c 1 1 0\n2 b 1 c 1 1 1\n3 c 1 c 1 1 0\n4 d 1 c 1 1 0,0\n";
    let mut s = sched_new("free.txt", text).unwrap();
    assert_eq!(sched_next_at(&mut s, 0), 1);
    assert_eq!(sched_next_at(&mut s, 0), 3);
    assert_eq!(sched_next_at(&mut s, 0), 4);
    assert_eq!(sched_next_at(&mut s, 0), 0);
}

#[test]
fn an_offered_measurement_is_never_offered_again() {
    let mut s = chain();
    assert_eq!(sched_next_at(&mut s, 0), 1);
    assert_eq!(sched_next_at(&mut s, 0), 0);
    sched_mark_done(&mut s, 1).unwrap();
    assert_eq!(sched_next_at(&mut s, 0), 2);
    assert_eq!(sched_next_at(&mut s, 0), 0);
    sched_mark_done(&mut s, 2).unwrap();
    assert_eq!(sched_next_at(&mut s, 0), 0);
}

#[test]
fn marking_a_waiting_measurement_done_is_refused() {
    let mut s = chain();
    assert_eq!(sched_mark_done(&mut s, 1), Err(UsageError::NotInProgress));
    assert_eq!(sched_mark_done(&mut s, 2), Err(UsageError::NotInProgress));
    assert_eq!(sched_num_complete(&s), 0);
    assert_eq!(sched_next_at(&mut s, 0), 1);
}

#[test]
fn marking_a_complete_measurement_done_is_refused() {
    let mut s = chain();
    sched_next_at(&mut s, 0);
    assert_eq!(sched_mark_done(&mut s, 1), Ok(()));
    assert_eq!(sched_mark_done(&mut s, 1), Err(UsageError::NotInProgress));
    assert_eq!(sched_num_complete(&s), 1);
    assert_eq!(sched_next_at(&mut s, 0), 2);
    assert_eq!(sched_next_at(&mut s, 0), 0);
}

#[test]
fn marking_an_unknown_id_done_is_refused() {
    let mut s = chain();
    assert_eq!(sched_mark_done(&mut s, 9), Err(UsageError::UnknownId));
    assert_eq!(sched_mark_done(&mut s, 0), Err(UsageError::UnknownId));
    assert_eq!(sched_num_complete(&s), 0);
}

#[test]
fn a_measurement_is_ready_right_after_its_last_dependency() {
    let text = "1 a 1 c 1 1 0\n2 b 1 c 1 1 0\n3 c 1 c 1 1 1,2\n";
    let mut s = sched_new("join.txt", text).unwrap();
    assert_eq!(sched_next_at(&mut s, 0), 1);
    assert_eq!(sched_next_at(&mut s, 0), 2);
    assert_eq!(sched_next_at(&mut s, 0), 0);
    sched_mark_done(&mut s, 2).unwrap();
    assert_eq!(sched_next_internal(&mut s, false), 0);
    sched_mark_done(&mut s, 1).unwrap();
    assert_eq!(sched_next_internal(&mut s, false), 3);
    assert_eq!(sched_next_at(&mut s, 0), 3);
}

#[test]
fn a_dependency_listed_twice_counts_once() {
    let text = "1 a 1 c 1 1 0\n2 b 1 c 1 1 1,1,+1\n";
    let mut s = sched_new("twice.txt", text).unwrap();
    assert_eq!(sched_next_at(&mut s, 0), 1);
    sched_mark_done(&mut s, 1).unwrap();
    assert_eq!(sched_next_at(&mut s, 0), 2);
}

#[test]
fn completion_reaches_exactly_the_dependents() {
    let text = "1 a 1 c 1 1 0\n2 b 1 c 1 1 1\n3 c 1 c 1 1 0\n4 d 1 c 1 1 1,3\n5 e 1 c 1 1 3\n";
    let mut s = sched_new("fan.txt", text).unwrap();
    assert_eq!(sched_next_at(&mut s, 0), 1);
    assert_eq!(sched_next_at(&mut s, 0), 3);
    sched_mark_done(&mut s, 1).unwrap();
    // 2 depended on 1 alone; 4 still lacks 3; 5 never listed 1.
    assert_eq!(sched_next_at(&mut s, 0), 2);
    assert_eq!(sched_next_at(&mut s, 0), 0);
    sched_mark_done(&mut s, 3).unwrap();
    assert_eq!(sched_next_at(&mut s, 0), 4);
    assert_eq!(sched_next_at(&mut s, 0), 5);
    assert_eq!(sched_next_at(&mut s, 0), 0);
}

#[test]
fn failsafe_deadline_is_one_and_a_half_durations_rounded_up() {
    let text = "1 a 30 c 1 1 0\n2 b 31 c 1 1 0\n3 c 0 c 1 1 0\n4 d 4294967295 c 1 1 0\n";
    let mut s = sched_new("deadline.txt", text).unwrap();
    assert_eq!(sched_get_failsafe_stop(&s, 1), Ok(0));
    assert_eq!(sched_next_at(&mut s, 1000), 1);
    assert_eq!(sched_get_failsafe_stop(&s, 1), Ok(1045));
    assert_eq!(sched_get_failsafe_stop(&s, 2), Ok(0));
    assert_eq!(sched_next_at(&mut s, 1000), 2);
    assert_eq!(sched_get_failsafe_stop(&s, 2), Ok(1047));
    assert_eq!(sched_next_at(&mut s, 77), 3);
    assert_eq!(sched_get_failsafe_stop(&s, 3), Ok(77));
    assert_eq!(sched_next_at(&mut s, 5), 4);
    assert_eq!(sched_get_failsafe_stop(&s, 4), Ok(6442450948));
    sched_mark_done(&mut s, 1).unwrap();
    assert_eq!(sched_get_failsafe_stop(&s, 1), Ok(1045));
}

#[test]
fn failsafe_deadline_stops_at_the_largest_time() {
    let mut s = sched_new("late.txt", "1 a 30 c 1 1 0\n2 b 30 c 1 1 0\n").unwrap();
    assert_eq!(sched_next_at(&mut s, u64::MAX - 45), 1);
    assert_eq!(sched_get_failsafe_stop(&s, 1), Ok(u64::MAX));
    assert_eq!(sched_next_at(&mut s, u64::MAX - 10), 2);
    assert_eq!(sched_get_failsafe_stop(&s, 2), Ok(u64::MAX));
}

#[test]
fn starting_by_the_clock_sets_a_deadline_after_now() {
    let mut s = chain();
    assert_eq!(sched_next(&mut s), 1);
    let stop = sched_get_failsafe_stop(&s, 1).unwrap();
    // The clock of any machine that runs this stands after the year 2001.
    assert!(stop >= 1_000_000_000 + 45);
    assert_eq!(sched_get_failsafe_stop(&s, 2), Ok(0));
}

#[test]
fn queries_return_what_the_lines_said() {
    let text = "# a schedule\n\n10 FP10 45 bg,relay,exit 125000,2000,3000 1,20,30 0\n\
                11 FP11 60 relay 500 8 10\n";
    let s = sched_new_from_txt(text).unwrap();
    assert_eq!(sched_num(&s), 2);
    assert_eq!(sched_get_fp(&s, 10), Ok("FP10".to_string()));
    assert_eq!(sched_get_dur(&s, 10), Ok(45));
    assert_eq!(
        sched_get_hosts(&s, 10),
        Ok(vec![
            Host { class: "bg".to_string(), bw: 125000, conns: 1 },
            Host { class: "relay".to_string(), bw: 2000, conns: 20 },
            Host { class: "exit".to_string(), bw: 3000, conns: 30 },
        ])
    );
    assert_eq!(sched_get_fp(&s, 11), Ok("FP11".to_string()));
    assert_eq!(sched_get_dur(&s, 11), Ok(60));
    assert_eq!(
        sched_get_hosts(&s, 11),
        Ok(vec![Host { class: "relay".to_string(), bw: 500, conns: 8 }])
    );
}

#[test]
fn queries_on_an_unknown_id_are_refused() {
    let s = chain();
    assert_eq!(sched_get_fp(&s, 3), Err(UsageError::UnknownId));
    assert_eq!(sched_get_dur(&s, 3), Err(UsageError::UnknownId));
    assert_eq!(sched_get_failsafe_stop(&s, 3), Err(UsageError::UnknownId));
    assert_eq!(sched_get_hosts(&s, 3), Err(UsageError::UnknownId));
    assert_eq!(sched_get_dur(&s, 0), Err(UsageError::UnknownId));
}

#[test]
fn load_without_free_measurement_is_refused() {
    assert_eq!(
        sched_new("cycle.txt", "1 a 1 c 1 1 2\n2 b 1 c 1 1 1\n").err(),
        Some(LoadError::NoReadyWork)
    );
    assert_eq!(sched_new("empty.txt", "").err(), Some(LoadError::NoReadyWork));
    assert_eq!(sched_new("empty.txt", "# nothing\n\n").err(), Some(LoadError::NoReadyWork));
    // The text alone loads: only a whole load asks for work that can start.
    assert_eq!(sched_new_from_txt("1 a 1 c 1 1 2\n2 b 1 c 1 1 1\n").map(|s| sched_num(&s)), Ok(2));
}

fn finished(s: &Scheduler, id: u32) -> Vec<u32> {
    s.measurement(id).unwrap().finished_depends().clone()
}

#[test]
fn completion_lengthens_what_dependents_have_seen_by_one() {
    let text = "1 a 1 c 1 1 0\n2 b 1 c 1 1 1\n3 c 1 c 1 1 0\n4 d 1 c 1 1 3,1\n5 e 1 c 1 1 3\n";
    let mut s = sched_new("fan.txt", text).unwrap();
    sched_next_at(&mut s, 0);
    sched_next_at(&mut s, 0);
    for id in 1..=5 {
        assert!(finished(&s, id).is_empty());
    }
    sched_mark_done(&mut s, 1).unwrap();
    assert_eq!(finished(&s, 1), vec![]);
    assert_eq!(finished(&s, 2), vec![1]);
    assert_eq!(finished(&s, 3), vec![]);
    assert_eq!(finished(&s, 4), vec![1]);
    assert_eq!(finished(&s, 5), vec![]);
    sched_mark_done(&mut s, 3).unwrap();
    assert_eq!(finished(&s, 2), vec![1]);
    assert_eq!(finished(&s, 4), vec![1, 3]);
    assert_eq!(finished(&s, 5), vec![3]);
    assert_eq!(s.measurement(4).unwrap().depends(), &vec![3, 1]);
}

#[test]
fn a_refused_report_changes_nothing() {
    let text = "1 a 1 c 1 1 0\n2 b 1 c 1 1 1\n";
    let mut s = sched_new("chain.txt", text).unwrap();
    sched_next_at(&mut s, 10);
    sched_mark_done(&mut s, 1).unwrap();
    for id in [0, 1, 2, 3] {
        assert!(sched_mark_done(&mut s, id).is_err());
        assert_eq!(s.measurement(1).unwrap().state(), State::Complete);
        assert_eq!(s.measurement(2).unwrap().state(), State::Waiting);
        assert_eq!(finished(&s, 2), vec![1]);
        assert_eq!(sched_get_failsafe_stop(&s, 1), Ok(12));
        assert_eq!(sched_get_failsafe_stop(&s, 2), Ok(0));
        assert_eq!((sched_num_complete(&s), sched_num_incomplete(&s)), (1, 1));
    }
}

#[test]
fn states_only_move_forward() {
    let mut s = chain();
    let state = |s: &Scheduler, id: u32| s.measurement(id).unwrap().state();
    assert_eq!((state(&s, 1), state(&s, 2)), (State::Waiting, State::Waiting));
    sched_next_at(&mut s, 0);
    assert_eq!((state(&s, 1), state(&s, 2)), (State::InProgress, State::Waiting));
    sched_next_at(&mut s, 0);
    assert_eq!((state(&s, 1), state(&s, 2)), (State::InProgress, State::Waiting));
    sched_mark_done(&mut s, 1).unwrap();
    assert_eq!((state(&s, 1), state(&s, 2)), (State::Complete, State::Waiting));
    sched_next_at(&mut s, 0);
    assert_eq!((state(&s, 1), state(&s, 2)), (State::Complete, State::InProgress));
    sched_mark_done(&mut s, 2).unwrap();
    assert_eq!((state(&s, 1), state(&s, 2)), (State::Complete, State::Complete));
}

#[test]
fn a_measurement_is_found_by_its_id_only() {
    let s = chain();
    assert_eq!(s.measurement(2).map(|m| m.id()), Some(2));
    assert_eq!(s.measurement(2).map(|m| m.fingerprint().as_str()), Some("fpB"));
    assert!(s.measurement(0).is_none());
    assert!(s.measurement(3).is_none());
    assert!(Scheduler::new().measurement(1).is_none());
}
