use sched::{
    check_and_insert_measurements, sched_new, sched_new_from_txt, sched_num, schedule_format,
    Host, LoadError, Measurement, ScheduleFormat, State,
};

fn record(line: &str) -> Measurement {
    Measurement::new_from_string(line.to_string()).unwrap().unwrap()
}

fn fault(line: &str) -> Option<LoadError> {
    Measurement::new_from_string(line.to_string()).err()
}

#[test]
fn a_record_holds_its_seven_fields() {
    let m = record("12 FPX 30 classA,classB 1000,2000 10,20 3,4");
    assert_eq!(m.id(), 12);
    assert_eq!(m.fingerprint(), "FPX");
    assert_eq!(m.duration(), 30);
    assert_eq!(m.state(), State::Waiting);
    assert_eq!(
        m.hosts(),
        &vec![
            Host { class: "classA".to_string(), bw: 1000, conns: 10 },
            Host { class: "classB".to_string(), bw: 2000, conns: 20 },
        ]
    );
    assert_eq!(m.depends(), &vec![3, 4]);
    assert!(m.finished_depends().is_empty());
    assert_eq!(m.failsafe_stop(), 0);
    assert!(!m.is_ready());
}

#[test]
fn blank_and_comment_lines_describe_nothing() {
    for line in ["", "   ", "\t", "\r", "# 1 fp 30 c 1 1 0", "   #", "#", " \u{a0}\u{3000} "] {
        assert!(matches!(Measurement::new_from_string(line.to_string()), Ok(None)));
    }
}

#[test]
fn fields_are_separated_by_any_white_space() {
    let m = record("  1\tfp \u{2003} 30   c\u{a0}1000 10 0 \r");
    assert_eq!(m.id(), 1);
    assert_eq!(m.fingerprint(), "fp");
    assert_eq!(m.duration(), 30);
    assert_eq!(m.hosts(), &vec![Host { class: "c".to_string(), bw: 1000, conns: 10 }]);
    assert!(m.depends().is_empty());
    assert!(m.is_ready());
}

#[test]
fn dependencies_that_name_nothing_are_dropped() {
    assert!(record("1 fp 30 c 1 1 0").depends().is_empty());
    assert!(record("1 fp 30 c 1 1 0,0,00").depends().is_empty());
    assert_eq!(record("1 fp 30 c 1 1 0,2,0,3").depends(), &vec![2, 3]);
    assert_eq!(record("1 fp 30 c 1 1 -4,2,-0,-4294967295").depends(), &vec![2]);
}

#[test]
fn dependencies_are_a_set() {
    assert_eq!(record("1 fp 30 c 1 1 5,2,5,+2,02,7").depends(), &vec![5, 2, 7]);
}

#[test]
fn numbers_are_decimal_and_fit_32_bits() {
    let m = record("+4294967295 fp 0004294967295 c 4294967295 007 4294967294");
    assert_eq!(m.id(), 4294967295);
    assert_eq!(m.duration(), 4294967295);
    assert_eq!(m.hosts(), &vec![Host { class: "c".to_string(), bw: 4294967295, conns: 7 }]);
    assert_eq!(m.depends(), &vec![4294967294]);
    for line in [
        "4294967296 fp 30 c 1 1 0",
        "1 fp 4294967296 c 1 1 0",
        "1 fp 30 c 99999999999999999999999 1 0",
        "1 fp 30 c 1 4294967296 0",
        "1 fp 30 c 1 1 4294967296",
        "1 fp 30 c 1 1 -4294967296",
    ] {
        assert_eq!(fault(line), Some(LoadError::MalformedRecord));
    }
}

#[test]
fn a_line_with_a_fault_of_form_is_malformed() {
    for line in [
        "1",
        "1 fp 30 c 1 1",
        "1 fp 30 c 1 1 0 extra",
        "x fp 30 c 1 1 0",
        "-1 fp 30 c 1 1 0",
        "1.5 fp 30 c 1 1 0",
        "0x10 fp 30 c 1 1 0",
        "+ fp 30 c 1 1 0",
        "++1 fp 30 c 1 1 0",
        "1 fp thirty c 1 1 0",
        "1 fp -30 c 1 1 0",
        "1 fp 30 c 1k 1 0",
        "1 fp 30 c 1, 1 0",
        "1 fp 30 c ,1 1 0",
        "1 fp 30 c 1 -1 0",
        "1 fp 30 c 1 1, 0",
        "1 fp 30 c 1 1 a",
        "1 fp 30 c 1 1 2,",
        "1 fp 30 c 1 1 -",
        "1 fp 30 c 1 1 -+2",
        "1 fp 30 c 1 1 +-2",
        "1 fp 30 c 1 1 2,,3",
        "1 fp 30 c 1 1 0 # trailing",
    ] {
        assert_eq!(fault(line), Some(LoadError::MalformedRecord), "{:?}", line);
    }
}

#[test]
fn id_zero_is_malformed() {
    assert_eq!(fault("0 fp 30 c 1 1 0"), Some(LoadError::MalformedRecord));
    assert_eq!(fault("+000 fp 30 c 1 1 7"), Some(LoadError::MalformedRecord));
}

#[test]
fn a_measurement_cannot_depend_on_itself() {
    assert_eq!(fault("4 fp 30 c 1 1 4"), Some(LoadError::SelfDependency));
    assert_eq!(fault("4 fp 30 c 1 1 1,2,04,3"), Some(LoadError::SelfDependency));
    assert_eq!(fault("4 fp 30 c,d 1 1 4"), Some(LoadError::SelfDependency));
}

#[test]
fn host_lists_must_have_equal_length() {
    assert_eq!(fault("1 fp 30 a,b 1 1,2 0"), Some(LoadError::InvalidHostCounts));
    assert_eq!(fault("1 fp 30 a,b 1,2 1 0"), Some(LoadError::InvalidHostCounts));
    assert_eq!(fault("1 fp 30 a 1,2 1,2 0"), Some(LoadError::InvalidHostCounts));
    assert_eq!(fault("1 fp 30 bg,bg 125000 1 0"), Some(LoadError::InvalidHostCounts));
    assert_eq!(fault("1 fp 30 a,, 1,2 1,2 0"), Some(LoadError::InvalidHostCounts));
}

#[test]
fn a_class_may_be_empty() {
    let m = record("1 fp 30 a,,b 1,2,3 4,5,6 0");
    assert_eq!(
        m.hosts(),
        &vec![
            Host { class: "a".to_string(), bw: 1, conns: 4 },
            Host { class: "".to_string(), bw: 2, conns: 5 },
            Host { class: "b".to_string(), bw: 3, conns: 6 },
        ]
    );
}

#[test]
fn background_host_with_one_connection_loads() {
    let s = sched_new("bg.txt", "1 fp 30 bg 125000 1 0\n").unwrap();
    assert_eq!(sched_num(&s), 1);
    let m = record("1 fp 30 relay,bg 9,125000 9,1 0");
    assert_eq!(m.hosts()[1], Host { class: "bg".to_string(), bw: 125000, conns: 1 });
}

#[test]
fn background_host_with_two_connections_fails() {
    assert_eq!(
        sched_new("bg.txt", "1 fp 30 bg 125000 2 0\n").err(),
        Some(LoadError::InvalidBackgroundHost)
    );
    assert_eq!(fault("1 fp 30 bg 125000 0 0"), Some(LoadError::InvalidBackgroundHost));
    assert_eq!(fault("1 fp 30 relay,bg 1,125000 1,2 0"), Some(LoadError::InvalidBackgroundHost));
}

#[test]
fn background_host_with_another_bandwidth_fails() {
    assert_eq!(fault("1 fp 30 bg 125001 1 0"), Some(LoadError::InvalidBackgroundHost));
    assert_eq!(fault("1 fp 30 bg 0 1 0"), Some(LoadError::InvalidBackgroundHost));
}

#[test]
fn two_background_hosts_fail() {
    assert_eq!(fault("1 fp 30 bg,bg 125000,125000 1,1 0"), Some(LoadError::InvalidBackgroundHost));
    assert_eq!(
        fault("1 fp 30 bg,relay,bg 125000,5,125000 1,5,1 0"),
        Some(LoadError::InvalidBackgroundHost)
    );
}

#[test]
fn only_the_exact_class_is_background() {
    let m = record("1 fp 30 BG,bg2,b,g 1,2,3,4 5,6,7,8 0");
    assert_eq!(m.hosts().len(), 4);
}

#[test]
fn the_first_fault_of_a_line_is_reported() {
    // form before self-dependency, that before counts, those before background
    assert_eq!(fault("0 fp 30 a,b 1 1 0"), Some(LoadError::MalformedRecord));
    assert_eq!(fault("3 fp 30 a,b 1 1 3"), Some(LoadError::SelfDependency));
    assert_eq!(fault("3 fp 30 bg,b 5 1 0"), Some(LoadError::InvalidHostCounts));
    assert_eq!(fault("3 fp 30 bg,bg 5,5 1,1 0"), Some(LoadError::InvalidBackgroundHost));
}

#[test]
fn unknown_dependency_fails_the_load() {
    let text = "1 a 30 c 1 1 5\n2 b 30 c 1 1 5\n";
    assert_eq!(sched_new("missing.txt", text).err(), Some(LoadError::UnknownDependency));
    assert_eq!(sched_new_from_txt(text).err(), Some(LoadError::UnknownDependency));
    let with_free = "1 a 30 c 1 1 0\n2 b 30 c 1 1 5\n";
    assert_eq!(sched_new("missing.txt", with_free).err(), Some(LoadError::UnknownDependency));
}

#[test]
fn duplicate_id_fails_the_load() {
    let text = "1 a 30 c 1 1 0\n2 b 30 c 1 1 1\n1 c 30 c 1 1 0\n";
    assert_eq!(sched_new("twice.txt", text).err(), Some(LoadError::DuplicateId));
    // Both faults at once: the shared id is found first.
    let both = "1 a 30 c 1 1 9\n01 b 30 c 1 1 0\n";
    assert_eq!(sched_new_from_txt(both).err(), Some(LoadError::DuplicateId));
}

#[test]
fn the_first_line_at_fault_decides() {
    let text = "1 a 30 c 1 1 0\n2 b 30 bg 1 1 0\n3 c\n";
    assert_eq!(sched_new_from_txt(text).err(), Some(LoadError::InvalidBackgroundHost));
    let text = "1 a 30 c 1 1 0\n1 b 30 c 1 1 0\n3 c 30 c 1 1 3\n";
    assert_eq!(sched_new_from_txt(text).err(), Some(LoadError::SelfDependency));
}

#[test]
fn lines_may_end_in_carriage_return_or_lack_a_final_newline() {
    let s = sched_new_from_txt("1 a 30 c 1 1 0\r\n\r\n2 b 30 c 1 1 1").unwrap();
    assert_eq!(sched_num(&s), 2);
}

#[test]
fn checked_records_become_the_catalog_in_order() {
    let records = vec![record("2 b 30 c 1 1 1"), record("1 a 30 c 1 1 0")];
    let s = check_and_insert_measurements(records).unwrap();
    assert_eq!(sched_num(&s), 2);
    assert_eq!(check_and_insert_measurements(vec![]).map(|s| sched_num(&s)), Ok(0));
    assert_eq!(
        check_and_insert_measurements(vec![record("1 a 30 c 1 1 0"), record("1 a 30 c 1 1 0")])
            .err(),
        Some(LoadError::DuplicateId)
    );
    assert_eq!(
        check_and_insert_measurements(vec![record("1 a 30 c 1 1 2")]).err(),
        Some(LoadError::UnknownDependency)
    );
}

#[test]
fn the_name_tells_the_form() {
    assert_eq!(schedule_format("plan.txt"), ScheduleFormat::Text);
    assert_eq!(schedule_format(".txt"), ScheduleFormat::Text);
    assert_eq!(schedule_format("dir/plan.json.txt"), ScheduleFormat::Text);
    assert_eq!(schedule_format("plan.json"), ScheduleFormat::Rounds);
    assert_eq!(schedule_format("plan.txt.json"), ScheduleFormat::Rounds);
    for name in ["", "plan", "txt", "plan.TXT", "plan.txt ", "plan.jso", "json"] {
        assert_eq!(schedule_format(name), ScheduleFormat::Unknown);
    }
}

#[test]
fn only_the_text_form_is_loaded() {
    let text = "1 a 30 c 1 1 0\n";
    assert_eq!(sched_new("plan.txt", text).map(|s| sched_num(&s)), Ok(1));
    assert_eq!(sched_new("plan.json", text).err(), Some(LoadError::UnsupportedFormat));
    assert_eq!(sched_new("plan.json", "[]").err(), Some(LoadError::UnsupportedFormat));
    assert_eq!(sched_new("plan.yaml", text).err(), Some(LoadError::UnknownFormat));
    assert_eq!(sched_new("plan", "").err(), Some(LoadError::UnknownFormat));
}
