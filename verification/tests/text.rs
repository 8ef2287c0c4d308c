use scheduling::problem_1::codec::{format_instance, parse_instance, string_of_ascii, InstanceError};
use scheduling::problem_1::models::{Instance, InstanceMetrics, Solution, Task};
use scheduling::problem_1::text::{
    count_fields, count_lines,
    blank, blank_at, find_line_end, next_line, push_decimal, read_field, rest_is_blank,
    skip_to_field, Field,
};
use scheduling::problem_1::verify::{
    parse_solution, verify_instance, verify_order, verify_solution, SolutionError,
};

fn table(rows: Vec<(u32, u32, Vec<u32>)>) -> Instance {
    let mut tasks: Vec<Task> = Vec::new();
    for (i, (p, r, s)) in rows.into_iter().enumerate() {
        tasks.push(Task { id: i as u32, ready_time: r, processing_time: p, switch_time: s });
    }
    Instance {
        n: tasks.len(),
        tasks,
        metrics: InstanceMetrics { n: 0, total_processing: 0, total_setup: 0 },
    }
}

fn three() -> Instance {
    table(vec![(3, 0, vec![0, 1, 2]), (2, 1, vec![1, 0, 1]), (4, 0, vec![2, 1, 0])])
}

const THREE: &str = "3\n3 0\n2 1\n4 0\n0 1 2\n1 0 1\n2 1 0\n";

fn rows_of(instance: &Instance) -> Vec<(u32, u32, u32, Vec<u32>)> {
    instance
        .tasks
        .iter()
        .map(|t| (t.id, t.processing_time, t.ready_time, t.switch_time.clone()))
        .collect()
}

fn decimal(v: u64) -> String {
    let mut out = Vec::new();
    push_decimal(&mut out, v);
    String::from_utf8(out).unwrap()
}

#[test]
fn numbers_are_written_in_decimal() {
    assert_eq!(decimal(0), "0");
    assert_eq!(decimal(7), "7");
    assert_eq!(decimal(10), "10");
    assert_eq!(decimal(4095), "4095");
    assert_eq!(decimal(4294967295), "4294967295");
    assert_eq!(decimal(u64::MAX), "18446744073709551615");
    let mut out = b"x=".to_vec();
    push_decimal(&mut out, 120);
    assert_eq!(out, b"x=120".to_vec());
}

#[test]
fn lines_end_at_the_line_feed() {
    let text = b"ab\ncd\n\nef";
    assert_eq!(find_line_end(text, 0), 2);
    assert_eq!(find_line_end(text, 1), 2);
    assert_eq!(find_line_end(text, 2), 2);
    assert_eq!(find_line_end(text, 3), 5);
    assert_eq!(find_line_end(text, 6), 6);
    assert_eq!(find_line_end(text, 7), 9);
    assert_eq!(find_line_end(text, 9), 9);
    assert_eq!(next_line(text, 2), 3);
    assert_eq!(next_line(text, 9), 9);
}

#[test]
fn blanks_are_white_space_but_not_the_line_feed() {
    for b in [b' ', b'\t', b'\r', 11, 12] {
        assert!(blank(b));
    }
    for b in [b'\n', b'0', b'a', 0, 160] {
        assert!(!blank(b));
    }
}

#[test]
fn fields_are_numbers_between_blanks() {
    let line = b"  12\t 007 x9 9x 4294967295 4294967296  ";
    let hi = line.len();
    let limit = u32::MAX as u64;
    assert!(matches!(read_field(line, 0, hi, limit), Field::Number { value: 12, next: 4 }));
    assert!(matches!(read_field(line, 4, hi, limit), Field::Number { value: 7, next: 9 }));
    assert!(matches!(read_field(line, 9, hi, limit), Field::Malformed));
    assert!(matches!(read_field(line, 13, hi, limit), Field::Malformed));
    assert!(matches!(read_field(line, 15, hi, limit), Field::Number { value: 4294967295, next: 26 }));
    assert!(matches!(read_field(line, 26, hi, limit), Field::Malformed));
    assert!(matches!(read_field(line, 37, hi, limit), Field::Missing));
    assert!(matches!(read_field(line, hi, hi, limit), Field::Missing));
    assert!(matches!(read_field(line, 0, 3, limit), Field::Number { value: 1, next: 3 }));
    assert!(matches!(read_field(line, 0, hi, 11), Field::Malformed));
    assert!(matches!(read_field(line, 0, hi, 12), Field::Number { value: 12, next: 4 }));
}

#[test]
fn fields_may_be_as_large_as_the_limit_allows() {
    let line = b"18446744073709551615 18446744073709551616 99999999999999999999999999";
    let hi = line.len();
    assert!(matches!(
        read_field(line, 0, hi, u64::MAX),
        Field::Number { value: u64::MAX, next: 20 }
    ));
    assert!(matches!(read_field(line, 20, hi, u64::MAX), Field::Malformed));
    assert!(matches!(read_field(line, 41, hi, u64::MAX), Field::Malformed));
}

#[test]
fn rest_of_a_line_may_hold_blanks_only() {
    let line = b"12 \t\r x";
    assert!(rest_is_blank(line, 2, 5));
    assert!(rest_is_blank(line, 5, 5));
    assert!(!rest_is_blank(line, 2, 7));
    assert!(!rest_is_blank(line, 0, 5));
}

#[test]
fn instance_is_written_line_by_line() {
    let instance = three();
    assert_eq!(instance.format(), THREE);
    assert_eq!(format_instance(&instance), THREE.as_bytes().to_vec());
}

#[test]
fn instance_without_jobs_is_a_zero() {
    assert_eq!(table(vec![]).format(), "0\n");
}

#[test]
fn instance_of_one_job() {
    let instance = table(vec![(5, 7, vec![0])]);
    assert_eq!(instance.format(), "1\n5 7\n0\n");
    let back = Instance::read(&instance.format()).unwrap();
    assert_eq!(rows_of(&back), vec![(0, 5, 7, vec![0])]);
}

#[test]
fn instance_is_read_back_as_written() {
    let instance = three();
    let back = Instance::read(&instance.format()).unwrap();
    assert_eq!(back.n, 3);
    assert_eq!(rows_of(&back), rows_of(&instance));
    assert_eq!(back.metrics, InstanceMetrics { n: 0, total_processing: 0, total_setup: 0 });
    assert_eq!(back.format(), instance.format());
}

#[test]
fn larger_instances_survive_the_round_trip() {
    let mut x: u32 = 2024;
    let mut next = move |m: u32| {
        x = x.wrapping_mul(1664525).wrapping_add(1013904223);
        (x >> 8) % m
    };
    for n in [2usize, 5, 17] {
        let mut rows = Vec::new();
        for i in 0..n {
            let mut s = Vec::new();
            for j in 0..n {
                s.push(if i == j { 0 } else { next(4000000000) });
            }
            rows.push((1 + next(4000000000), next(4000000000), s));
        }
        let instance = table(rows);
        let back = Instance::read(&instance.format()).unwrap();
        assert_eq!(rows_of(&back), rows_of(&instance));
    }
    let extreme = table(vec![(u32::MAX, u32::MAX, vec![0, u32::MAX]), (1, 0, vec![u32::MAX, 0])]);
    assert_eq!(extreme.format(), "2\n4294967295 4294967295\n1 0\n0 4294967295\n4294967295 0\n");
    assert_eq!(rows_of(&Instance::read(&extreme.format()).unwrap()), rows_of(&extreme));
}

#[test]
fn blanks_and_a_missing_last_line_feed_do_not_matter() {
    let text = "  3 \r\n3 0\r\n\t2   1\n4 0 \n0 1 2\n1 0 1\n 2\t1  0".to_string();
    let read = Instance::read(&text).unwrap();
    assert_eq!(rows_of(&read), rows_of(&three()));
    assert_eq!(verify_instance(&text), Ok(()));
    assert_eq!(verify_instance(THREE), Ok(()));
}

fn refused(text: &str) -> InstanceError {
    let by_check = verify_instance(text).unwrap_err();
    let by_read = match Instance::read(&text.to_string()) {
        Err(e) => e,
        Ok(_) => panic!("read as an instance"),
    };
    assert_eq!(by_check, by_read);
    assert_eq!(parse_instance(text.as_bytes()).err(), Some(by_check));
    by_check
}

#[test]
fn empty_text_is_no_instance() {
    assert_eq!(refused(""), InstanceError::Empty);
}

#[test]
fn first_line_must_be_one_number() {
    for text in ["\n", "x\n", "3 3\n", "-3\n", "3.0\n", "+\n", "++3\n", "4294967296\n", " \n1 1\n0\n"] {
        assert_eq!(refused(text), InstanceError::BadCount);
    }
}

#[test]
fn no_jobs_is_no_instance() {
    assert_eq!(refused("0\n"), InstanceError::ZeroCount);
    assert_eq!(refused("000"), InstanceError::ZeroCount);
}

#[test]
fn any_number_of_jobs_that_an_id_can_count_is_read() {
    assert_eq!(refused("16385\n"), InstanceError::LineCount { expected: 32771, found: 1 });
    assert_eq!(
        refused("4294967295\n1 1\n"),
        InstanceError::LineCount { expected: 8589934591, found: 2 }
    );
    assert_eq!(refused("16384\n"), InstanceError::LineCount { expected: 32769, found: 1 });
    assert_eq!(refused("4294967296\n"), InstanceError::BadCount);
}

#[test]
fn numbers_may_carry_a_plus_sign() {
    let text = "+2\n+3 +0\n2 +1\n+0 7\n+7 0\n".to_string();
    let read = Instance::read(&text).unwrap();
    assert_eq!(rows_of(&read), vec![(0, 3, 0, vec![0, 7]), (1, 2, 1, vec![7, 0])]);
    assert_eq!(verify_instance(&text), Ok(()));
    assert!(matches!(read_field(b"+12 ", 0, 4, 99), Field::Number { value: 12, next: 3 }));
    assert!(matches!(read_field(b" +", 0, 2, 99), Field::Malformed));
    assert!(matches!(read_field(b"+ 1", 0, 3, 99), Field::Malformed));
    assert!(matches!(read_field(b"1+1", 0, 3, 99), Field::Malformed));
    assert_eq!(verify_solution("+20\n+0 1 +2", &three()), Ok(()));
}

#[test]
fn count_beyond_the_limit_of_the_algorithms_is_no_fault_of_the_text() {
    // the count is read; what is wrong is that the lines are missing
    assert_eq!(refused("46341\n1 0\n"), InstanceError::LineCount { expected: 92683, found: 2 });
    assert_eq!(refused("1000000\n"), InstanceError::LineCount { expected: 2000001, found: 1 });
}

#[test]
fn blanks_beyond_ascii_separate_numbers() {
    for blank in [
        "\u{85}", "\u{a0}", "\u{1680}", "\u{2000}", "\u{2005}", "\u{200a}", "\u{2028}",
        "\u{2029}", "\u{202f}", "\u{205f}", "\u{3000}", "\t", "\u{b}", "\u{c}", "\r", " ",
    ] {
        let text = format!("{b}2{b}\n3{b}0\n2{b}{b}1{b}\n{b}0{b}7\n7{b}0\n", b = blank);
        assert_eq!(verify_instance(&text), Ok(()), "blank {:?}", blank);
        let read = Instance::read(&text).unwrap();
        assert_eq!(rows_of(&read), vec![(0, 3, 0, vec![0, 7]), (1, 2, 1, vec![7, 0])]);
        // the same text is accepted when it is split the standard way
        let first = text.lines().next().unwrap().trim();
        assert_eq!(first, "2");
        assert_eq!(text.lines().nth(2).unwrap().split_whitespace().count(), 2);
    }
}

#[test]
fn characters_that_are_no_blanks_do_not_separate() {
    for other in ["\u{200b}", "\u{feff}", "\u{1c}", "\u{e9}", "\u{2060}", "\u{180e}", "_"] {
        let text = format!("1\n3{}0\n0\n", other);
        assert_eq!(refused(&text), InstanceError::JobFields { line: 2, found: 1 });
        assert_eq!(text.lines().nth(1).unwrap().split_whitespace().count(), 1);
    }
}

#[test]
fn width_of_a_blank_is_its_encoding() {
    use_blank_at("\u{a0}", 2);
    use_blank_at("\u{3000}", 3);
    use_blank_at(" ", 1);
    use_blank_at("7", 0);
    use_blank_at("\u{e9}", 0);
}

fn use_blank_at(text: &str, width: usize) {
    let bytes = text.as_bytes();
    assert_eq!(blank_at(bytes, 0, bytes.len()), width);
    assert_eq!(skip_to_field(bytes, 0, bytes.len()), width);
    // a blank cut off by the end of the line is none
    if width > 1 {
        assert_eq!(blank_at(bytes, 0, width - 1), 0);
    }
}

#[test]
fn missing_lines_are_found_by_counting() {
    assert_eq!(refused("3\n"), InstanceError::LineCount { expected: 7, found: 1 });
    assert_eq!(refused("3"), InstanceError::LineCount { expected: 7, found: 1 });
    assert_eq!(refused("3\n3 0\n2 1\n"), InstanceError::LineCount { expected: 7, found: 3 });
    assert_eq!(refused("3\n3 0\n2 1\n4 0\n"), InstanceError::LineCount { expected: 7, found: 4 });
    assert_eq!(
        refused("3\n3 0\n2 1\n4 0\n0 1 2\n1 0 1\n"),
        InstanceError::LineCount { expected: 7, found: 6 }
    );
}

#[test]
fn lines_are_counted_before_any_is_read() {
    // a bad job line and a bad row in a text that is too short or too long
    assert_eq!(refused("2\nx y\n"), InstanceError::LineCount { expected: 5, found: 2 });
    assert_eq!(
        refused("1\n0 0\n7\n\n\n"),
        InstanceError::LineCount { expected: 3, found: 5 }
    );
    // with the right number of lines the first bad line is named
    assert_eq!(refused("2\nx y\n\n\n\n"), InstanceError::ProcessingTime { line: 2 });
    // the count itself comes before the lines
    assert_eq!(refused("0\n1 0\n0\n"), InstanceError::ZeroCount);
    assert_eq!(refused("x\n1 0\n0\n"), InstanceError::BadCount);
}

#[test]
fn a_line_ends_at_a_line_feed_or_with_the_text() {
    assert_eq!(count_lines(b""), 0);
    assert_eq!(count_lines(b"\n"), 1);
    assert_eq!(count_lines(b"7"), 1);
    assert_eq!(count_lines(b"7\n"), 1);
    assert_eq!(count_lines(b"7\n\n"), 2);
    assert_eq!(count_lines(b"7\n8"), 2);
    assert_eq!(count_lines(b"\n\n\n"), 3);
    assert_eq!(count_lines(b"1\r\n2 0\r\n0\r\n"), 3);
    assert_eq!("7\n\n8".lines().count(), count_lines(b"7\n\n8"));
}

#[test]
fn job_lines_hold_two_numbers() {
    assert_eq!(refused("2\n3\n2 1\n0 1\n1 0\n"), InstanceError::JobFields { line: 2, found: 1 });
    assert_eq!(
        refused("2\n3 0\n2 1 5\n0 1\n1 0\n"),
        InstanceError::JobFields { line: 3, found: 3 }
    );
    assert_eq!(refused("2\n\n2 1\n0 1\n1 0\n"), InstanceError::JobFields { line: 2, found: 0 });
    assert_eq!(
        refused("2\n \t x  y\u{3000}z \n2 1\n0 1\n1 0\n"),
        InstanceError::JobFields { line: 2, found: 3 }
    );
    assert_eq!(refused("2\n3 0\n2 x\n0 1\n1 0\n"), InstanceError::ReadyTime { line: 3 });
    assert_eq!(refused("2\n3 4294967296\n2 1\n0 1\n1 0\n"), InstanceError::ReadyTime { line: 2 });
    assert_eq!(refused("2\n3 -1\n2 1\n0 1\n1 0\n"), InstanceError::ReadyTime { line: 2 });
    assert_eq!(refused("2\n3x 1\n2 1\n0 1\n1 0\n"), InstanceError::ProcessingTime { line: 2 });
    assert_eq!(
        refused("2\n4294967296 1\n2 1\n0 1\n1 0\n"),
        InstanceError::ProcessingTime { line: 2 }
    );
    // the fields are counted before any is read, and a processing time of
    // zero is found before the ready time is read
    assert_eq!(refused("2\nx y z\n2 1\n0 1\n1 0\n"), InstanceError::JobFields { line: 2, found: 3 });
    assert_eq!(refused("2\n0 y\n2 1\n0 1\n1 0\n"), InstanceError::ZeroProcessingTime { line: 2 });
    assert_eq!(count_fields(b" 12  7 \n", 0, 7), 2);
    assert_eq!(count_fields(b" 12  7 \n", 2, 7), 2);
    assert_eq!(count_fields(b" 12  7 \n", 3, 4), 0);
    assert_eq!(count_fields(b"", 0, 0), 0);
}

#[test]
fn processing_times_are_positive() {
    assert_eq!(refused("2\n3 0\n0 1\n0 1\n1 0\n"), InstanceError::ZeroProcessingTime { line: 3 });
    assert_eq!(refused("1\n0 0\n0\n"), InstanceError::ZeroProcessingTime { line: 2 });
}

#[test]
fn setup_rows_hold_one_number_per_job() {
    assert_eq!(refused("2\n3 0\n2 1\n0\n1 0\n"), InstanceError::SetupFields { line: 4, found: 1 });
    assert_eq!(
        refused("2\n3 0\n2 1\n0 1\n1 0 4\n"),
        InstanceError::SetupFields { line: 5, found: 3 }
    );
    assert_eq!(refused("2\n3 0\n2 1\n\n1 0\n"), InstanceError::SetupFields { line: 4, found: 0 });
    assert_eq!(
        refused("2\n3 0\n2 1\n0 1 1 0\n\n"),
        InstanceError::SetupFields { line: 4, found: 4 }
    );
    assert_eq!(
        refused("2\n3 0\n2 1\n0 1\nz 0\n"),
        InstanceError::SetupTime { line: 5, column: 1 }
    );
    assert_eq!(
        refused("2\n3 0\n2 1\n0 z\n1 0\n"),
        InstanceError::SetupTime { line: 4, column: 2 }
    );
    // the fields are read from the left: what comes first is reported
    assert_eq!(
        refused("2\n3 0\n2 1\n7 z\n1 0\n"),
        InstanceError::Diagonal { line: 4, setup: 7 }
    );
    assert_eq!(
        refused("2\n3 0\n2 1\n0 1\nz 7\n"),
        InstanceError::SetupTime { line: 5, column: 1 }
    );
    assert_eq!(
        refused("2\n3 0\n2 1\n0 1 1 0\n"),
        InstanceError::LineCount { expected: 5, found: 4 }
    );
}

#[test]
fn no_job_is_set_up_for_itself() {
    assert_eq!(refused("2\n3 0\n2 1\n5 1\n1 0\n"), InstanceError::Diagonal { line: 4, setup: 5 });
    assert_eq!(refused("2\n3 0\n2 1\n0 1\n1 9\n"), InstanceError::Diagonal { line: 5, setup: 9 });
    assert_eq!(refused("1\n3 0\n1\n"), InstanceError::Diagonal { line: 3, setup: 1 });
}

#[test]
fn nothing_may_follow_the_last_row() {
    assert_eq!(refused("1\n3 0\n0\n0\n"), InstanceError::LineCount { expected: 3, found: 4 });
    assert_eq!(refused("1\n3 0\n0\n\n"), InstanceError::LineCount { expected: 3, found: 4 });
    assert_eq!(refused("1\n3 0\n0\nx"), InstanceError::LineCount { expected: 3, found: 4 });
}

#[test]
fn first_fault_is_reported() {
    // a bad job line comes before a bad row
    assert_eq!(refused("2\n3 0\n0 1\n7 1\n1 0\n"), InstanceError::ZeroProcessingTime { line: 3 });
    assert_eq!(refused("2\nx\n0 1\n7 1\n\n"), InstanceError::JobFields { line: 2, found: 1 });
}

#[test]
fn solution_is_written_as_score_and_order() {
    let mut solution = Solution::new(vec![2, 1, 0]);
    solution.set_score(22);
    solution.set_duration(5);
    assert_eq!(solution.format(), "22\n2 1 0 ");
    assert_eq!(Solution::new(vec![]).format(), "0\n");
    let mut one = Solution::new(vec![10]);
    one.set_score(u64::MAX);
    assert_eq!(one.format(), "18446744073709551615\n10 ");
}

#[test]
fn written_solution_passes_the_check() {
    let instance = three();
    for (order, cost) in [(vec![0, 1, 2], 20), (vec![2, 1, 0], 22), (vec![1, 0, 2], 23)] {
        let mut solution = Solution::new(order);
        solution.set_score(cost);
        assert_eq!(verify_solution(&solution.format(), &instance), Ok(()));
    }
}

#[test]
fn solution_text_may_use_blanks_freely() {
    let instance = three();
    assert_eq!(verify_solution(" 20 \r\n\t0   1 2\r\n", &instance), Ok(()));
    assert_eq!(verify_solution("20\n0 1 2\nanything else\n", &instance), Ok(()));
    assert_eq!(verify_solution("020\n00 01 02", &instance), Ok(()));
}

#[test]
fn solution_text_must_be_well_formed() {
    let instance = three();
    assert_eq!(verify_solution("", &instance), Err(SolutionError::Empty));
    for text in ["\n0 1 2", "x\n0 1 2", "20 1\n0 1 2", "-20\n0 1 2", "18446744073709551616\n0 1 2"] {
        assert_eq!(verify_solution(text, &instance), Err(SolutionError::BadScore));
    }
    assert_eq!(verify_solution("20", &instance), Err(SolutionError::NoTasks));
    assert_eq!(verify_solution("20\n", &instance), Err(SolutionError::NoTasks));
    for text in ["20\n0 1 x", "20\n0,1,2", "20\n0 1 -2", "20\n0 1 4294967296"] {
        assert_eq!(verify_solution(text, &instance), Err(SolutionError::BadTask));
    }
}

#[test]
fn solution_must_fit_the_instance() {
    let instance = three();
    assert_eq!(verify_solution("20\n0 1", &instance), Err(SolutionError::WrongCount { found: 2 }));
    assert_eq!(verify_solution("20\n\n", &instance), Err(SolutionError::WrongCount { found: 0 }));
    assert_eq!(
        verify_solution("20\n0 1 2 0", &instance),
        Err(SolutionError::WrongCount { found: 4 })
    );
    assert_eq!(verify_solution("20\n0 3 9", &instance), Err(SolutionError::UnknownTask { id: 3 }));
    assert_eq!(verify_solution("20\n7 1 1", &instance), Err(SolutionError::UnknownTask { id: 7 }));
    assert_eq!(verify_solution("20\n0 1 1", &instance), Err(SolutionError::RepeatedTask { id: 1 }));
    assert_eq!(verify_solution("20\n2 2 2", &instance), Err(SolutionError::RepeatedTask { id: 2 }));
    assert_eq!(
        verify_solution("19\n0 1 2", &instance),
        Err(SolutionError::ScoreMismatch { reported: 19, calculated: 20 })
    );
    assert_eq!(
        verify_solution("20\n2 1 0", &instance),
        Err(SolutionError::ScoreMismatch { reported: 20, calculated: 22 })
    );
}

#[test]
fn order_is_checked_without_text() {
    let instance = three();
    assert_eq!(verify_order(&instance, 20, &vec![0, 1, 2]), Ok(()));
    assert_eq!(verify_order(&instance, 24, &vec![1, 2, 0]), Ok(()));
    assert_eq!(
        verify_order(&instance, 0, &vec![1, 2, 0]),
        Err(SolutionError::ScoreMismatch { reported: 0, calculated: 24 })
    );
    assert_eq!(verify_order(&instance, 0, &vec![]), Err(SolutionError::WrongCount { found: 0 }));
    assert_eq!(
        verify_order(&instance, 0, &vec![0, 0, 5]),
        Err(SolutionError::UnknownTask { id: 5 })
    );
    assert_eq!(
        verify_order(&instance, 0, &vec![1, 0, 1]),
        Err(SolutionError::RepeatedTask { id: 1 })
    );
}

#[test]
fn ascii_bytes_become_text() {
    assert_eq!(string_of_ascii(b"12 7\n".to_vec()), "12 7\n");
    assert_eq!(string_of_ascii(vec![]), "");
}

#[test]
fn solution_text_is_read_as_score_and_order() {
    assert_eq!(parse_solution("22\n2 1 0 "), Ok((22, vec![2, 1, 0])));
    assert_eq!(parse_solution(" 7 \n\n"), Ok((7, vec![])));
    assert_eq!(parse_solution("7\n5 5 9\nmore"), Ok((7, vec![5, 5, 9])));
    assert_eq!(parse_solution(""), Err(SolutionError::Empty));
    assert_eq!(parse_solution("x\n1"), Err(SolutionError::BadScore));
    assert_eq!(parse_solution("7"), Err(SolutionError::NoTasks));
    assert_eq!(parse_solution("7\n1 b"), Err(SolutionError::BadTask));
    let mut solution = Solution::new(vec![4, 0, 3]);
    solution.set_score(99);
    assert_eq!(parse_solution(&solution.format()), Ok((99, vec![4, 0, 3])));
}
