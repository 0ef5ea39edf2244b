use result_verifier::command::{CommandOutput, CommandResult, ExeScriptCommandResult};
use result_verifier::fixed::Quantity;
use result_verifier::result_comparator::ResultComparator;
use result_verifier::time::DateTime;

fn at(secs: i64) -> DateTime {
    DateTime::from_timestamp(secs, 0).unwrap()
}

fn utc_now() -> DateTime {
    let now = chrono::Utc::now();
    DateTime::from_timestamp(now.timestamp(), now.timestamp_subsec_nanos()).unwrap()
}

fn create_test_command(index: u32, result: CommandResult) -> ExeScriptCommandResult {
    ExeScriptCommandResult {
        index,
        result,
        stdout: None,
        stderr: None,
        message: None,
        is_batch_finished: index == 1,
        event_date: utc_now(),
    }
}

fn with_output(output: Option<CommandOutput>) -> ExeScriptCommandResult {
    ExeScriptCommandResult {
        index: 0,
        result: CommandResult::Success,
        stdout: output,
        stderr: None,
        message: None,
        is_batch_finished: true,
        event_date: at(0),
    }
}

#[test]
fn test_compare_by_command() {
    let results = vec![
        vec![
            create_test_command(0, CommandResult::Success),
            create_test_command(1, CommandResult::Success),
        ],
        vec![
            create_test_command(0, CommandResult::Success),
            create_test_command(1, CommandResult::Error), // Tampered
        ],
        vec![
            create_test_command(0, CommandResult::Success),
            create_test_command(1, CommandResult::Success),
        ],
    ];

    let comparisons = ResultComparator::compare_by_command(&results);
    assert_eq!(comparisons.len(), 2);

    // Command 0: all match
    let cmd0 = comparisons.get(&0).unwrap();
    assert_eq!(cmd0.matching_providers.len(), 3);
    assert_eq!(cmd0.mismatching_providers.len(), 0);
    assert!(cmd0.matches);

    // Command 1: provider 1 mismatches
    let cmd1 = comparisons.get(&1).unwrap();
    assert_eq!(cmd1.matching_providers.len(), 2);
    assert_eq!(cmd1.mismatching_providers.len(), 1);
    assert!(cmd1.mismatching_providers.contains(&1));
    assert!(!cmd1.matches);
}

#[test]
fn test_detect_partial_tampering() {
    let results = vec![
        vec![
            create_test_command(0, CommandResult::Success),
            create_test_command(1, CommandResult::Success),
        ],
        vec![
            create_test_command(0, CommandResult::Success),
            create_test_command(1, CommandResult::Error), // 50% tampered
        ],
        vec![
            create_test_command(0, CommandResult::Success),
            create_test_command(1, CommandResult::Success),
        ],
    ];

    // Detect providers with >= 30% mismatch
    let tampered =
        ResultComparator::detect_partial_tampering(&results, Quantity { micros: 300_000 });
    assert_eq!(tampered.len(), 1);
    assert_eq!(tampered[0], 1);
}

#[test]
fn nothing_to_compare() {
    assert!(ResultComparator::compare_by_command(&[]).is_empty());
    assert!(ResultComparator::detect_partial_tampering(&[], Quantity { micros: 0 }).is_empty());
    let empty_batches = vec![vec![], vec![]];
    assert!(ResultComparator::compare_by_command(&empty_batches).is_empty());
    assert!(
        ResultComparator::detect_partial_tampering(&empty_batches, Quantity { micros: 0 })
            .is_empty()
    );
}

#[test]
fn missing_commands_are_mismatches() {
    let full = vec![
        create_test_command(0, CommandResult::Success),
        create_test_command(1, CommandResult::Success),
    ];
    let results = vec![full.clone(), vec![full[0].clone()], full.clone()];
    let comparisons = ResultComparator::compare_by_command(&results);
    assert_eq!(comparisons[&1].matching_providers, vec![0, 2]);
    assert_eq!(comparisons[&1].mismatching_providers, vec![1]);
    assert_eq!(comparisons[&1].clone(), comparisons[&1]);
    // Half of the commands is just enough for a bound of one half.
    let half = ResultComparator::detect_partial_tampering(&results, Quantity { micros: 500_000 });
    assert_eq!(half, vec![1]);
    let more = ResultComparator::detect_partial_tampering(&results, Quantity { micros: 500_001 });
    assert!(more.is_empty());
}

#[test]
fn the_most_common_result_wins_and_the_first_of_equals() {
    let good = with_output(Some(CommandOutput::Str("a".to_string())));
    let bad = with_output(Some(CommandOutput::Str("b".to_string())));
    let results = vec![vec![bad.clone()], vec![good.clone()], vec![good.clone()]];
    let comparisons = ResultComparator::compare_by_command(&results);
    assert_eq!(comparisons[&0].matching_providers, vec![1, 2]);
    let tie = vec![vec![bad.clone()], vec![good.clone()]];
    let comparisons = ResultComparator::compare_by_command(&tie);
    assert_eq!(comparisons[&0].matching_providers, vec![0]);
    assert_eq!(comparisons[&0].mismatching_providers, vec![1]);
}

#[test]
fn text_and_bytes_are_different_outputs() {
    let text = with_output(Some(CommandOutput::Str("[1]".to_string())));
    let bytes = with_output(Some(CommandOutput::Bin(vec![1])));
    let none = with_output(None);
    let empty = with_output(Some(CommandOutput::Str(String::new())));
    assert!(ResultComparator::commands_match(&text, &text.clone()));
    assert!(ResultComparator::commands_match(&bytes, &bytes.clone()));
    assert!(ResultComparator::commands_match(&none, &none.clone()));
    assert!(!ResultComparator::commands_match(&text, &bytes));
    assert!(!ResultComparator::commands_match(&none, &text));
}

#[test]
fn no_output_is_as_good_as_empty_text() {
    let none = with_output(None);
    let empty = with_output(Some(CommandOutput::Str(String::new())));
    let no_bytes = with_output(Some(CommandOutput::Bin(vec![])));
    assert!(ResultComparator::commands_match(&none, &empty));
    assert!(ResultComparator::commands_match(&empty, &none));
    assert!(!ResultComparator::commands_match(&none, &no_bytes));
    assert!(!ResultComparator::commands_match(&empty, &no_bytes));
    let text = |s: &str| Some(CommandOutput::Str(s.to_string()));
    assert!(ResultComparator::outputs_match(&None, &None));
    assert!(ResultComparator::outputs_match(&None, &text("")));
    assert!(ResultComparator::outputs_match(&text(""), &None));
    assert!(ResultComparator::outputs_match(&text(""), &text("")));
    assert!(ResultComparator::outputs_match(&text("é"), &text("é")));
    assert!(!ResultComparator::outputs_match(&text("a"), &None));
    assert!(!ResultComparator::outputs_match(&None, &text(" ")));
    assert!(!ResultComparator::outputs_match(&text("a"), &text("")));
    // Such a provider is not reported.
    let results = vec![vec![none.clone()], vec![empty], vec![none]];
    assert!(ResultComparator::compare_by_command(&results)[&0].matches);
}

#[test]
fn who_returns_what_most_return_is_not_reported() {
    let ok = |i: u32| create_test_command(i, CommandResult::Success);
    let err = |i: u32| create_test_command(i, CommandResult::Error);
    let good = vec![ok(0), ok(1)];
    let results = vec![vec![err(0), ok(1)], good.clone(), vec![ok(0)], good.clone(), good];
    let tenth = Quantity { micros: 100_000 };
    assert_eq!(ResultComparator::detect_partial_tampering(&results, tenth), vec![0, 2]);
}

#[test]
fn messages_and_times_do_not_count() {
    let a = create_test_command(0, CommandResult::Success);
    let mut b = a.clone();
    b.message = Some("hello".to_string());
    b.event_date = at(12);
    assert!(ResultComparator::commands_match(&a, &b));
    b.is_batch_finished = !b.is_batch_finished;
    assert!(!ResultComparator::commands_match(&a, &b));
    let mut c = a.clone();
    c.index = 7;
    assert!(!ResultComparator::commands_match(&a, &c));
    let mut d = a.clone();
    d.stderr = Some(CommandOutput::Str("oops".to_string()));
    assert!(!ResultComparator::commands_match(&a, &d));
}

#[test]
fn a_lower_bound_reports_more_providers() {
    let ok = |i: u32| create_test_command(i, CommandResult::Success);
    let err = |i: u32| create_test_command(i, CommandResult::Error);
    let results = vec![
        vec![ok(0), ok(1), ok(2)],
        vec![ok(0), ok(1), err(2)],
        vec![ok(0), err(1), err(2)],
        vec![ok(0), ok(1), ok(2)],
    ];
    // The first result for the last command is as common as any other.
    let low = ResultComparator::detect_partial_tampering(&results, Quantity { micros: 100_000 });
    assert_eq!(low, vec![1, 2]);
    let high = ResultComparator::detect_partial_tampering(&results, Quantity { micros: 600_000 });
    assert_eq!(high, vec![2]);
    let all = ResultComparator::detect_partial_tampering(&results, Quantity { micros: 0 });
    assert_eq!(all, vec![0, 1, 2, 3]);
}
