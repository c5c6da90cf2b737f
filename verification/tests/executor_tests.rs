use alias_mgr::chain::ChainCommand;
use alias_mgr::chain::ChainOperator;
use alias_mgr::chain::CommandChain;
use alias_mgr::chain::CommandType;
use alias_mgr::config::Config;
use alias_mgr::executor::execute_alias;
use alias_mgr::executor::execute_legacy_command_chain;
use alias_mgr::executor::execute_parallel_chain;
use alias_mgr::executor::execute_sequential_chain;
use alias_mgr::executor::ExecOutcome;
use alias_mgr::executor::LegacyOutcome;
use alias_mgr::executor::effective_exit_code;
use alias_mgr::executor::legacy_piece_args;
use alias_mgr::executor::legacy_step_decision;
use alias_mgr::executor::outcome_of;
use alias_mgr::executor::LegacyStepDecision;
use alias_mgr::executor::ScriptedRunner;
use alias_mgr::executor::StepOutcome;

fn step(command: &str, operator: Option<ChainOperator>) -> ChainCommand {
    ChainCommand {
        command: command.to_string(),
        operator,
    }
}

#[test]
fn test_execute_alias_simple_runs_command() {
    let mut config = Config::new();
    let mut runner = ScriptedRunner::new(vec![Ok(0)]);

    config
        .add_alias(
            "hello".to_string(),
            CommandType::Simple("echo hello".to_string()),
            None,
            false,
        )
        .unwrap();

    let outcome = execute_alias(&config, "hello", &Vec::new(), &mut runner);
    assert_eq!(outcome, ExecOutcome::Completed);

    assert_eq!(runner.calls.len(), 1);
    assert_eq!(runner.calls[0].0, "echo");
    assert_eq!(runner.calls[0].1, vec!["hello"]);
}

#[test]
fn test_execute_sequential_chain_respects_conditions() {
    let mut runner = ScriptedRunner::new(vec![Ok(0), Ok(1), Ok(0)]);

    let chain = CommandChain {
        commands: vec![
            step("echo first", None),
            step("echo second", Some(ChainOperator::And)),
            step("echo third", Some(ChainOperator::Or)),
        ],
        parallel: false,
    };

    let report = execute_sequential_chain(&chain, &Vec::new(), &mut runner);
    assert_eq!(report.len(), 3);

    let calls = &runner.calls;
    assert_eq!(calls.len(), 3);
    assert_eq!(calls[0].0, "echo");
    assert_eq!(calls[1].0, "echo");
    assert_eq!(calls[2].0, "echo");
}

#[test]
fn test_execute_parallel_chain_reports_failures() {
    let mut runner = ScriptedRunner::new(vec![Ok(0), Err("boom".to_string()), Ok(0)]);

    let chain = CommandChain {
        commands: vec![
            step("echo alpha", None),
            step("echo beta", None),
            step("echo gamma", None),
        ],
        parallel: true,
    };

    let (outcome, _results) = execute_parallel_chain(&chain, &Vec::new(), &mut runner);
    let err = outcome.expect_err("parallel chain should fail");
    assert!(err.contains("parallel commands failed"));

    assert_eq!(runner.calls.len(), 3);
}

#[test]
fn failed_step_is_skipped_by_and_then_caught_by_or() {
    // A exits 1: B (And) must be skipped, C (Or) must run, and C's gate
    // reads A's code since the skipped B left it in place.
    let mut runner = ScriptedRunner::new(vec![Ok(1), Ok(0)]);
    let chain = CommandChain {
        commands: vec![
            step("echo a", None),
            step("echo b", Some(ChainOperator::And)),
            step("echo c", Some(ChainOperator::Or)),
        ],
        parallel: false,
    };
    let report = execute_sequential_chain(&chain, &Vec::new(), &mut runner);
    assert_eq!(
        report,
        vec![
            StepOutcome::Executed(1),
            StepOutcome::Skipped,
            StepOutcome::Executed(0)
        ]
    );
    // Only A and C reached the runner.
    assert_eq!(runner.calls.len(), 2);
    assert_eq!(runner.calls[0].1, vec!["a"]);
    assert_eq!(runner.calls[1].1, vec!["c"]);
}

#[test]
fn if_code_runs_only_on_the_exact_code() {
    // Previous step exits 2: IfCode(2) runs.
    let mut runner = ScriptedRunner::new(vec![Ok(2), Ok(0)]);
    let chain = CommandChain {
        commands: vec![
            step("echo a", None),
            step("echo b", Some(ChainOperator::IfCode(2))),
        ],
        parallel: false,
    };
    let report = execute_sequential_chain(&chain, &Vec::new(), &mut runner);
    assert_eq!(report[1], StepOutcome::Executed(0));

    // Previous step exits 1: IfCode(2) is skipped, even though 1 is
    // non-zero and less than 2.
    let mut runner = ScriptedRunner::new(vec![Ok(1)]);
    let report = execute_sequential_chain(&chain, &Vec::new(), &mut runner);
    assert_eq!(report[1], StepOutcome::Skipped);
    assert_eq!(runner.calls.len(), 1);
}

#[test]
fn launch_failure_counts_as_127_and_chain_goes_on() {
    // Step 1 cannot launch; it counts as exit 127 and step 2 (Or) runs.
    let mut runner = ScriptedRunner::new(vec![Err("no such program".to_string()), Ok(0)]);
    let chain = CommandChain {
        commands: vec![
            step("ghost", None),
            step("echo rescue", Some(ChainOperator::Or)),
        ],
        parallel: false,
    };
    let report = execute_sequential_chain(&chain, &Vec::new(), &mut runner);
    assert_eq!(
        report,
        vec![StepOutcome::Executed(127), StepOutcome::Executed(0)]
    );
}

#[test]
fn only_last_step_gets_args_when_no_step_has_placeholders() {
    let mut runner = ScriptedRunner::new(vec![Ok(0), Ok(0)]);
    let chain = CommandChain {
        commands: vec![
            step("echo a", None),
            step("echo b", Some(ChainOperator::And)),
        ],
        parallel: false,
    };
    let args = vec!["extra".to_string()];
    execute_sequential_chain(&chain, &args, &mut runner);
    assert_eq!(runner.calls[0].1, vec!["a"]);
    assert_eq!(runner.calls[1].1, vec!["b", "extra"]);
}

#[test]
fn every_step_gets_args_when_any_step_has_placeholders() {
    let mut runner = ScriptedRunner::new(vec![Ok(0), Ok(0)]);
    let chain = CommandChain {
        commands: vec![
            step("echo a", None),
            step("echo $1", Some(ChainOperator::And)),
        ],
        parallel: false,
    };
    let args = vec!["extra".to_string()];
    execute_sequential_chain(&chain, &args, &mut runner);
    // The plain first step appends the args; the second embeds them.
    assert_eq!(runner.calls[0].1, vec!["a", "extra"]);
    assert_eq!(runner.calls[1].1, vec!["extra"]);
}

#[test]
fn parallel_counts_only_launch_failures_not_exit_codes() {
    // Non-zero exit codes are not failures in parallel mode.
    let mut runner = ScriptedRunner::new(vec![Ok(1), Ok(2), Ok(3)]);
    let chain = CommandChain {
        commands: vec![
            step("echo a", None),
            step("echo b", None),
            step("echo c", None),
        ],
        parallel: true,
    };
    let (outcome, results) = execute_parallel_chain(&chain, &Vec::new(), &mut runner);
    assert!(outcome.is_ok());
    assert_eq!(results.len(), 3);
}

#[test]
fn parallel_failure_message_counts_failed_steps() {
    let mut runner = ScriptedRunner::new(vec![
        Err("a gone".to_string()),
        Ok(0),
        Err("c gone".to_string()),
    ]);
    let chain = CommandChain {
        commands: vec![
            step("ghost-a", None),
            step("echo b", None),
            step("ghost-c", None),
        ],
        parallel: true,
    };
    let (outcome, results) = execute_parallel_chain(&chain, &Vec::new(), &mut runner);
    assert_eq!(outcome.unwrap_err(), "2 parallel commands failed");
    assert_eq!(results.len(), 3);
    assert!(results[0].is_err());
    assert!(results[1].is_ok());
    assert!(results[2].is_err());
}

#[test]
fn legacy_chain_stops_at_failing_piece_and_names_it() {
    // Piece 2 of 3 fails to launch: piece 3 never runs, the step is named.
    let mut config = Config::new();
    config
        .add_alias(
            "triple".to_string(),
            CommandType::Simple("echo one && ghost two && echo three".to_string()),
            None,
            false,
        )
        .unwrap();
    let mut runner = ScriptedRunner::new(vec![Ok(0), Err("no such program".to_string())]);
    let outcome = execute_alias(&config, "triple", &Vec::new(), &mut runner);
    assert_eq!(
        outcome,
        ExecOutcome::Failed("Command chain stopped at step 2".to_string())
    );
    assert_eq!(runner.calls.len(), 2);
}

#[test]
fn legacy_chain_passes_nonzero_exit_through() {
    let mut runner = ScriptedRunner::new(vec![Ok(0), Ok(3)]);
    let outcome =
        execute_legacy_command_chain("echo one && false-ish", &Vec::new(), &mut runner);
    assert_eq!(outcome, LegacyOutcome::Terminated(3));
}

#[test]
fn legacy_chain_skips_blank_pieces_and_gives_args_to_last() {
    let mut runner = ScriptedRunner::new(vec![Ok(0), Ok(0)]);
    let args = vec!["tail".to_string()];
    let outcome = execute_legacy_command_chain("echo a &&   && echo b", &args, &mut runner);
    assert_eq!(outcome, LegacyOutcome::Completed);
    assert_eq!(runner.calls.len(), 2);
    assert_eq!(runner.calls[0].1, vec!["a"]);
    assert_eq!(runner.calls[1].1, vec!["b", "tail"]);
}

#[test]
fn single_command_passes_nonzero_exit_code_through() {
    let mut config = Config::new();
    config
        .add_alias(
            "flaky".to_string(),
            CommandType::Simple("run-checks".to_string()),
            None,
            false,
        )
        .unwrap();
    let mut runner = ScriptedRunner::new(vec![Ok(5)]);
    let outcome = execute_alias(&config, "flaky", &Vec::new(), &mut runner);
    assert_eq!(outcome, ExecOutcome::Terminated(5));
}

#[test]
fn unknown_alias_is_reported_by_name() {
    let config = Config::new();
    let mut runner = ScriptedRunner::new(vec![]);
    let outcome = execute_alias(&config, "nonexistent", &Vec::new(), &mut runner);
    assert_eq!(
        outcome,
        ExecOutcome::Failed("Alias 'nonexistent' not found".to_string())
    );
}

#[test]
fn sequential_chain_completes_even_when_every_step_fails() {
    let mut config = Config::new();
    config
        .add_alias(
            "stubborn".to_string(),
            CommandType::Chain(CommandChain {
                commands: vec![
                    step("echo a", None),
                    step("echo b", Some(ChainOperator::Always)),
                ],
                parallel: false,
            }),
            None,
            false,
        )
        .unwrap();
    let mut runner = ScriptedRunner::new(vec![Ok(1), Ok(1)]);
    let outcome = execute_alias(&config, "stubborn", &Vec::new(), &mut runner);
    assert_eq!(outcome, ExecOutcome::Completed);
    assert_eq!(runner.calls.len(), 2);
}

#[test]
fn legacy_chain_of_blank_pieces_completes_without_running() {
    let mut runner = ScriptedRunner::new(vec![]);
    let outcome = execute_legacy_command_chain("   &&  ", &Vec::new(), &mut runner);
    assert_eq!(outcome, LegacyOutcome::Completed);
    assert_eq!(runner.calls.len(), 0);
}

#[test]
fn legacy_chain_stops_when_first_piece_cannot_be_prepared() {
    // The first nonblank piece holds an unterminated quote: the chain
    // stops at step 1 before anything reaches the runner.
    let mut runner = ScriptedRunner::new(vec![]);
    let outcome =
        execute_legacy_command_chain("echo 'oops && echo fine", &Vec::new(), &mut runner);
    assert_eq!(outcome, LegacyOutcome::Stopped(1));
    assert_eq!(runner.calls.len(), 0);
}

#[test]
fn legacy_step_decision_maps_results_exactly() {
    assert_eq!(legacy_step_decision(Ok(0), 4), LegacyStepDecision::Continue);
    assert_eq!(
        legacy_step_decision(Ok(9), 4),
        LegacyStepDecision::Terminated(9)
    );
    assert_eq!(
        legacy_step_decision(Err("gone".to_string()), 4),
        LegacyStepDecision::Stopped(4)
    );
}

#[test]
fn effective_exit_code_turns_launch_failure_into_127() {
    assert_eq!(effective_exit_code(Ok(3)), 3);
    assert_eq!(effective_exit_code(Ok(0)), 0);
    assert_eq!(effective_exit_code(Err("gone".to_string())), 127);
}

#[test]
fn outcome_of_maps_runner_results_exactly() {
    assert_eq!(outcome_of(Ok(0)), ExecOutcome::Completed);
    assert_eq!(outcome_of(Ok(7)), ExecOutcome::Terminated(7));
    assert_eq!(
        outcome_of(Err("gone".to_string())),
        ExecOutcome::Failed("gone".to_string())
    );
}

#[test]
fn legacy_piece_args_go_to_the_final_piece_only() {
    let args = vec!["x".to_string()];
    assert_eq!(legacy_piece_args(&args, 0, 3), Vec::<String>::new());
    assert_eq!(legacy_piece_args(&args, 1, 3), Vec::<String>::new());
    assert_eq!(legacy_piece_args(&args, 2, 3), vec!["x".to_string()]);
}

#[test]
fn single_command_reports_unparseable_template() {
    let mut config = Config::new();
    config
        .add_alias(
            "broken".to_string(),
            CommandType::Simple("echo 'oops".to_string()),
            None,
            false,
        )
        .unwrap();
    let mut runner = ScriptedRunner::new(vec![]);
    let outcome = execute_alias(&config, "broken", &Vec::new(), &mut runner);
    assert_eq!(
        outcome,
        ExecOutcome::Failed(
            "Failed to parse command 'echo 'oops': missing closing quote".to_string()
        )
    );
    assert_eq!(runner.calls.len(), 0);
}
