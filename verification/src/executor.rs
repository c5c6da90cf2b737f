//! The chain execution engines.
//!
//! Sequential mode threads one `last_exit_code` through the steps, honoring
//! each step's operator; a step that cannot launch counts as exit code 127
//! and the chain goes on.  Parallel mode runs every step and reports how
//! many failed to launch, ignoring operators and exit codes.  The legacy
//! `" && "`-joined form hard-stops at the first failing piece.  Process
//! spawning itself sits behind the [`CommandRunner`] capability.

use vstd::prelude::*;
use vstd::string::StrSliceExecFns;
use vstd::string::StringExecFns;

use crate::chain::ChainCommand;
use crate::chain::ChainOperator;
use crate::chain::CommandChain;
use crate::chain::CommandType;
use crate::config::Config;
use crate::config::spec_lookup;
use crate::text::contains_seq;
use crate::text::str_contains_str;
use crate::chain::spec_should_run;
use crate::chain::should_run;
use crate::chain::step_args;
use crate::invocation::prepare_command_invocation;
use crate::invocation::shell_split;
use crate::invocation::spec_prepare;
use crate::resolver::spec_has_placeholders;
use crate::resolver::spec_resolve;
use crate::text::clone_string_vec;
use crate::text::dec_digits;
use crate::text::format_usize;
use crate::text::seq_views;
use crate::text::spec_split_chain;
use crate::text::spec_trim;
use crate::text::split_chain_pieces;
use crate::text::trim_str;

verus! {

/// The capability that spawns a program with arguments and reports its exit
/// code, or a message when it could not be launched.  The real
/// implementation inherits the caller's standard streams; tests substitute
/// a scripted recorder.  Nothing is assumed of the result: the executors
/// state what holds whatever a call returns.
pub trait CommandRunner {
    /// Runs `program` with `args` and returns its exit code, or a message
    /// when the program could not be started.
    fn run(&mut self, program: &str, args: &Vec<String>) -> Result<i32, String>;
}

/// A runner for tests: replays a scripted list of responses (then `Ok(0)`
/// once the script is exhausted) and records every call it receives.
pub struct ScriptedRunner {
    pub responses: Vec<Result<i32, String>>,
    pub cursor: usize,
    pub calls: Vec<(String, Vec<String>)>,
}

impl ScriptedRunner {
    /// A runner that will hand out the given responses in order.
    pub fn new(responses: Vec<Result<i32, String>>) -> (r: ScriptedRunner)
        ensures
            r.responses == responses,
            r.cursor == 0,
            r.calls@.len() == 0,
    {
        ScriptedRunner { responses, cursor: 0, calls: Vec::new() }
    }
}

impl CommandRunner for ScriptedRunner {
    fn run(&mut self, program: &str, args: &Vec<String>) -> Result<i32, String> {
        self.calls.push((String::from_str(program), clone_string_vec(args)));
        if self.cursor < self.responses.len() {
            let idx = self.cursor;
            self.cursor = self.cursor + 1;
            match &self.responses[idx] {
                Result::Ok(code) => Result::Ok(*code),
                Result::Err(m) => Result::Err(m.clone()),
            }
        } else {
            Result::Ok(0)
        }
    }
}

/// The command line the resolver hands to the tokenizer: the template with
/// placeholders substituted when it holds any, or the template verbatim.
pub open spec fn spec_resolved_command(t: Seq<char>, args: Seq<Seq<char>>) -> Seq<char> {
    if spec_has_placeholders(t) {
        spec_resolve(t, args)
    } else {
        t
    }
}

/// Prepares one invocation and hands it to the runner, returning the exit
/// code or the preparation or launch failure, with the exact preparation
/// error messages.
pub fn execute_single_command_with_exit_code<R: CommandRunner>(
    command_str: &str,
    args: &Vec<String>,
    runner: &mut R,
) -> (r: Result<i32, String>)
    ensures
        spec_prepare(command_str@, seq_views(args@)) is None ==> r is Err,
        ({
            let resolved = spec_resolved_command(command_str@, seq_views(args@));
            shell_split(resolved) is None ==> (r matches Err(m) && m@ == (
            "Failed to parse command '"@ + resolved) + "': missing closing quote"@)
        }),
        ({
            let resolved = spec_resolved_command(command_str@, seq_views(args@));
            shell_split(resolved) matches Some(toks) ==> (toks.len() == 0 ==> (r matches Err(m)
                && m@ == "Empty command in alias"@))
        }),
{
    match prepare_command_invocation(command_str, args) {
        Result::Ok((program, command_args)) => runner.run(program.as_str(), &command_args),
        Result::Err(m) => Result::Err(m),
    }
}

/// The exit code a sequential step contributes to the chain: the real exit
/// code when the runner returned one, or the synthetic 127 when the step
/// could not be prepared or launched (such a step is a soft failure; the
/// chain goes on).
pub fn effective_exit_code(res: Result<i32, String>) -> (c: i32)
    ensures
        res matches Ok(code) ==> c == code,
        res is Err ==> c == 127,
{
    match res {
        Result::Ok(code) => code,
        Result::Err(_) => 127,
    }
}

/// What one sequential step came to: it ran and left an exit code (127
/// standing in for a failed launch), or its operator gate held it back.
#[derive(Clone, Copy, Debug, PartialEq, Eq, Structural)]
pub enum StepOutcome {
    Executed(i32),
    Skipped,
}

/// The exit code the chain has after its first `k` steps: initially 0, set
/// by each executed step, and left untouched by a skipped one.
pub open spec fn code_after(report: Seq<StepOutcome>, k: int) -> i32
    decreases k,
{
    if k <= 0 {
        0
    } else {
        match report[k - 1] {
            StepOutcome::Executed(c) => c,
            StepOutcome::Skipped => code_after(report, k - 1),
        }
    }
}

/// Extending a report does not change the code after an earlier prefix.
proof fn lemma_code_after_push(report: Seq<StepOutcome>, x: StepOutcome, k: int)
    requires
        0 <= k <= report.len(),
    ensures
        code_after(report.push(x), k) == code_after(report, k),
    decreases k,
{
    if k > 0 {
        assert(report.push(x)[k - 1] == report[k - 1]);
        lemma_code_after_push(report, x, k - 1);
    }
}

/// Runs a chain sequentially: each step's operator is evaluated against the
/// exit code of the last step that actually ran, a skipped step leaves that
/// code untouched, and a step that fails to prepare or launch counts as
/// exit code 127 without stopping the chain.  The chain always runs to its
/// end; the returned report holds one outcome per step.
pub fn execute_sequential_chain<R: CommandRunner>(
    chain: &CommandChain,
    additional_args: &Vec<String>,
    runner: &mut R,
) -> (report: Vec<StepOutcome>)
    ensures
        report@.len() == chain.commands@.len(),
        forall|i: int|
            0 <= i < report@.len() ==> (report@[i] is Skipped <==> !spec_should_run(
                chain.commands@[i].operator,
                code_after(report@, i),
            )),
{
    let n = chain.commands.len();
    let mut report: Vec<StepOutcome> = Vec::new();
    let mut last: i32 = 0;
    let mut idx: usize = 0;
    while idx < n
        invariant
            idx <= n,
            n == chain.commands@.len(),
            report@.len() == idx,
            last == code_after(report@, idx as int),
            forall|i: int|
                0 <= i < idx ==> (report@[i] is Skipped <==> !spec_should_run(
                    chain.commands@[i].operator,
                    code_after(report@, i),
                )),
        decreases n - idx,
    {
        let ghost rep0 = report@;
        let gate = should_run(&chain.commands[idx].operator, last);
        if !gate {
            report.push(StepOutcome::Skipped);
        } else {
            let args_to_use = step_args(&chain.commands, additional_args, idx);
            let code = effective_exit_code(
                execute_single_command_with_exit_code(
                    chain.commands[idx].command.as_str(),
                    &args_to_use,
                    runner,
                ),
            );
            last = code;
            report.push(StepOutcome::Executed(code));
        }
        proof {
            assert forall|i: int| 0 <= i <= idx implies code_after(report@, i) == code_after(
                rep0,
                i,
            ) by {
                lemma_code_after_push(rep0, report@[idx as int], i);
            }
        }
        idx = idx + 1;
    }
    report
}

/// In a three-step sequential chain `[A (no operator), B (And), C (Or)]`
/// where A ran and exited non-zero: B is skipped, C runs, and the code C's
/// gate read is A's code, since the skipped B left it in place.
pub proof fn lemma_failed_step_skips_and_then_recovers(
    cmds: Seq<ChainCommand>,
    report: Seq<StepOutcome>,
    code: i32,
)
    requires
        cmds.len() == 3,
        report.len() == 3,
        cmds[0].operator is None,
        cmds[1].operator == Some(ChainOperator::And),
        cmds[2].operator == Some(ChainOperator::Or),
        forall|i: int|
            0 <= i < report.len() ==> (report[i] is Skipped <==> !spec_should_run(
                cmds[i].operator,
                code_after(report, i),
            )),
        report[0] == StepOutcome::Executed(code),
        code != 0,
    ensures
        report[1] is Skipped,
        report[2] is Executed,
        code_after(report, 2) == code,
{
    assert(code_after(report, 1) == code);
    assert(report[1] is Skipped);
    assert(code_after(report, 2) == code);
    assert(spec_should_run(cmds[2].operator, code));
}

/// The number of results that are launch failures among the first `k`.
pub open spec fn spec_failed_count(results: Seq<Result<i32, String>>, k: int) -> int
    decreases k,
{
    if k <= 0 {
        0
    } else {
        spec_failed_count(results, k - 1) + if results[k - 1] is Err {
            1int
        } else {
            0int
        }
    }
}

/// The failure count lies between zero and the number of results counted.
pub proof fn lemma_failed_count_bounds(results: Seq<Result<i32, String>>, k: int)
    requires
        0 <= k <= results.len(),
    ensures
        0 <= spec_failed_count(results, k) <= k,
    decreases k,
{
    if k > 0 {
        lemma_failed_count_bounds(results, k - 1);
    }
}

/// Aggregates parallel results: success exactly when every step's runner
/// call returned an exit code (whatever the code); otherwise an error
/// counting the steps that failed to launch.
pub fn aggregate_parallel_results(results: &Vec<Result<i32, String>>) -> (r: Result<(), String>)
    ensures
        spec_failed_count(results@, results@.len() as int) == 0 <==> r is Ok,
        r is Err ==> r->Err_0@ == dec_digits(
            spec_failed_count(results@, results@.len() as int) as nat,
        ) + " parallel commands failed"@,
{
    let n = results.len();
    let mut failed: usize = 0;
    let mut i: usize = 0;
    while i < n
        invariant
            i <= n,
            n == results@.len(),
            failed <= i,
            failed == spec_failed_count(results@, i as int),
        decreases n - i,
    {
        if results[i].is_err() {
            failed = failed + 1;
        }
        i = i + 1;
    }
    if failed == 0 {
        Result::Ok(())
    } else {
        let mut m = format_usize(failed);
        m.append(" parallel commands failed");
        Result::Err(m)
    }
}

/// Runs every step of a parallel chain and collects one result per step in
/// step order; operators are not evaluated and a non-zero exit code is not
/// by itself a failure.  Returns the aggregate outcome together with the
/// collected per-step results.
pub fn execute_parallel_chain<R: CommandRunner>(
    chain: &CommandChain,
    additional_args: &Vec<String>,
    runner: &mut R,
) -> (r: (Result<(), String>, Vec<Result<i32, String>>))
    ensures
        r.1@.len() == chain.commands@.len(),
        spec_failed_count(r.1@, r.1@.len() as int) == 0 <==> r.0 is Ok,
        r.0 is Err ==> r.0->Err_0@ == dec_digits(
            spec_failed_count(r.1@, r.1@.len() as int) as nat,
        ) + " parallel commands failed"@,
{
    let n = chain.commands.len();
    let mut results: Vec<Result<i32, String>> = Vec::new();
    let mut idx: usize = 0;
    while idx < n
        invariant
            idx <= n,
            n == chain.commands@.len(),
            results@.len() == idx,
        decreases n - idx,
    {
        let args_to_use = step_args(&chain.commands, additional_args, idx);
        let res = execute_single_command_with_exit_code(
            chain.commands[idx].command.as_str(),
            &args_to_use,
            runner,
        );
        results.push(res);
        idx = idx + 1;
    }
    let outcome = aggregate_parallel_results(&results);
    (outcome, results)
}

/// How a legacy `" && "` chain ended: every piece exited 0; a piece exited
/// non-zero, whose code the whole program must exit with; or the 1-indexed
/// piece named could not be prepared or launched, stopping the chain there.
#[derive(Clone, Debug, PartialEq, Eq, Structural)]
pub enum LegacyOutcome {
    Completed,
    Terminated(i32),
    Stopped(usize),
}

/// The runtime arguments a legacy piece receives: the caller's arguments
/// for the final piece only.  The legacy path pre-dates placeholders and
/// never applies the structured chains' placeholder-aware redistribution.
pub open spec fn spec_legacy_args(args: Seq<Seq<char>>, index: int, count: int) -> Seq<Seq<char>> {
    if index == count - 1 {
        args
    } else {
        Seq::empty()
    }
}

/// Computes the runtime arguments that legacy piece `index` of `count`
/// receives, by the rule above.
pub fn legacy_piece_args(args: &Vec<String>, index: usize, count: usize) -> (r: Vec<String>)
    ensures
        seq_views(r@) == spec_legacy_args(seq_views(args@), index as int, count as int),
{
    if count > 0 && index == count - 1 {
        clone_string_vec(args)
    } else {
        let r: Vec<String> = Vec::new();
        proof {
            assert(seq_views(r@) =~= Seq::<Seq<char>>::empty());
        }
        r
    }
}

/// What one legacy piece's runner result decides for the chain: exit code
/// 0 continues to the next piece; a non-zero exit code terminates the
/// whole program with that code; a preparation or launch failure stops the
/// chain at the given 1-indexed step.
#[derive(Clone, Debug, PartialEq, Eq, Structural)]
pub enum LegacyStepDecision {
    Continue,
    Terminated(i32),
    Stopped(usize),
}

/// Decides how a legacy chain reacts to one piece's runner result.
pub fn legacy_step_decision(res: Result<i32, String>, step: usize) -> (d: LegacyStepDecision)
    ensures
        res matches Ok(code) ==> (if code == 0 {
            d == LegacyStepDecision::Continue
        } else {
            d == LegacyStepDecision::Terminated(code)
        }),
        res is Err ==> d == LegacyStepDecision::Stopped(step),
{
    match res {
        Result::Ok(code) => {
            if code != 0 {
                LegacyStepDecision::Terminated(code)
            } else {
                LegacyStepDecision::Continue
            }
        },
        Result::Err(_) => LegacyStepDecision::Stopped(step),
    }
}

/// The index of the first piece that is nonblank after trimming, or the
/// piece count when every piece is blank.
pub open spec fn first_nonblank(pieces: Seq<Seq<char>>, i: int) -> int
    decreases pieces.len() - i,
{
    if i < 0 || i >= pieces.len() {
        pieces.len() as int
    } else if spec_trim(pieces[i]).len() > 0 {
        i
    } else {
        first_nonblank(pieces, i + 1)
    }
}

/// Scanning from 0 or from just past a blank prefix finds the same first
/// nonblank piece.
proof fn lemma_first_nonblank_skip(pieces: Seq<Seq<char>>, i: int)
    requires
        0 <= i <= pieces.len(),
        forall|j: int| 0 <= j < i ==> spec_trim(#[trigger] pieces[j]).len() == 0,
    ensures
        first_nonblank(pieces, 0) == first_nonblank(pieces, i),
    decreases i,
{
    if i > 0 {
        lemma_first_nonblank_skip(pieces, i - 1);
        assert(first_nonblank(pieces, i - 1) == first_nonblank(pieces, i));
    }
}

/// The first nonblank piece never lies before the scan's start.
proof fn lemma_first_nonblank_lb(pieces: Seq<Seq<char>>, i: int)
    requires
        0 <= i <= pieces.len(),
    ensures
        i <= first_nonblank(pieces, i) <= pieces.len(),
    decreases pieces.len() - i,
{
    if i < pieces.len() && spec_trim(pieces[i]).len() == 0 {
        lemma_first_nonblank_lb(pieces, i + 1);
    }
}

/// Runs a legacy `" && "`-joined command string: the pieces run in order
/// with hard-stop-on-failure semantics, whitespace-only pieces are passed
/// over without reaching the runner, and only the final piece receives the
/// caller's extra arguments.  A command whose pieces are all blank
/// completes without running anything; when the first nonblank piece
/// cannot even be prepared, the chain stops exactly there.
pub fn execute_legacy_command_chain<R: CommandRunner>(
    full_command: &str,
    additional_args: &Vec<String>,
    runner: &mut R,
) -> (r: LegacyOutcome)
    ensures
        r matches LegacyOutcome::Stopped(k) ==> 1 <= k <= spec_split_chain(full_command@).len()
            && spec_trim(spec_split_chain(full_command@)[k - 1]).len() > 0,
        r matches LegacyOutcome::Terminated(c) ==> c != 0,
        (forall|i: int|
            0 <= i < spec_split_chain(full_command@).len() ==> spec_trim(
                #[trigger] spec_split_chain(full_command@)[i],
            ).len() == 0) ==> r is Completed,
        ({
            let pieces = spec_split_chain(full_command@);
            let f = first_nonblank(pieces, 0);
            (f < pieces.len() && spec_prepare(
                spec_trim(pieces[f]),
                spec_legacy_args(seq_views(additional_args@), f, pieces.len() as int),
            ) is None) ==> (r matches LegacyOutcome::Stopped(k) && k == f + 1)
        }),
{
    let pieces = split_chain_pieces(full_command);
    let n = pieces.len();
    let ghost piecesv = spec_split_chain(full_command@);
    let ghost fnb = first_nonblank(piecesv, 0);
    let ghost argsv = seq_views(additional_args@);
    proof {
        lemma_first_nonblank_lb(piecesv, 0);
    }
    let mut index: usize = 0;
    while index < n
        invariant
            index <= n,
            n == pieces@.len(),
            seq_views(pieces@) == piecesv,
            piecesv == spec_split_chain(full_command@),
            argsv == seq_views(additional_args@),
            fnb == first_nonblank(piecesv, 0),
            0 <= fnb <= n,
            fnb < index ==> spec_prepare(
                spec_trim(piecesv[fnb]),
                spec_legacy_args(argsv, fnb, n as int),
            ) is Some,
            index <= fnb ==> (forall|j: int|
                0 <= j < index ==> spec_trim(#[trigger] piecesv[j]).len() == 0),
        decreases n - index,
    {
        let trimmed = trim_str(pieces[index].as_str());
        if trimmed.unicode_len() > 0 {
            proof {
                assert(spec_trim(spec_split_chain(full_command@)[index as int]).len() > 0);
                if index <= fnb {
                    lemma_first_nonblank_skip(piecesv, index as int);
                    assert(first_nonblank(piecesv, index as int) == index);
                    assert(fnb == index);
                }
            }
            let args_to_use = legacy_piece_args(additional_args, index, n);
            let res = execute_single_command_with_exit_code(trimmed.as_str(), &args_to_use, runner);
            let ghost res_is_err = res is Err;
            proof {
                if fnb == index && !res_is_err {
                    assert(spec_prepare(
                        spec_trim(piecesv[fnb]),
                        spec_legacy_args(argsv, fnb, n as int),
                    ) is Some);
                }
            }
            match legacy_step_decision(res, index + 1) {
                LegacyStepDecision::Continue => {},
                LegacyStepDecision::Terminated(code) => {
                    return LegacyOutcome::Terminated(code);
                },
                LegacyStepDecision::Stopped(step) => {
                    return LegacyOutcome::Stopped(step);
                },
            }
        } else {
            proof {
                if index <= fnb {
                    lemma_first_nonblank_skip(piecesv, index as int);
                    assert(first_nonblank(piecesv, index as int) == first_nonblank(
                        piecesv,
                        index + 1,
                    ));
                    lemma_first_nonblank_lb(piecesv, index + 1);
                    assert(fnb >= index + 1);
                }
            }
        }
        index = index + 1;
    }
    LegacyOutcome::Completed
}

/// How one alias invocation ended for the calling program: everything
/// succeeded; the program must terminate with the given non-zero exit code
/// (exit-code passthrough); or an error to report, after which the program
/// exits with code 1.
#[derive(Clone, Debug, PartialEq, Eq)]
pub enum ExecOutcome {
    Completed,
    Terminated(i32),
    Failed(String),
}

/// Maps a runner result to the caller-facing outcome: exit code 0 is
/// completion; a non-zero exit code asks the caller to terminate the whole
/// program with that code (exit-code passthrough); a launch failure is
/// reported as is.
pub fn outcome_of(res: Result<i32, String>) -> (o: ExecOutcome)
    ensures
        res matches Ok(code) ==> (if code == 0 {
            o == ExecOutcome::Completed
        } else {
            o == ExecOutcome::Terminated(code)
        }),
        res matches Err(m) ==> o == ExecOutcome::Failed(m),
{
    match res {
        Result::Ok(code) => {
            if code != 0 {
                ExecOutcome::Terminated(code)
            } else {
                ExecOutcome::Completed
            }
        },
        Result::Err(m) => ExecOutcome::Failed(m),
    }
}

/// Runs one bare command: the prepared invocation goes to the runner and
/// the runner's result is mapped by [`outcome_of`]; a preparation failure
/// is reported with its exact message.
pub fn execute_single_command<R: CommandRunner>(
    command_str: &str,
    args: &Vec<String>,
    runner: &mut R,
) -> (r: ExecOutcome)
    ensures
        spec_prepare(command_str@, seq_views(args@)) is None ==> r is Failed,
        ({
            let resolved = spec_resolved_command(command_str@, seq_views(args@));
            shell_split(resolved) is None ==> (r matches ExecOutcome::Failed(m) && m@ == (
            "Failed to parse command '"@ + resolved) + "': missing closing quote"@)
        }),
        ({
            let resolved = spec_resolved_command(command_str@, seq_views(args@));
            shell_split(resolved) matches Some(toks) ==> (toks.len() == 0 ==> (r matches
            ExecOutcome::Failed(m) && m@ == "Empty command in alias"@))
        }),
        r matches ExecOutcome::Terminated(c) ==> c != 0,
{
    match prepare_command_invocation(command_str, args) {
        Result::Err(m) => ExecOutcome::Failed(m),
        Result::Ok((program, command_args)) => outcome_of(
            runner.run(program.as_str(), &command_args),
        ),
    }
}

/// Looks an alias up and runs it under its mode's rules: a simple command
/// holding the legacy `" && "` separator runs as a hard-stop legacy chain,
/// any other simple command as one invocation with exit-code passthrough, a
/// parallel chain with failure counting, and a sequential structured chain
/// to completion, never hard-failing.
pub fn execute_alias<R: CommandRunner>(
    config: &Config,
    name: &str,
    args: &Vec<String>,
    runner: &mut R,
) -> (r: ExecOutcome)
    ensures
        spec_lookup(config.aliases@, name@) is None ==> (r matches ExecOutcome::Failed(m) && m@
            == (("Alias '"@ + name@) + "' not found"@)),
        (spec_lookup(config.aliases@, name@) matches Some(e)
            && e.command_type matches CommandType::Chain(ch) && !ch.parallel) ==> r is Completed,
        spec_lookup(config.aliases@, name@) matches Some(e) ==> (e.command_type matches
            CommandType::Chain(ch) ==> (ch.parallel ==> (r is Completed || (r matches
        ExecOutcome::Failed(m) && exists|c: int|
            #![trigger dec_digits(c as nat)]
            1 <= c <= ch.commands@.len() && m@ == dec_digits(c as nat)
                + " parallel commands failed"@)))),
        spec_lookup(config.aliases@, name@) matches Some(e) ==> (e.command_type matches
            CommandType::Simple(cmd) ==> (contains_seq(cmd@, " && "@) ==> (r is Completed
            || r is Terminated || (r matches ExecOutcome::Failed(m) && exists|k: int|
            #![trigger dec_digits(k as nat)]
            1 <= k <= spec_split_chain(cmd@).len() && m@ == "Command chain stopped at step "@
                + dec_digits(k as nat))))),
        spec_lookup(config.aliases@, name@) matches Some(e) ==> (e.command_type matches
            CommandType::Simple(cmd) ==> (contains_seq(cmd@, " && "@) ==> ((forall|i: int|
            0 <= i < spec_split_chain(cmd@).len() ==> spec_trim(
                #[trigger] spec_split_chain(cmd@)[i],
            ).len() == 0) ==> r is Completed))),
        spec_lookup(config.aliases@, name@) matches Some(e) ==> (e.command_type matches
            CommandType::Simple(cmd) ==> (contains_seq(cmd@, " && "@) ==> ({
                let pieces = spec_split_chain(cmd@);
                let f = first_nonblank(pieces, 0);
                (f < pieces.len() && spec_prepare(
                    spec_trim(pieces[f]),
                    spec_legacy_args(seq_views(args@), f, pieces.len() as int),
                ) is None) ==> (r matches ExecOutcome::Failed(m) && m@
                    == "Command chain stopped at step "@ + dec_digits((f + 1) as nat))
            }))),
        spec_lookup(config.aliases@, name@) matches Some(e) ==> (e.command_type matches
            CommandType::Simple(cmd) ==> (!contains_seq(cmd@, " && "@) ==> (spec_prepare(
                cmd@,
                seq_views(args@),
            ) is None ==> r is Failed))),
        r matches ExecOutcome::Terminated(c) ==> c != 0,
{
    let entry_opt = config.get_alias(name);
    match entry_opt {
        Option::None => {
            let mut m = String::from_str("Alias '");
            m.append(name);
            m.append("' not found");
            ExecOutcome::Failed(m)
        },
        Option::Some(entry) => {
            match &entry.command_type {
                CommandType::Simple(command) => {
                    if str_contains_str(command.as_str(), " && ") {
                        match execute_legacy_command_chain(command.as_str(), args, runner) {
                            LegacyOutcome::Completed => ExecOutcome::Completed,
                            LegacyOutcome::Terminated(code) => ExecOutcome::Terminated(code),
                            LegacyOutcome::Stopped(step) => {
                                let mut m = String::from_str("Command chain stopped at step ");
                                m.append(format_usize(step).as_str());
                                proof {
                                    let k: int = step as int;
                                    assert(1 <= k <= spec_split_chain(command@).len() && m@
                                        == "Command chain stopped at step "@ + dec_digits(
                                        k as nat,
                                    ));
                                }
                                ExecOutcome::Failed(m)
                            },
                        }
                    } else {
                        execute_single_command(command.as_str(), args, runner)
                    }
                },
                CommandType::Chain(chain) => {
                    if chain.parallel {
                        let outcome_results = execute_parallel_chain(chain, args, runner);
                        let results = outcome_results.1;
                        match outcome_results.0 {
                            Result::Ok(()) => ExecOutcome::Completed,
                            Result::Err(m) => {
                                proof {
                                    lemma_failed_count_bounds(results@, results@.len() as int);
                                    let c = spec_failed_count(results@, results@.len() as int);
                                    assert(1 <= c <= chain.commands@.len() && m@ == dec_digits(
                                        c as nat,
                                    ) + " parallel commands failed"@);
                                }
                                ExecOutcome::Failed(m)
                            },
                        }
                    } else {
                        let _report = execute_sequential_chain(chain, args, runner);
                        ExecOutcome::Completed
                    }
                },
            }
        },
    }
}

} // verus!
