//! The chain data model: a stored alias is either a simple command template
//! or an ordered sequence of steps, each step after the first gated by an
//! operator that reads the previous step's exit code.

use vstd::prelude::*;
use vstd::string::StringExecFns;

use crate::resolver::spec_has_placeholders;
use crate::resolver::has_parameter_variables;
use crate::text::dec_int;
use crate::text::format_i32;
use crate::text::seq_views;

verus! {

/// The conditional gate on a chain step: run on success, on failure,
/// always, or on one specific exit code.
#[derive(Clone, Copy, Debug, PartialEq, Eq, Structural)]
pub enum ChainOperator {
    And,
    Or,
    Always,
    IfCode(i32),
}

/// One step of a chain: a command template and the operator gating it.
/// The first step of a chain carries no operator.
#[derive(Clone, Debug)]
pub struct ChainCommand {
    pub command: String,
    pub operator: Option<ChainOperator>,
}

/// An ordered sequence of chain steps, run sequentially (operators honored)
/// or in parallel (operators ignored).
#[derive(Clone, Debug)]
pub struct CommandChain {
    pub commands: Vec<ChainCommand>,
    pub parallel: bool,
}

/// A stored alias body: a bare command template, or a structured chain.
#[derive(Clone, Debug)]
pub enum CommandType {
    Simple(String),
    Chain(CommandChain),
}

/// A registered alias: its body, an optional description, and the date it
/// was created.
#[derive(Clone, Debug)]
pub struct AliasEntry {
    pub command_type: CommandType,
    pub description: Option<String>,
    pub created: String,
}

/// Whether a step gated by `op` runs when the previous step left exit code
/// `last`: no operator or `Always` always runs, `And` runs on 0, `Or` runs
/// on non-zero, and `IfCode(n)` runs exactly when `last == n`.
pub open spec fn spec_should_run(op: Option<ChainOperator>, last: i32) -> bool {
    match op {
        Option::None => true,
        Option::Some(ChainOperator::And) => last == 0,
        Option::Some(ChainOperator::Or) => last != 0,
        Option::Some(ChainOperator::Always) => true,
        Option::Some(ChainOperator::IfCode(code)) => last == code,
    }
}

/// Decides whether a step runs, from its operator and the previous exit
/// code.
pub fn should_run(op: &Option<ChainOperator>, last: i32) -> (r: bool)
    ensures
        r == spec_should_run(*op, last),
{
    match op {
        Option::None => true,
        Option::Some(ChainOperator::And) => last == 0,
        Option::Some(ChainOperator::Or) => last != 0,
        Option::Some(ChainOperator::Always) => true,
        Option::Some(ChainOperator::IfCode(code)) => last == *code,
    }
}

/// An `IfCode(n)` gate passes exactly when the previous exit code equals
/// `n`: not merely when it is non-zero, nor when it is at most `n`.
pub proof fn lemma_if_code_is_exact(n: i32, last: i32)
    ensures
        spec_should_run(Some(ChainOperator::IfCode(n)), last) <==> last == n,
{
}

/// Whether any step of the chain contains a placeholder.
pub open spec fn spec_chain_has_placeholders(cmds: Seq<ChainCommand>) -> bool {
    exists|i: int| 0 <= i < cmds.len() && spec_has_placeholders(cmds[i].command@)
}

/// Whether any step of the chain contains a placeholder.
pub fn chain_has_placeholders(cmds: &Vec<ChainCommand>) -> (r: bool)
    ensures
        r == spec_chain_has_placeholders(cmds@),
{
    let n = cmds.len();
    let mut i: usize = 0;
    while i < n
        invariant
            i <= n,
            n == cmds@.len(),
            forall|j: int| 0 <= j < i ==> !spec_has_placeholders(cmds@[j].command@),
        decreases n - i,
    {
        if has_parameter_variables(cmds[i].command.as_str()) {
            return true;
        }
        i = i + 1;
    }
    false
}

/// The runtime arguments handed to step `index`: when any step of the chain
/// holds a placeholder every step receives the arguments; otherwise only
/// the last step does.
pub open spec fn spec_step_args(
    cmds: Seq<ChainCommand>,
    args: Seq<Seq<char>>,
    index: int,
) -> Seq<Seq<char>> {
    if spec_chain_has_placeholders(cmds) || index == cmds.len() - 1 {
        args
    } else {
        Seq::empty()
    }
}

/// Computes the runtime arguments that step `index` receives, by the
/// distribution rule above.
pub fn step_args(cmds: &Vec<ChainCommand>, args: &Vec<String>, index: usize) -> (r: Vec<String>)
    ensures
        seq_views(r@) == spec_step_args(cmds@, seq_views(args@), index as int),
{
    let m = cmds.len();
    if chain_has_placeholders(cmds) || (m > 0 && index == m - 1) {
        crate::text::clone_string_vec(args)
    } else {
        let out: Vec<String> = Vec::new();
        proof {
            assert(seq_views(out@) =~= Seq::<Seq<char>>::empty());
        }
        out
    }
}

/// The separator shown before a chain step in the compact display form.
pub open spec fn op_sep(op: Option<ChainOperator>) -> Seq<char> {
    match op {
        Option::Some(ChainOperator::And) => " && "@,
        Option::Some(ChainOperator::Or) => " || "@,
        Option::Some(ChainOperator::Always) => " ; "@,
        Option::Some(ChainOperator::IfCode(code)) => (" ?["@ + dec_int(code as int)) + "] "@,
        Option::None => " "@,
    }
}

/// The compact display of the first `k` steps of a chain: the commands in
/// order, separated by each step's operator.
pub open spec fn spec_chain_display(cmds: Seq<ChainCommand>, k: int) -> Seq<char>
    decreases k,
{
    if k <= 0 {
        Seq::empty()
    } else if k == 1 {
        cmds[0].command@
    } else {
        (spec_chain_display(cmds, k - 1) + op_sep(cmds[k - 1].operator)) + cmds[k - 1].command@
    }
}

/// The compact display of an alias body: a simple command verbatim; a chain
/// as its steps joined by operator separators, prefixed by `PARALLEL: `
/// when the chain runs in parallel.
pub open spec fn spec_display(ct: CommandType) -> Seq<char> {
    match ct {
        CommandType::Simple(cmd) => cmd@,
        CommandType::Chain(chain) => {
            let body = spec_chain_display(chain.commands@, chain.commands@.len() as int);
            if chain.parallel {
                "PARALLEL: "@ + body
            } else {
                body
            }
        },
    }
}

impl AliasEntry {
    /// The compact one-line display of this alias's body.
    pub fn command_display(&self) -> (r: String)
        ensures
            r@ == spec_display(self.command_type),
    {
        match &self.command_type {
            CommandType::Simple(cmd) => cmd.clone(),
            CommandType::Chain(chain) => {
                let n = chain.commands.len();
                let mut body = String::new();
                let mut i: usize = 0;
                while i < n
                    invariant
                        i <= n,
                        n == chain.commands@.len(),
                        body@ == spec_chain_display(chain.commands@, i as int),
                    decreases n - i,
                {
                    let ghost b0 = body@;
                    if i > 0 {
                        match &chain.commands[i].operator {
                            Option::Some(ChainOperator::And) => body.append(" && "),
                            Option::Some(ChainOperator::Or) => body.append(" || "),
                            Option::Some(ChainOperator::Always) => body.append(" ; "),
                            Option::Some(ChainOperator::IfCode(code)) => {
                                body.append(" ?[");
                                body.append(format_i32(*code).as_str());
                                body.append("] ");
                            },
                            Option::None => body.append(" "),
                        }
                        proof {
                            assert(body@ =~= b0 + op_sep(chain.commands@[i as int].operator));
                        }
                    }
                    let ghost b1 = body@;
                    body.append(chain.commands[i].command.as_str());
                    proof {
                        if i == 0 {
                            assert(body@ =~= chain.commands@[0].command@);
                        }
                        assert(spec_chain_display(chain.commands@, i + 1) == if i == 0 {
                            chain.commands@[0].command@
                        } else {
                            (spec_chain_display(chain.commands@, i as int) + op_sep(
                                chain.commands@[i as int].operator,
                            )) + chain.commands@[i as int].command@
                        });
                    }
                    i = i + 1;
                }
                if chain.parallel {
                    let mut out = String::from_str("PARALLEL: ");
                    out.append(body.as_str());
                    out
                } else {
                    body
                }
            },
        }
    }
}

} // verus!
