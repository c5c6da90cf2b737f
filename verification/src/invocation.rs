//! Preparing a single invocation: resolve the template, tokenize it with
//! shell-style word splitting, and merge the caller's runtime arguments.
//!
//! The merge rule: when the template held a placeholder the arguments are
//! already embedded by substitution and must not be appended again; when it
//! held none, the raw arguments are appended after the tokenized words.

use vstd::prelude::*;
use vstd::string::StringExecFns;

use crate::text::seq_views;
use crate::resolver::spec_has_placeholders;
use crate::resolver::spec_resolve;
use crate::resolver::has_parameter_variables;
use crate::resolver::substitute_parameters;

verus! {

/// What shell-style word splitting makes of a command line: its tokens, or
/// nothing when the line holds an unterminated quote.
pub uninterp spec fn shell_split(s: Seq<char>) -> Option<Seq<Seq<char>>>;

/// Relies on `shell_words::split`: tokenizes a command line by the word
/// splitting rules of a POSIX shell (quotes and escapes honored, no
/// expansions), a pure function of the line; it errors exactly when a quote
/// is left unclosed.
#[verifier::external_body]
fn split_shell_words(s: &str) -> (r: Option<Vec<String>>)
    ensures
        match r {
            Some(toks) => shell_split(s@) == Some(seq_views(toks@)),
            None => shell_split(s@) is None,
        },
{
    match shell_words::split(s) {
        Ok(toks) => Some(toks),
        Err(_) => None,
    }
}

/// The program and argument vector assembled from a token sequence:
/// the first token names the program; the rest form the argument vector,
/// with the raw runtime arguments appended when (and only when) the
/// template held no placeholder.  An empty token sequence is an error.
pub open spec fn spec_assemble(
    toks: Seq<Seq<char>>,
    has_params: bool,
    args: Seq<Seq<char>>,
) -> Option<(Seq<char>, Seq<Seq<char>>)> {
    if toks.len() == 0 {
        None
    } else if has_params {
        Some((toks[0], toks.drop_first()))
    } else {
        Some((toks[0], toks.drop_first() + args))
    }
}

/// Splits a token sequence into a program and its argument vector, appending
/// the raw runtime arguments when the template held no placeholder.
pub fn assemble_invocation(tokens: Vec<String>, has_params: bool, args: &Vec<String>) -> (r: Result<
    (String, Vec<String>),
    String,
>)
    ensures
        match spec_assemble(seq_views(tokens@), has_params, seq_views(args@)) {
            Some(pa) => r is Ok && r->Ok_0.0@ == pa.0 && seq_views(r->Ok_0.1@) == pa.1,
            None => r is Err && r->Err_0@ == "Empty command in alias"@,
        },
{
    let ghost toks0 = seq_views(tokens@);
    if tokens.len() == 0 {
        return Err(String::from_str("Empty command in alias"));
    }
    let mut rest = tokens;
    let program = rest.remove(0);
    proof {
        assert(program@ == toks0[0]);
        assert(seq_views(rest@) =~= toks0.drop_first());
    }
    if !has_params {
        let n = args.len();
        let mut i: usize = 0;
        while i < n
            invariant
                i <= n,
                n == args@.len(),
                toks0.len() >= 1,
                seq_views(rest@) =~= toks0.drop_first() + seq_views(args@).take(i as int),
            decreases n - i,
        {
            let ghost r0 = rest@;
            rest.push(args[i].clone());
            proof {
                assert(seq_views(rest@) =~= seq_views(r0).push(args@[i as int]@));
                assert(seq_views(r0).push(args@[i as int]@) =~= (toks0.drop_first() + seq_views(
                    args@,
                ).take(i as int)).push(args@[i as int]@));
                assert((toks0.drop_first() + seq_views(args@).take(i as int)).push(
                    args@[i as int]@,
                ) =~= toks0.drop_first() + seq_views(args@).take(i + 1));
            }
            i = i + 1;
        }
        proof {
            assert(seq_views(args@).take(n as int) =~= seq_views(args@));
        }
    }
    Ok((program, rest))
}

/// What preparing an invocation yields for a given template and argument
/// list: the resolved-and-tokenized program and argument vector, or nothing
/// when tokenization fails or produces no tokens.
pub open spec fn spec_prepare(t: Seq<char>, args: Seq<Seq<char>>) -> Option<
    (Seq<char>, Seq<Seq<char>>),
> {
    let has = spec_has_placeholders(t);
    let resolved = if has {
        spec_resolve(t, args)
    } else {
        t
    };
    match shell_split(resolved) {
        None => None,
        Some(toks) => spec_assemble(toks, has, args),
    }
}

/// Turns a command template plus runtime arguments into a program name and
/// an argument vector: placeholders are substituted when present, the result
/// is tokenized shell-style, and the raw arguments are appended only when
/// the template held no placeholder.
pub fn prepare_command_invocation(command_str: &str, args: &Vec<String>) -> (r: Result<
    (String, Vec<String>),
    String,
>)
    ensures
        match spec_prepare(command_str@, seq_views(args@)) {
            Some(pa) => r is Ok && r->Ok_0.0@ == pa.0 && seq_views(r->Ok_0.1@) == pa.1,
            None => r is Err,
        },
        ({
            let has = spec_has_placeholders(command_str@);
            let resolved = if has {
                spec_resolve(command_str@, seq_views(args@))
            } else {
                command_str@
            };
            shell_split(resolved) is None ==> r is Err && r->Err_0@ == (
            "Failed to parse command '"@ + resolved) + "': missing closing quote"@
        }),
        ({
            let has = spec_has_placeholders(command_str@);
            let resolved = if has {
                spec_resolve(command_str@, seq_views(args@))
            } else {
                command_str@
            };
            shell_split(resolved) matches Some(toks) ==> (toks.len() == 0 ==> r is Err
                && r->Err_0@ == "Empty command in alias"@)
        }),
{
    let has_params = has_parameter_variables(command_str);
    let resolved = if has_params {
        substitute_parameters(command_str, args)
    } else {
        String::from_str(command_str)
    };
    match split_shell_words(resolved.as_str()) {
        Some(tokens) => assemble_invocation(tokens, has_params, args),
        None => {
            let mut m = String::from_str("Failed to parse command '");
            m.append(resolved.as_str());
            m.append("': missing closing quote");
            Err(m)
        },
    }
}

} // verus!
