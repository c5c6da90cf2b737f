//! The parameter-substitution micro-language.
//!
//! A command template is scanned left to right.  `$$` emits a literal `$`,
//! `$@` and `$*` emit the space-joined runtime arguments, `$` followed by a
//! greedily-read run of decimal digits emits the 1-indexed argument that the
//! run names (or nothing when the index is 0 or out of range), and any other
//! `$` is kept as a literal character.

use vstd::prelude::*;
use vstd::string::StrSliceExecFns;
use vstd::string::StringExecFns;

use crate::text::push_char;
use crate::text::seq_views;

verus! {

/// A decimal digit, `'0'` through `'9'`.
pub open spec fn is_digit_char(c: char) -> bool {
    48 <= c as u32 <= 57
}

/// The numeric value of a decimal digit character.
pub open spec fn digit_of(c: char) -> nat {
    (c as u32 - 48) as nat
}

/// The arguments joined by single spaces, with no trailing separator.
pub open spec fn join_args(args: Seq<Seq<char>>) -> Seq<char>
    decreases args.len(),
{
    if args.len() == 0 {
        Seq::empty()
    } else if args.len() == 1 {
        args[0]
    } else {
        args[0] + seq![' '] + join_args(args.drop_first())
    }
}

/// The `n`th argument, 1-indexed; the empty string when `n` is 0 or exceeds
/// the number of arguments.
pub open spec fn nth_arg(args: Seq<Seq<char>>, n: nat) -> Seq<char> {
    if 1 <= n && n <= args.len() {
        args[n as int - 1]
    } else {
        Seq::empty()
    }
}

/// What the resolver emits for the template suffix starting at `i`.
pub open spec fn resolve_from(t: Seq<char>, args: Seq<Seq<char>>, i: int) -> Seq<char>
    decreases t.len() - i, 0int,
{
    if i < 0 || i >= t.len() {
        Seq::empty()
    } else if t[i] != '$' {
        seq![t[i]] + resolve_from(t, args, i + 1)
    } else if i + 1 >= t.len() {
        seq!['$']
    } else if t[i + 1] == '$' {
        seq!['$'] + resolve_from(t, args, i + 2)
    } else if t[i + 1] == '@' || t[i + 1] == '*' {
        join_args(args) + resolve_from(t, args, i + 2)
    } else if is_digit_char(t[i + 1]) {
        resolve_digits(t, args, i + 2, digit_of(t[i + 1]))
    } else {
        seq!['$'] + resolve_from(t, args, i + 1)
    }
}

/// Continues a greedy digit run whose digits so far have value `acc`; once
/// the run ends, emits the selected argument and resumes the ordinary scan.
pub open spec fn resolve_digits(t: Seq<char>, args: Seq<Seq<char>>, i: int, acc: nat) -> Seq<char>
    decreases t.len() - i, 1int,
{
    if 0 <= i && i < t.len() && is_digit_char(t[i]) {
        resolve_digits(t, args, i + 1, acc * 10 + digit_of(t[i]))
    } else {
        nth_arg(args, acc) + resolve_from(t, args, i)
    }
}

/// The fully resolved template.
pub open spec fn spec_resolve(t: Seq<char>, args: Seq<Seq<char>>) -> Seq<char> {
    resolve_from(t, args, 0)
}

/// Whether the scan starting at `i` recognizes a placeholder (`$@`, `$*`,
/// or `$` followed by a digit); `$$` is consumed without setting the flag.
pub open spec fn has_placeholders_from(t: Seq<char>, i: int) -> bool
    decreases t.len() - i,
{
    if i < 0 || i >= t.len() {
        false
    } else if t[i] == '$' && i + 1 < t.len() {
        if t[i + 1] == '$' {
            has_placeholders_from(t, i + 2)
        } else if t[i + 1] == '@' || t[i + 1] == '*' || is_digit_char(t[i + 1]) {
            true
        } else {
            has_placeholders_from(t, i + 1)
        }
    } else {
        has_placeholders_from(t, i + 1)
    }
}

/// Whether the template contains any placeholder.
pub open spec fn spec_has_placeholders(t: Seq<char>) -> bool {
    has_placeholders_from(t, 0)
}

/// Joins the arguments with single spaces, with no trailing separator.
pub fn join_strings(args: &Vec<String>) -> (r: String)
    ensures
        r@ == join_args(seq_views(args@)),
{
    let ghost argsv = seq_views(args@);
    let mut r = String::new();
    let n = args.len();
    let mut i: usize = 0;
    while i < n
        invariant
            i <= n,
            n == args@.len(),
            argsv == seq_views(args@),
            r@ == join_args(argsv.take(i as int)),
        decreases n - i,
    {
        if i > 0 {
            push_char(&mut r, ' ');
        }
        r.append(args[i].as_str());
        proof {
            assert(argsv.take(i + 1).drop_last() =~= argsv.take(i as int));
            lemma_join_push(argsv.take(i + 1));
        }
        i = i + 1;
    }
    proof {
        assert(argsv.take(n as int) =~= argsv);
    }
    r
}

/// Appending one more argument to a join appends a space (when the join was
/// nonempty) and then that argument.
proof fn lemma_join_push(s: Seq<Seq<char>>)
    requires
        s.len() >= 1,
    ensures
        join_args(s) == if s.len() == 1 {
            s.last()
        } else {
            (join_args(s.drop_last()) + seq![' ']) + s.last()
        },
    decreases s.len(),
{
    if s.len() > 1 {
        lemma_join_push(s.drop_first());
        assert(s.drop_first().drop_last() =~= s.drop_last().drop_first());
        assert(s.drop_last()[0] == s[0]);
        if s.len() == 2 {
            assert(join_args(s.drop_last()) == s[0]);
            assert(join_args(s.drop_first()) == s.last());
            assert(join_args(s) == s[0] + seq![' '] + join_args(s.drop_first()));
        } else {
            assert(join_args(s) == s[0] + seq![' '] + join_args(s.drop_first()));
            assert(join_args(s.drop_last()) == s.drop_last()[0] + seq![' ']
                + join_args(s.drop_last().drop_first()));
            assert((s[0] + seq![' ']) + ((join_args(s.drop_first().drop_last()) + seq![' '])
                + s.drop_first().last()) =~= ((s[0] + seq![' ']
                + join_args(s.drop_first().drop_last())) + seq![' ']) + s.drop_first().last());
        }
    }
}

/// Whether position `j` holds a decimal digit; callers pass the template's
/// character count in `n`.
fn digit_at(s: &str, j: usize, n: usize) -> (r: bool)
    requires
        n == s@.len(),
    ensures
        r == (j < n && is_digit_char(s@[j as int])),
{
    if j < n {
        let c = s.get_char(j);
        48 <= c as u32 && c as u32 <= 57
    } else {
        false
    }
}

/// Rewrites the command template, replacing each placeholder with the
/// caller-supplied arguments it names.
pub fn substitute_parameters(command: &str, args: &Vec<String>) -> (r: String)
    ensures
        r@ == spec_resolve(command@, seq_views(args@)),
{
    let ghost t = command@;
    let ghost argsv = seq_views(args@);
    let n = command.unicode_len();
    let alen = args.len();
    let joined = join_strings(args);
    let mut res = String::new();
    let mut i: usize = 0;
    while i < n
        invariant
            i <= n,
            n == t.len(),
            t == command@,
            alen == args@.len(),
            argsv == seq_views(args@),
            argsv.len() == alen,
            joined@ == join_args(argsv),
            res@ + resolve_from(t, argsv, i as int) == resolve_from(t, argsv, 0),
        decreases n - i,
    {
        let c = command.get_char(i);
        if c != '$' {
            push_char(&mut res, c);
            proof {
                assert(seq![t[i as int]] + resolve_from(t, argsv, i + 1) == resolve_from(
                    t,
                    argsv,
                    i as int,
                ));
                assert(res@ + resolve_from(t, argsv, i + 1) =~= (res@.drop_last() + (seq![
                    t[i as int],
                ] + resolve_from(t, argsv, i + 1))));
            }
            i = i + 1;
        } else if i + 1 == n {
            push_char(&mut res, '$');
            proof {
                assert(resolve_from(t, argsv, i as int) == seq!['$']);
                assert(res@ + resolve_from(t, argsv, i + 1) =~= (res@.drop_last() + (seq!['$']
                    + resolve_from(t, argsv, i + 1))));
            }
            i = i + 1;
        } else {
            let c2 = command.get_char(i + 1);
            if c2 == '$' {
                push_char(&mut res, '$');
                proof {
                    assert(resolve_from(t, argsv, i as int) == seq!['$'] + resolve_from(
                        t,
                        argsv,
                        i + 2,
                    ));
                    assert(res@ + resolve_from(t, argsv, i + 2) =~= (res@.drop_last() + (seq!['$']
                        + resolve_from(t, argsv, i + 2))));
                }
                i = i + 2;
            } else if c2 == '@' || c2 == '*' {
                let ghost res0 = res@;
                res.append(joined.as_str());
                proof {
                    assert(resolve_from(t, argsv, i as int) == join_args(argsv) + resolve_from(
                        t,
                        argsv,
                        i + 2,
                    ));
                    assert(res@ + resolve_from(t, argsv, i + 2) =~= res0 + (join_args(argsv)
                        + resolve_from(t, argsv, i + 2)));
                }
                i = i + 2;
            } else if 48 <= c2 as u32 && c2 as u32 <= 57 {
                let ghost i0 = i as int;
                let mut j = i + 2;
                let mut acc: usize = (c2 as u32 - 48) as usize;
                let mut overflowed = false;
                let ghost mut acc_n: nat = digit_of(c2);
                proof {
                    assert(resolve_from(t, argsv, i0) == resolve_digits(
                        t,
                        argsv,
                        i0 + 2,
                        digit_of(c2),
                    ));
                }
                while digit_at(command, j, n)
                    invariant
                        i + 2 <= j <= n,
                        n == t.len(),
                        t == command@,
                        resolve_digits(t, argsv, j as int, acc_n) == resolve_from(t, argsv, i0),
                        if overflowed {
                            acc_n > usize::MAX
                        } else {
                            acc == acc_n
                        },
                    decreases n - j,
                {
                    let cj = command.get_char(j);
                    let d = (cj as u32 - 48) as usize;
                    proof {
                        assert(resolve_digits(t, argsv, j as int, acc_n) == resolve_digits(
                            t,
                            argsv,
                            j + 1,
                            acc_n * 10 + digit_of(cj),
                        ));
                    }
                    if !overflowed && acc <= (usize::MAX - d) / 10 {
                        proof {
                            vstd::arithmetic::div_mod::lemma_fundamental_div_mod(
                                (usize::MAX - d) as int,
                                10,
                            );
                        }
                        acc = acc * 10 + d;
                    } else {
                        proof {
                            if !overflowed {
                                vstd::arithmetic::div_mod::lemma_fundamental_div_mod(
                                    (usize::MAX - d) as int,
                                    10,
                                );
                                assert(acc * 10 + d > usize::MAX);
                            } else {
                                assert(acc_n * 10 + digit_of(cj) >= acc_n) by (nonlinear_arith);
                            }
                        }
                        overflowed = true;
                    }
                    proof {
                        acc_n = acc_n * 10 + digit_of(cj);
                    }
                    j = j + 1;
                }
                proof {
                    assert(resolve_digits(t, argsv, j as int, acc_n) == nth_arg(argsv, acc_n)
                        + resolve_from(t, argsv, j as int));
                }
                if !overflowed && 1 <= acc && acc <= alen {
                    let ghost res0 = res@;
                    res.append(args[acc - 1].as_str());
                    proof {
                        assert(nth_arg(argsv, acc_n) == argsv[acc as int - 1]);
                        assert(res@ + resolve_from(t, argsv, j as int) =~= res0 + (nth_arg(
                            argsv,
                            acc_n,
                        ) + resolve_from(t, argsv, j as int)));
                    }
                } else {
                    proof {
                        assert(nth_arg(argsv, acc_n) =~= Seq::<char>::empty());
                        assert(res@ + resolve_from(t, argsv, j as int) =~= res@ + (nth_arg(
                            argsv,
                            acc_n,
                        ) + resolve_from(t, argsv, j as int)));
                    }
                }
                i = j;
            } else {
                push_char(&mut res, '$');
                proof {
                    assert(resolve_from(t, argsv, i as int) == seq!['$'] + resolve_from(
                        t,
                        argsv,
                        i + 1,
                    ));
                    assert(res@ + resolve_from(t, argsv, i + 1) =~= (res@.drop_last() + (seq!['$']
                        + resolve_from(t, argsv, i + 1))));
                }
                i = i + 1;
            }
        }
    }
    proof {
        assert(res@ + resolve_from(t, argsv, n as int) =~= res@);
    }
    res
}

/// The number named by the greedy digit run starting at `i`, appended to an
/// accumulator holding the digits already read.
pub open spec fn digits_value_from(t: Seq<char>, i: int, acc: nat) -> nat
    decreases t.len() - i,
{
    if 0 <= i && i < t.len() && is_digit_char(t[i]) {
        digits_value_from(t, i + 1, acc * 10 + digit_of(t[i]))
    } else {
        acc
    }
}

/// A digit run that reaches the end of the template resolves to the argument
/// named by the digits' value.
proof fn lemma_resolve_digits_all(t: Seq<char>, args: Seq<Seq<char>>, i: int, acc: nat)
    requires
        0 <= i <= t.len(),
        forall|j: int| i <= j < t.len() ==> is_digit_char(t[j]),
    ensures
        resolve_digits(t, args, i, acc) == nth_arg(args, digits_value_from(t, i, acc)),
    decreases t.len() - i,
{
    if i < t.len() {
        lemma_resolve_digits_all(t, args, i + 1, acc * 10 + digit_of(t[i]));
    } else {
        assert(nth_arg(args, acc) + resolve_from(t, args, i) =~= nth_arg(args, acc));
    }
}

/// For every argument list, a template `$$` resolves to a single literal
/// dollar sign, and it is not counted as a placeholder.
pub proof fn lemma_double_dollar(args: Seq<Seq<char>>)
    ensures
        spec_resolve("$$"@, args) == "$"@,
        !spec_has_placeholders("$$"@),
{
    reveal_strlit("$$");
    reveal_strlit("$");
    let t = "$$"@;
    assert(t =~= seq!['$', '$']);
    assert(resolve_from(t, args, 2) == Seq::<char>::empty());
    assert(resolve_from(t, args, 0) == seq!['$'] + resolve_from(t, args, 2));
    assert(spec_resolve(t, args) =~= "$"@);
    assert(!has_placeholders_from(t, 2));
    assert(!has_placeholders_from(t, 0));
}

/// For every argument list, the templates `$@` and `$*` resolve to the
/// arguments joined by single spaces.
pub proof fn lemma_all_args_join(args: Seq<Seq<char>>)
    ensures
        spec_resolve("$@"@, args) == join_args(args),
        spec_resolve("$*"@, args) == join_args(args),
{
    reveal_strlit("$@");
    reveal_strlit("$*");
    let t1 = "$@"@;
    let t2 = "$*"@;
    assert(t1 =~= seq!['$', '@']);
    assert(t2 =~= seq!['$', '*']);
    assert(resolve_from(t1, args, 2) == Seq::<char>::empty());
    assert(resolve_from(t1, args, 0) == join_args(args) + resolve_from(t1, args, 2));
    assert(spec_resolve(t1, args) =~= join_args(args));
    assert(resolve_from(t2, args, 2) == Seq::<char>::empty());
    assert(resolve_from(t2, args, 0) == join_args(args) + resolve_from(t2, args, 2));
    assert(spec_resolve(t2, args) =~= join_args(args));
}

/// A template consisting of `$` followed only by decimal digits, read
/// greedily as one multi-digit number `N`, resolves to the `N`th argument
/// (1-indexed) when `1 <= N <= args.len()`, and to the empty string when `N`
/// is 0 or exceeds the argument count.
pub proof fn lemma_positional_placeholder(t: Seq<char>, args: Seq<Seq<char>>)
    requires
        t.len() >= 2,
        t[0] == '$',
        forall|j: int| 1 <= j < t.len() ==> is_digit_char(t[j]),
    ensures
        spec_resolve(t, args) == nth_arg(args, digits_value_from(t, 1, 0)),
{
    assert(resolve_from(t, args, 0) == resolve_digits(t, args, 2, digit_of(t[1])));
    lemma_resolve_digits_all(t, args, 2, digit_of(t[1]));
    assert(digits_value_from(t, 1, 0) == digits_value_from(t, 2, 0 * 10 + digit_of(t[1])));
}

/// A multi-digit placeholder is read as one number: `$12` selects the 12th
/// argument, not the 1st followed by a literal `2`.
pub proof fn lemma_multi_digit_selects_twelfth(args: Seq<Seq<char>>)
    requires
        args.len() >= 12,
    ensures
        spec_resolve("$12"@, args) == args[11],
{
    reveal_strlit("$12");
    let t = "$12"@;
    assert(t =~= seq!['$', '1', '2']);
    lemma_positional_placeholder(t, args);
    assert(digit_of('1') == 1);
    assert(digit_of('2') == 2);
    assert(digits_value_from(t, 3, 12) == 12);
    assert(digits_value_from(t, 2, 1) == 12);
    assert(digits_value_from(t, 1, 0) == 12);
}

/// Whether the command template contains any placeholder, recognized by the
/// same scan the resolver performs.
pub fn has_parameter_variables(command: &str) -> (r: bool)
    ensures
        r == spec_has_placeholders(command@),
{
    let ghost t = command@;
    let n = command.unicode_len();
    let mut i: usize = 0;
    while i < n
        invariant
            i <= n,
            n == t.len(),
            t == command@,
            spec_has_placeholders(t) == has_placeholders_from(t, i as int),
        decreases n - i,
    {
        let c = command.get_char(i);
        if c == '$' && i + 1 < n {
            let c2 = command.get_char(i + 1);
            if c2 == '$' {
                i = i + 2;
            } else if c2 == '@' || c2 == '*' || (48 <= c2 as u32 && c2 as u32 <= 57) {
                return true;
            } else {
                i = i + 1;
            }
        } else {
            i = i + 1;
        }
    }
    false
}

} // verus!
