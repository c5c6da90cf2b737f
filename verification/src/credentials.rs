//! Parsing the textual output of credential helpers: the `Token:` line that
//! `gh auth status --show-token` prints, and the `key=value` lines that
//! `git credential fill` prints.  The processes themselves run outside the
//! library; these functions take their captured output as plain text.

use vstd::prelude::*;
use vstd::string::StrSliceExecFns;
use vstd::string::StringExecFns;

use crate::text::spec_find;
use crate::text::spec_lines;
use crate::text::spec_trim;
use crate::text::split_lines;
use crate::text::str_eq;
use crate::text::str_find;
use crate::text::trim_str;

verus! {

/// The token a line yields: the text after its first `Token:` marker,
/// trimmed, provided it is neither empty nor the `<TOKEN>` mask.
pub open spec fn token_candidate(line: Seq<char>) -> Option<Seq<char>> {
    let f = spec_find(line, "Token:"@);
    if f < 0 {
        None
    } else {
        let cand = spec_trim(line.subrange(f + "Token:"@.len(), line.len() as int));
        if cand.len() > 0 && cand != "<TOKEN>"@ {
            Some(cand)
        } else {
            None
        }
    }
}

/// The first line from `k` on that yields a token.
pub open spec fn token_from(lines: Seq<Seq<char>>, k: int) -> Option<Seq<char>>
    decreases lines.len() - k,
{
    if k < 0 || k >= lines.len() {
        None
    } else if token_candidate(lines[k]) is Some {
        token_candidate(lines[k])
    } else {
        token_from(lines, k + 1)
    }
}

/// The token that `gh auth status --show-token` output yields: from the
/// first line holding a usable `Token:` marker.
pub open spec fn spec_gh_status_token(out: Seq<char>) -> Option<Seq<char>> {
    token_from(spec_lines(out), 0)
}

/// Extracts the token from captured `gh auth status --show-token` output.
pub fn extract_gh_status_token(stdout: &str) -> (r: Option<String>)
    ensures
        match spec_gh_status_token(stdout@) {
            Some(t) => r matches Some(s) && s@ == t,
            None => r is None,
        },
{
    let ghost linesv = spec_lines(stdout@);
    let lines = split_lines(stdout);
    let m = lines.len();
    let mut k: usize = 0;
    while k < m
        invariant
            k <= m,
            m == lines@.len(),
            linesv == spec_lines(stdout@),
            linesv == crate::text::seq_views(lines@),
            token_from(linesv, 0) == token_from(linesv, k as int),
        decreases m - k,
    {
        let line = &lines[k];
        let n = line.as_str().unicode_len();
        match str_find(line.as_str(), "Token:") {
            Option::Some(f) => {
                proof {
                    reveal_strlit("Token:");
                }
                let token_part = trim_str(line.as_str().substring_char(f + 6, n));
                if token_part.as_str().unicode_len() > 0 && !str_eq(token_part.as_str(), "<TOKEN>")
                {
                    proof {
                        assert(token_candidate(linesv[k as int]) == Some(token_part@));
                        assert(token_from(linesv, k as int) == Some(token_part@));
                    }
                    return Some(token_part);
                }
                proof {
                    assert(token_candidate(linesv[k as int]) is None);
                }
            },
            Option::None => {
                proof {
                    assert(token_candidate(linesv[k as int]) is None);
                }
            },
        }
        k = k + 1;
    }
    None
}

/// The password a line yields: its `key=value` split at the first `=`,
/// provided the key is `password` and the trimmed value is nonempty.
pub open spec fn password_candidate(line: Seq<char>) -> Option<Seq<char>> {
    let f = spec_find(line, "="@);
    if f < 0 {
        None
    } else {
        let key = line.subrange(0, f);
        let value = spec_trim(line.subrange(f + 1, line.len() as int));
        if key == "password"@ && value.len() > 0 {
            Some(value)
        } else {
            None
        }
    }
}

/// The first line from `k` on that yields a password.
pub open spec fn password_from(lines: Seq<Seq<char>>, k: int) -> Option<Seq<char>>
    decreases lines.len() - k,
{
    if k < 0 || k >= lines.len() {
        None
    } else if password_candidate(lines[k]) is Some {
        password_candidate(lines[k])
    } else {
        password_from(lines, k + 1)
    }
}

/// The password that `git credential fill` output yields: the value of the
/// first usable `password=` line.
pub open spec fn spec_credential_password(out: Seq<char>) -> Option<Seq<char>> {
    password_from(spec_lines(out), 0)
}

/// Extracts the stored password from captured `git credential fill` output.
pub fn extract_credential_password(stdout: &str) -> (r: Option<String>)
    ensures
        match spec_credential_password(stdout@) {
            Some(p) => r matches Some(s) && s@ == p,
            None => r is None,
        },
{
    let ghost linesv = spec_lines(stdout@);
    let lines = split_lines(stdout);
    let m = lines.len();
    let mut k: usize = 0;
    while k < m
        invariant
            k <= m,
            m == lines@.len(),
            linesv == spec_lines(stdout@),
            linesv == crate::text::seq_views(lines@),
            password_from(linesv, 0) == password_from(linesv, k as int),
        decreases m - k,
    {
        let line = &lines[k];
        let n = line.as_str().unicode_len();
        match str_find(line.as_str(), "=") {
            Option::Some(f) => {
                proof {
                    reveal_strlit("=");
                }
                let key = line.as_str().substring_char(0, f);
                let value = trim_str(line.as_str().substring_char(f + 1, n));
                if str_eq(key, "password") && value.as_str().unicode_len() > 0 {
                    proof {
                        assert(password_candidate(linesv[k as int]) == Some(value@));
                        assert(password_from(linesv, k as int) == Some(value@));
                    }
                    return Some(value);
                }
                proof {
                    assert(password_candidate(linesv[k as int]) is None);
                }
            },
            Option::None => {
                proof {
                    assert(password_candidate(linesv[k as int]) is None);
                }
            },
        }
        k = k + 1;
    }
    None
}

} // verus!
