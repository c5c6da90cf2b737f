//! Verified text utilities shared by the resolver, the registry and the
//! executors: character-level string comparison, substring search, decimal
//! rendering, whitespace trimming and joining.

use vstd::prelude::*;
use vstd::string::StrSliceExecFns;
use vstd::string::StringExecFns;

verus! {

/// Appends one character to a string.
///
/// Relies on std's `String::push`, which appends the given character to the
/// end of the string; vstd gives it no specification.
#[verifier::external_body]
pub fn push_char(s: &mut String, c: char)
    ensures
        final(s)@ == old(s)@.push(c),
{
    s.push(c);
}

/// The character for a decimal digit value.
pub open spec fn digit_char(d: nat) -> char {
    if d == 0 {
        '0'
    } else if d == 1 {
        '1'
    } else if d == 2 {
        '2'
    } else if d == 3 {
        '3'
    } else if d == 4 {
        '4'
    } else if d == 5 {
        '5'
    } else if d == 6 {
        '6'
    } else if d == 7 {
        '7'
    } else if d == 8 {
        '8'
    } else {
        '9'
    }
}

/// The decimal digits of a natural number, most significant first.
pub open spec fn dec_digits(n: nat) -> Seq<char>
    decreases n,
{
    if n < 10 {
        seq![digit_char(n)]
    } else {
        dec_digits(n / 10).push(digit_char(n % 10))
    }
}

/// The decimal rendering of an integer, with a leading minus sign when
/// negative.
pub open spec fn dec_int(n: int) -> Seq<char> {
    if n < 0 {
        seq!['-'] + dec_digits((-n) as nat)
    } else {
        dec_digits(n as nat)
    }
}

/// The character for a decimal digit value.
fn digit_char_of(d: usize) -> (c: char)
    requires
        d < 10,
    ensures
        c == digit_char(d as nat),
{
    if d == 0 {
        '0'
    } else if d == 1 {
        '1'
    } else if d == 2 {
        '2'
    } else if d == 3 {
        '3'
    } else if d == 4 {
        '4'
    } else if d == 5 {
        '5'
    } else if d == 6 {
        '6'
    } else if d == 7 {
        '7'
    } else if d == 8 {
        '8'
    } else {
        '9'
    }
}

/// Appends the decimal digits of `m` to a string.
fn push_decimal(s: &mut String, m: usize)
    ensures
        final(s)@ == old(s)@ + dec_digits(m as nat),
{
    let ghost m0 = m as nat;
    let mut rev: Vec<char> = Vec::new();
    let mut m = m;
    while m >= 10
        invariant
            dec_digits(m0) == dec_digits(m as nat) + rev@.reverse(),
        decreases m,
    {
        let ghost mprev = m as nat;
        let ghost rev0 = rev@;
        let d = m % 10;
        rev.push(digit_char_of(d));
        m = m / 10;
        proof {
            assert(dec_digits(mprev) == dec_digits(m as nat).push(digit_char(mprev % 10)));
            assert(rev@.reverse() =~= seq![digit_char(mprev % 10)] + rev0.reverse());
            assert(dec_digits(m as nat).push(digit_char(mprev % 10)) + rev0.reverse()
                =~= dec_digits(m as nat) + (seq![digit_char(mprev % 10)] + rev0.reverse()));
        }
    }
    push_char(s, digit_char_of(m));
    let ghost base = s@;
    proof {
        assert(dec_digits(m as nat) == seq![digit_char(m as nat)]);
    }
    let mut k: usize = rev.len();
    while k > 0
        invariant
            k <= rev@.len(),
            s@ == base + rev@.reverse().take(rev@.len() - k),
        decreases k,
    {
        push_char(s, rev[k - 1]);
        proof {
            assert(rev@.reverse()[rev@.len() - k] == rev@[k - 1]);
            assert(base + rev@.reverse().take(rev@.len() - (k - 1)) =~= (base + rev@.reverse().take(
                rev@.len() - k,
            )).push(rev@[k - 1]));
        }
        k = k - 1;
    }
    proof {
        assert(rev@.reverse().take(rev@.len() as int) =~= rev@.reverse());
        assert(old(s)@ + (dec_digits(m as nat) + rev@.reverse()) =~= (old(s)@ + dec_digits(
            m as nat,
        )) + rev@.reverse());
    }
}

/// Renders an unsigned count in decimal.
pub fn format_usize(n: usize) -> (r: String)
    ensures
        r@ == dec_digits(n as nat),
{
    let mut s = String::new();
    push_decimal(&mut s, n);
    proof {
        assert(Seq::<char>::empty() + dec_digits(n as nat) =~= dec_digits(n as nat));
    }
    s
}

/// Renders a signed exit code in decimal.
pub fn format_i32(n: i32) -> (r: String)
    ensures
        r@ == dec_int(n as int),
{
    let mut s = String::new();
    if n < 0 {
        push_char(&mut s, '-');
        let wide: i64 = n as i64;
        let mag: usize = (-wide) as usize;
        push_decimal(&mut s, mag);
        proof {
            assert(seq!['-'] + dec_digits(mag as nat) =~= Seq::<char>::empty().push('-')
                + dec_digits(mag as nat));
        }
    } else {
        push_decimal(&mut s, n as usize);
        proof {
            assert(Seq::<char>::empty() + dec_digits(n as nat) =~= dec_digits(n as nat));
        }
    }
    s
}

/// A character with the Unicode `White_Space` property, the set that
/// `str::trim` removes.
pub open spec fn is_space_char(c: char) -> bool {
    let u = c as u32;
    (9 <= u && u <= 13) || u == 0x20 || u == 0x85 || u == 0xA0 || u == 0x1680 || (0x2000 <= u && u
        <= 0x200A) || u == 0x2028 || u == 0x2029 || u == 0x202F || u == 0x205F || u == 0x3000
}

/// Whether the character is whitespace.
fn is_space(c: char) -> (r: bool)
    ensures
        r == is_space_char(c),
{
    let u = c as u32;
    (9 <= u && u <= 13) || u == 0x20 || u == 0x85 || u == 0xA0 || u == 0x1680 || (0x2000 <= u && u
        <= 0x200A) || u == 0x2028 || u == 0x2029 || u == 0x202F || u == 0x205F || u == 0x3000
}

/// The position of the first non-whitespace character at or after `i`.
pub open spec fn trim_start_idx(s: Seq<char>, i: int) -> int
    decreases s.len() - i,
{
    if 0 <= i && i < s.len() && is_space_char(s[i]) {
        trim_start_idx(s, i + 1)
    } else {
        i
    }
}

/// The position just after the last non-whitespace character before `j`.
pub open spec fn trim_end_idx(s: Seq<char>, j: int) -> int
    decreases j,
{
    if 0 < j && j <= s.len() && is_space_char(s[j - 1]) {
        trim_end_idx(s, j - 1)
    } else {
        j
    }
}

/// The start index never passes the end of the string.
proof fn lemma_trim_start_bounds(s: Seq<char>, i: int)
    requires
        0 <= i <= s.len(),
    ensures
        i <= trim_start_idx(s, i) <= s.len(),
    decreases s.len() - i,
{
    if i < s.len() && is_space_char(s[i]) {
        lemma_trim_start_bounds(s, i + 1);
    }
}

/// The end index never goes below zero.
proof fn lemma_trim_end_bounds(s: Seq<char>, j: int)
    requires
        0 <= j <= s.len(),
    ensures
        0 <= trim_end_idx(s, j) <= j,
    decreases j,
{
    if 0 < j && is_space_char(s[j - 1]) {
        lemma_trim_end_bounds(s, j - 1);
    }
}

/// The string with leading and trailing whitespace removed.
pub open spec fn spec_trim(s: Seq<char>) -> Seq<char> {
    let a = trim_start_idx(s, 0);
    let b = trim_end_idx(s, s.len() as int);
    if a <= b {
        s.subrange(a, b)
    } else {
        Seq::empty()
    }
}

/// Removes leading and trailing whitespace.
pub fn trim_str(s: &str) -> (r: String)
    ensures
        r@ == spec_trim(s@),
{
    let n = s.unicode_len();
    let mut a: usize = 0;
    while a < n && is_space(s.get_char(a))
        invariant
            a <= n,
            n == s@.len(),
            trim_start_idx(s@, a as int) == trim_start_idx(s@, 0),
        decreases n - a,
    {
        a = a + 1;
    }
    if a == n {
        proof {
            let b = trim_end_idx(s@, s@.len() as int);
            lemma_trim_end_bounds(s@, s@.len() as int);
            if trim_start_idx(s@, 0) <= b {
                assert(b == s@.len());
                assert(s@.subrange(trim_start_idx(s@, 0), b) =~= Seq::<char>::empty());
            }
        }
        return String::new();
    }
    let mut b: usize = n;
    while b > a && is_space(s.get_char(b - 1))
        invariant
            a < b <= n,
            n == s@.len(),
            a == trim_start_idx(s@, 0),
            a < n,
            !is_space_char(s@[a as int]),
            trim_end_idx(s@, b as int) == trim_end_idx(s@, s@.len() as int),
        decreases b,
    {
        b = b - 1;
    }
    let piece = s.substring_char(a, b);
    String::from_str(piece)
}

/// Whether the pattern occurs in `s` starting at position `i`.
pub open spec fn occurs_at(s: Seq<char>, p: Seq<char>, i: int) -> bool {
    0 <= i && i + p.len() <= s.len() && (forall|k: int| 0 <= k < p.len() ==> s[i + k] == p[k])
}

/// Whether the pattern occurs anywhere in `s`.
pub open spec fn contains_seq(s: Seq<char>, p: Seq<char>) -> bool {
    exists|i: int| occurs_at(s, p, i)
}

/// Whether the pattern occurs in `s` at position `i`.
fn matches_at(s: &str, p: &str, i: usize, n: usize, m: usize) -> (r: bool)
    requires
        n == s@.len(),
        m == p@.len(),
        i + m <= n,
    ensures
        r == occurs_at(s@, p@, i as int),
{
    let mut k: usize = 0;
    while k < m
        invariant
            k <= m,
            n == s@.len(),
            m == p@.len(),
            i + m <= n,
            forall|q: int| 0 <= q < k ==> s@[i + q] == p@[q],
        decreases m - k,
    {
        if s.get_char(i + k) != p.get_char(k) {
            return false;
        }
        k = k + 1;
    }
    true
}

/// Whether `s` contains `p` as a substring.
pub fn str_contains_str(s: &str, p: &str) -> (r: bool)
    ensures
        r == contains_seq(s@, p@),
{
    let n = s.unicode_len();
    let m = p.unicode_len();
    if m > n {
        proof {
            assert(forall|i: int| !occurs_at(s@, p@, i));
        }
        return false;
    }
    let mut i: usize = 0;
    while i <= n - m
        invariant
            i <= n - m + 1,
            m <= n,
            n == s@.len(),
            m == p@.len(),
            forall|q: int| 0 <= q < i ==> !occurs_at(s@, p@, q),
        decreases n - i,
    {
        if matches_at(s, p, i, n, m) {
            return true;
        }
        i = i + 1;
    }
    proof {
        assert(forall|q: int| !occurs_at(s@, p@, q));
    }
    false
}

/// Whether `s` starts with `p`.
pub fn str_starts_with(s: &str, p: &str) -> (r: bool)
    ensures
        r == occurs_at(s@, p@, 0),
{
    let n = s.unicode_len();
    let m = p.unicode_len();
    if m > n {
        return false;
    }
    matches_at(s, p, 0, n, m)
}

/// The position of the first occurrence of `p` at or after `i`, or -1 when
/// there is none.
pub open spec fn find_from(s: Seq<char>, p: Seq<char>, i: int) -> int
    decreases s.len() - i,
{
    if i < 0 || i + p.len() > s.len() {
        -1
    } else if occurs_at(s, p, i) {
        i
    } else {
        find_from(s, p, i + 1)
    }
}

/// The position of the first occurrence of `p` in `s`, or -1.
pub open spec fn spec_find(s: Seq<char>, p: Seq<char>) -> int {
    find_from(s, p, 0)
}

/// The position of the first occurrence of `p` in `s`, when there is one.
pub fn str_find(s: &str, p: &str) -> (r: Option<usize>)
    ensures
        match r {
            Some(i) => spec_find(s@, p@) == i as int && i + p@.len() <= s@.len(),
            None => spec_find(s@, p@) == -1,
        },
{
    let n = s.unicode_len();
    let m = p.unicode_len();
    if m > n {
        return None;
    }
    let mut i: usize = 0;
    while i <= n - m
        invariant
            i <= n - m + 1,
            m <= n,
            n == s@.len(),
            m == p@.len(),
            find_from(s@, p@, 0) == find_from(s@, p@, i as int),
        decreases n - i,
    {
        if matches_at(s, p, i, n, m) {
            return Some(i);
        }
        i = i + 1;
    }
    None
}

/// A line with one trailing carriage return removed.
pub open spec fn strip_cr(line: Seq<char>) -> Seq<char> {
    if line.len() > 0 && line.last() == '\r' {
        line.drop_last()
    } else {
        line
    }
}

/// The pieces of the suffix starting at `i`, split on newline characters,
/// with `cur` holding the piece under construction.
pub open spec fn split_nl_from(s: Seq<char>, i: int, cur: Seq<char>) -> Seq<Seq<char>>
    decreases s.len() - i,
{
    if i < 0 || i >= s.len() {
        seq![cur]
    } else if s[i] == '\n' {
        seq![cur] + split_nl_from(s, i + 1, Seq::empty())
    } else {
        split_nl_from(s, i + 1, cur.push(s[i]))
    }
}

/// The lines of `s`, as `str::lines` yields them: split at `'\n'`, a
/// `'\r'` just before each newline removed, and no final empty line when
/// the string ends with a newline.  A final line with no newline after it
/// keeps a trailing `'\r'`, as the standard library's splitter does.
pub open spec fn spec_lines(s: Seq<char>) -> Seq<Seq<char>> {
    let raw = split_nl_from(s, 0, Seq::empty());
    let count: int = if raw.last() =~= Seq::<char>::empty() {
        raw.len() - 1
    } else {
        raw.len() as int
    };
    Seq::new(
        count as nat,
        |k: int|
            if k < raw.len() - 1 {
                strip_cr(raw[k])
            } else {
                raw[k]
            },
    )
}

/// Splits a string into its lines.
pub fn split_lines(s: &str) -> (r: Vec<String>)
    ensures
        seq_views(r@) == spec_lines(s@),
{
    let n = s.unicode_len();
    let mut raw: Vec<String> = Vec::new();
    let mut cur = String::new();
    let mut i: usize = 0;
    while i < n
        invariant
            i <= n,
            n == s@.len(),
            seq_views(raw@) + split_nl_from(s@, i as int, cur@) =~= split_nl_from(
                s@,
                0,
                Seq::empty(),
            ),
        decreases n - i,
    {
        let ghost raw0 = raw@;
        let ghost cur0 = cur@;
        let c = s.get_char(i);
        if c == '\n' {
            raw.push(cur);
            cur = String::new();
            proof {
                assert(split_nl_from(s@, i as int, cur0) == seq![cur0] + split_nl_from(
                    s@,
                    i + 1,
                    Seq::empty(),
                ));
                assert(seq_views(raw@) =~= seq_views(raw0).push(cur0));
                assert(seq_views(raw0).push(cur0) + split_nl_from(s@, i + 1, Seq::empty())
                    =~= seq_views(raw0) + (seq![cur0] + split_nl_from(s@, i + 1, Seq::empty())));
            }
        } else {
            proof {
                assert(split_nl_from(s@, i as int, cur0) == split_nl_from(
                    s@,
                    i + 1,
                    cur0.push(s@[i as int]),
                ));
            }
            push_char(&mut cur, c);
        }
        i = i + 1;
    }
    let ghost rawf = raw@;
    let ghost curf = cur@;
    let ghost rawv = split_nl_from(s@, 0, Seq::empty());
    proof {
        assert(split_nl_from(s@, n as int, curf) == seq![curf]);
        assert(rawv =~= seq_views(rawf) + seq![curf]);
        assert(rawv =~= seq_views(rawf).push(curf));
        assert(rawv.last() == curf);
    }
    let last_empty = cur.unicode_len() == 0;
    if !last_empty {
        raw.push(cur);
        proof {
            assert(seq_views(raw@) =~= seq_views(rawf).push(curf));
        }
    }
    let ghost kept = seq_views(raw@);
    let ghost target = spec_lines(s@);
    proof {
        if rawv.last() =~= Seq::<char>::empty() {
            assert(last_empty);
            assert(kept =~= rawv.drop_last());
        } else {
            assert(!last_empty);
            assert(kept =~= rawv);
        }
        assert(target.len() == kept.len());
        assert(forall|q: int|
            0 <= q < kept.len() ==> #[trigger] target[q] == (if last_empty || q + 1 < kept.len() {
                strip_cr(kept[q])
            } else {
                kept[q]
            }));
    }
    let m = raw.len();
    let mut out: Vec<String> = Vec::new();
    let mut k: usize = 0;
    while k < m
        invariant
            k <= m,
            m == raw@.len(),
            kept == seq_views(raw@),
            target.len() == m,
            forall|q: int|
                0 <= q < m ==> #[trigger] target[q] == (if last_empty || q + 1 < m {
                    strip_cr(kept[q])
                } else {
                    kept[q]
                }),
            seq_views(out@) =~= target.take(k as int),
        decreases m - k,
    {
        let ghost o0 = out@;
        let piece = &raw[k];
        let plen = piece.as_str().unicode_len();
        let keep_cr = !last_empty && k + 1 == m;
        if !keep_cr && plen > 0 && piece.as_str().get_char(plen - 1) == '\r' {
            let stripped = piece.as_str().substring_char(0, plen - 1);
            out.push(String::from_str(stripped));
            proof {
                assert(kept[k as int].drop_last() =~= kept[k as int].subrange(
                    0,
                    kept[k as int].len() - 1,
                ));
            }
        } else {
            out.push(piece.clone());
            proof {
                if !keep_cr {
                    assert(strip_cr(kept[k as int]) == kept[k as int]);
                }
            }
        }
        proof {
            assert(seq_views(out@) =~= seq_views(o0).push(target[k as int]));
            assert(seq_views(o0).push(target[k as int]) =~= target.take(k + 1));
        }
        k = k + 1;
    }
    proof {
        assert(target.take(m as int) =~= target);
    }
    out
}

/// Whether the four-character legacy separator `" && "` starts at `i`.
pub open spec fn sep_at(s: Seq<char>, i: int) -> bool {
    0 <= i && i + 4 <= s.len() && s[i] == ' ' && s[i + 1] == '&' && s[i + 2] == '&' && s[i + 3]
        == ' '
}

/// The pieces of the suffix starting at `i`, split on the legacy separator,
/// with `cur` holding the piece under construction.
pub open spec fn split_sep_from(s: Seq<char>, i: int, cur: Seq<char>) -> Seq<Seq<char>>
    decreases s.len() - i,
{
    if i < 0 || i >= s.len() {
        seq![cur]
    } else if sep_at(s, i) {
        seq![cur] + split_sep_from(s, i + 4, Seq::empty())
    } else {
        split_sep_from(s, i + 1, cur.push(s[i]))
    }
}

/// The pieces of `s` split on the legacy `" && "` separator, leftmost
/// first; empty pieces are kept.
pub open spec fn spec_split_chain(s: Seq<char>) -> Seq<Seq<char>> {
    split_sep_from(s, 0, Seq::empty())
}

/// The views of a sequence of strings.
pub open spec fn seq_views(v: Seq<String>) -> Seq<Seq<char>> {
    Seq::new(v.len(), |i: int| v[i]@)
}

/// Splits a command string on the legacy `" && "` separator.
pub fn split_chain_pieces(s: &str) -> (r: Vec<String>)
    ensures
        seq_views(r@) == spec_split_chain(s@),
{
    let n = s.unicode_len();
    let mut out: Vec<String> = Vec::new();
    let mut cur = String::new();
    let mut i: usize = 0;
    while i < n
        invariant
            i <= n,
            n == s@.len(),
            seq_views(out@) + split_sep_from(s@, i as int, cur@) =~= spec_split_chain(s@),
        decreases n - i,
    {
        let ghost out0 = out@;
        let ghost cur0 = cur@;
        if n - i >= 4 && s.get_char(i) == ' ' && s.get_char(i + 1) == '&' && s.get_char(i + 2)
            == '&' && s.get_char(i + 3) == ' ' {
            out.push(cur);
            cur = String::new();
            proof {
                assert(sep_at(s@, i as int));
                assert(split_sep_from(s@, i as int, cur0) == seq![cur0] + split_sep_from(
                    s@,
                    i + 4,
                    Seq::empty(),
                ));
                assert(seq_views(out@) =~= seq_views(out0).push(cur0));
                assert(seq_views(out0).push(cur0) + split_sep_from(s@, i + 4, Seq::empty())
                    =~= seq_views(out0) + (seq![cur0] + split_sep_from(s@, i + 4, Seq::empty())));
            }
            i = i + 4;
        } else {
            proof {
                assert(!sep_at(s@, i as int));
                assert(split_sep_from(s@, i as int, cur0) == split_sep_from(
                    s@,
                    i + 1,
                    cur0.push(s@[i as int]),
                ));
            }
            push_char(&mut cur, s.get_char(i));
            i = i + 1;
        }
    }
    let ghost outf = out@;
    let ghost curf = cur@;
    out.push(cur);
    proof {
        assert(split_sep_from(s@, n as int, curf) == seq![curf]);
        assert(seq_views(out@) =~= seq_views(outf).push(curf));
        assert(seq_views(outf).push(curf) =~= seq_views(outf) + seq![curf]);
    }
    out
}

/// Lexicographic order on character sequences, by code point; the order a
/// byte-wise comparison of their UTF-8 encodings gives.
pub open spec fn lex_le(a: Seq<char>, b: Seq<char>) -> bool
    decreases a.len(),
{
    if a.len() == 0 {
        true
    } else if b.len() == 0 {
        false
    } else if (a[0] as u32) < (b[0] as u32) {
        true
    } else if (a[0] as u32) > (b[0] as u32) {
        false
    } else {
        lex_le(a.drop_first(), b.drop_first())
    }
}

/// The lexicographic order is total.
pub proof fn lemma_lex_total(a: Seq<char>, b: Seq<char>)
    ensures
        lex_le(a, b) || lex_le(b, a),
    decreases a.len(),
{
    if a.len() > 0 && b.len() > 0 && (a[0] as u32) == (b[0] as u32) {
        lemma_lex_total(a.drop_first(), b.drop_first());
    }
}

/// The lexicographic order is transitive.
pub proof fn lemma_lex_trans(a: Seq<char>, b: Seq<char>, c: Seq<char>)
    requires
        lex_le(a, b),
        lex_le(b, c),
    ensures
        lex_le(a, c),
    decreases a.len(),
{
    if a.len() > 0 {
        if (a[0] as u32) == (b[0] as u32) && (b[0] as u32) == (c[0] as u32) {
            lemma_lex_trans(a.drop_first(), b.drop_first(), c.drop_first());
        }
    }
}

/// Compares two string slices in lexicographic order.
pub fn str_le(a: &str, b: &str) -> (r: bool)
    ensures
        r == lex_le(a@, b@),
{
    let an = a.unicode_len();
    let bn = b.unicode_len();
    let mut i: usize = 0;
    proof {
        assert(a@.skip(0) =~= a@);
        assert(b@.skip(0) =~= b@);
    }
    while i < an && i < bn
        invariant
            i <= an,
            i <= bn,
            an == a@.len(),
            bn == b@.len(),
            lex_le(a@, b@) == lex_le(a@.skip(i as int), b@.skip(i as int)),
        decreases an - i,
    {
        let ca = a.get_char(i);
        let cb = b.get_char(i);
        proof {
            assert(a@.skip(i as int)[0] == a@[i as int]);
            assert(b@.skip(i as int)[0] == b@[i as int]);
            assert(a@.skip(i as int).drop_first() =~= a@.skip(i + 1));
            assert(b@.skip(i as int).drop_first() =~= b@.skip(i + 1));
        }
        if (ca as u32) < (cb as u32) {
            return true;
        }
        if (ca as u32) > (cb as u32) {
            return false;
        }
        i = i + 1;
    }
    proof {
        if i >= an {
            assert(a@.skip(i as int).len() == 0);
        } else {
            assert(b@.skip(i as int).len() == 0);
            assert(a@.skip(i as int).len() > 0);
        }
    }
    i >= an
}

/// Clones a vector of strings element by element.
pub fn clone_string_vec(v: &Vec<String>) -> (r: Vec<String>)
    ensures
        seq_views(r@) == seq_views(v@),
{
    let n = v.len();
    let mut out: Vec<String> = Vec::new();
    let mut i: usize = 0;
    while i < n
        invariant
            i <= n,
            n == v@.len(),
            seq_views(out@) =~= seq_views(v@).take(i as int),
        decreases n - i,
    {
        let ghost o0 = out@;
        out.push(v[i].clone());
        proof {
            assert(seq_views(out@) =~= seq_views(o0).push(v@[i as int]@));
            assert(seq_views(o0).push(v@[i as int]@) =~= seq_views(v@).take(i + 1));
        }
        i = i + 1;
    }
    proof {
        assert(seq_views(v@).take(n as int) =~= seq_views(v@));
    }
    out
}

/// Character-by-character equality of two string slices.
pub fn str_eq(a: &str, b: &str) -> (r: bool)
    ensures
        r == (a@ == b@),
{
    let an = a.unicode_len();
    let bn = b.unicode_len();
    if an != bn {
        proof {
            assert(a@ != b@);
        }
        return false;
    }
    let mut i: usize = 0;
    while i < an
        invariant
            i <= an,
            an == a@.len(),
            an == b@.len(),
            forall|j: int| 0 <= j < i ==> a@[j] == b@[j],
        decreases an - i,
    {
        if a.get_char(i) != b.get_char(i) {
            return false;
        }
        i = i + 1;
    }
    proof {
        assert(a@ =~= b@);
    }
    true
}

} // verus!
