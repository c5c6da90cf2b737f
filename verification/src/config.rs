//! The alias registry: an association of unique names to alias entries,
//! with reserved-name checking on registration.

use vstd::prelude::*;
use vstd::string::StrSliceExecFns;
use vstd::string::StringExecFns;

use crate::chain::AliasEntry;
use crate::chain::CommandType;
use crate::text::contains_seq;
use crate::text::occurs_at;
use crate::text::str_contains_str;
use crate::text::str_starts_with;
use crate::text::lex_le;
use crate::text::lemma_lex_total;
use crate::text::lemma_lex_trans;
use crate::text::str_le;

verus! {

/// The first entry bound to `name`, scanning in order; `None` when no entry
/// carries that name.
pub open spec fn spec_lookup(entries: Seq<(String, AliasEntry)>, name: Seq<char>) -> Option<
    AliasEntry,
>
    decreases entries.len(),
{
    if entries.len() == 0 {
        None
    } else if entries[0].0@ == name {
        Some(entries[0].1)
    } else {
        spec_lookup(entries.drop_first(), name)
    }
}

/// No two entries share a name.
pub open spec fn unique_names(entries: Seq<(String, AliasEntry)>) -> bool {
    forall|i: int, j: int| 0 <= i < j < entries.len() ==> entries[i].0@ != entries[j].0@
}

/// A name the registry refuses: one that starts with `--` or `.`, or
/// contains `mgr:`.
pub open spec fn spec_reserved_name(name: Seq<char>) -> bool {
    occurs_at(name, "--"@, 0) || contains_seq(name, "mgr:"@) || occurs_at(name, "."@, 0)
}

/// When a name is absent, no entry carries it.
proof fn lemma_lookup_none_absent(entries: Seq<(String, AliasEntry)>, name: Seq<char>)
    requires
        spec_lookup(entries, name) is None,
    ensures
        forall|i: int| 0 <= i < entries.len() ==> entries[i].0@ != name,
    decreases entries.len(),
{
    if entries.len() > 0 {
        lemma_lookup_none_absent(entries.drop_first(), name);
        assert(forall|i: int|
            1 <= i < entries.len() ==> entries[i] == entries.drop_first()[i - 1]);
    }
}

/// Appending an entry under a fresh name makes it findable and leaves every
/// other lookup unchanged.
proof fn lemma_lookup_push(entries: Seq<(String, AliasEntry)>, pair: (String, AliasEntry))
    requires
        spec_lookup(entries, pair.0@) is None,
    ensures
        spec_lookup(entries.push(pair), pair.0@) == Some(pair.1),
        forall|other: Seq<char>|
            other != pair.0@ ==> #[trigger] spec_lookup(entries.push(pair), other) == spec_lookup(
                entries,
                other,
            ),
    decreases entries.len(),
{
    if entries.len() == 0 {
        assert(entries.push(pair)[0] == pair);
        assert(entries.push(pair).drop_first() =~= Seq::<(String, AliasEntry)>::empty());
        assert forall|other: Seq<char>| other != pair.0@ implies #[trigger] spec_lookup(
            entries.push(pair),
            other,
        ) == spec_lookup(entries, other) by {
            assert(spec_lookup(entries.push(pair), other) == spec_lookup(
                entries.push(pair).drop_first(),
                other,
            ));
        }
    } else {
        assert(entries.push(pair)[0] == entries[0]);
        assert(entries.push(pair).drop_first() =~= entries.drop_first().push(pair));
        lemma_lookup_push(entries.drop_first(), pair);
        assert forall|other: Seq<char>| other != pair.0@ implies #[trigger] spec_lookup(
            entries.push(pair),
            other,
        ) == spec_lookup(entries, other) by {
            if entries[0].0@ != other {
                assert(spec_lookup(entries.push(pair), other) == spec_lookup(
                    entries.drop_first().push(pair),
                    other,
                ));
                assert(spec_lookup(entries, other) == spec_lookup(entries.drop_first(), other));
            }
        }
    }
}

/// Replacing the entry at the position that carries `name` rebinds that
/// name and leaves every other lookup unchanged.
proof fn lemma_lookup_update(
    entries: Seq<(String, AliasEntry)>,
    i: int,
    pair: (String, AliasEntry),
)
    requires
        0 <= i < entries.len(),
        entries[i].0@ == pair.0@,
        unique_names(entries),
    ensures
        spec_lookup(entries.update(i, pair), pair.0@) == Some(pair.1),
        forall|other: Seq<char>|
            other != pair.0@ ==> #[trigger] spec_lookup(entries.update(i, pair), other)
                == spec_lookup(entries, other),
    decreases entries.len(),
{
    if i == 0 {
        assert(entries.update(0, pair)[0] == pair);
        assert(entries.update(0, pair).drop_first() =~= entries.drop_first());
        assert forall|other: Seq<char>| other != pair.0@ implies #[trigger] spec_lookup(
            entries.update(i, pair),
            other,
        ) == spec_lookup(entries, other) by {
            assert(spec_lookup(entries.update(i, pair), other) == spec_lookup(
                entries.drop_first(),
                other,
            ));
            assert(entries[0].0@ == pair.0@);
            assert(spec_lookup(entries, other) == spec_lookup(entries.drop_first(), other));
        }
    } else {
        assert(entries.update(i, pair)[0] == entries[0]);
        assert(entries[0].0@ != entries[i].0@);
        assert(entries.update(i, pair).drop_first() =~= entries.drop_first().update(i - 1, pair));
        assert(unique_names(entries.drop_first())) by {
            assert(forall|p: int, q: int|
                0 <= p < q < entries.drop_first().len() ==> entries.drop_first()[p]
                    == entries[p + 1] && entries.drop_first()[q] == entries[q + 1]);
        }
        assert(entries.drop_first()[i - 1].0@ == pair.0@);
        lemma_lookup_update(entries.drop_first(), i - 1, pair);
        assert forall|other: Seq<char>| other != pair.0@ implies #[trigger] spec_lookup(
            entries.update(i, pair),
            other,
        ) == spec_lookup(entries, other) by {
            if entries[0].0@ != other {
                assert(spec_lookup(entries.update(i, pair), other) == spec_lookup(
                    entries.drop_first().update(i - 1, pair),
                    other,
                ));
                assert(spec_lookup(entries, other) == spec_lookup(entries.drop_first(), other));
            }
        }
        assert(spec_lookup(entries.update(i, pair), pair.0@) == spec_lookup(
            entries.drop_first().update(i - 1, pair),
            pair.0@,
        ));
    }
}

/// Removing the entry at the position that carries `name` unbinds that
/// name and leaves every other lookup unchanged.
proof fn lemma_lookup_remove(entries: Seq<(String, AliasEntry)>, i: int, name: Seq<char>)
    requires
        0 <= i < entries.len(),
        entries[i].0@ == name,
        unique_names(entries),
    ensures
        spec_lookup(entries.remove(i), name) is None,
        forall|other: Seq<char>|
            other != name ==> #[trigger] spec_lookup(entries.remove(i), other) == spec_lookup(
                entries,
                other,
            ),
    decreases entries.len(),
{
    if i == 0 {
        assert(entries.remove(0) =~= entries.drop_first());
        assert(forall|j: int|
            0 <= j < entries.drop_first().len() ==> entries.drop_first()[j] == entries[j + 1]);
        if spec_lookup(entries.drop_first(), name) is Some {
            lemma_some_means_present(entries.drop_first(), name);
        }
        assert forall|other: Seq<char>| other != name implies #[trigger] spec_lookup(
            entries.remove(i),
            other,
        ) == spec_lookup(entries, other) by {
            assert(entries[0].0@ == name);
            assert(spec_lookup(entries, other) == spec_lookup(entries.drop_first(), other));
        }
    } else {
        assert(entries.remove(i)[0] == entries[0]);
        assert(entries[0].0@ != entries[i].0@);
        assert(entries.remove(i).drop_first() =~= entries.drop_first().remove(i - 1));
        assert(unique_names(entries.drop_first())) by {
            assert(forall|p: int, q: int|
                0 <= p < q < entries.drop_first().len() ==> entries.drop_first()[p]
                    == entries[p + 1] && entries.drop_first()[q] == entries[q + 1]);
        }
        assert(entries.drop_first()[i - 1].0@ == name);
        lemma_lookup_remove(entries.drop_first(), i - 1, name);
        assert forall|other: Seq<char>| other != name implies #[trigger] spec_lookup(
            entries.remove(i),
            other,
        ) == spec_lookup(entries, other) by {
            if entries[0].0@ != other {
                assert(spec_lookup(entries.remove(i), other) == spec_lookup(
                    entries.drop_first().remove(i - 1),
                    other,
                ));
                assert(spec_lookup(entries, other) == spec_lookup(entries.drop_first(), other));
            }
        }
        assert(spec_lookup(entries.remove(i), name) == spec_lookup(
            entries.drop_first().remove(i - 1),
            name,
        ));
    }
}

/// When the lookup finds an entry, some position carries the name.
proof fn lemma_some_means_present(entries: Seq<(String, AliasEntry)>, name: Seq<char>)
    requires
        spec_lookup(entries, name) is Some,
    ensures
        exists|i: int| 0 <= i < entries.len() && entries[i].0@ == name,
    decreases entries.len(),
{
    if entries.len() > 0 && entries[0].0@ != name {
        lemma_some_means_present(entries.drop_first(), name);
        let i = choose|i: int|
            0 <= i < entries.drop_first().len() && entries.drop_first()[i].0@ == name;
        assert(entries[i + 1].0@ == name);
    }
}

/// Whether a name passes the listing filter: with no filter every name
/// passes; with one, the names that contain it as a substring.
pub open spec fn filter_match(name: Seq<char>, filter: Option<&str>) -> bool {
    match filter {
        Some(p) => contains_seq(name, p@),
        None => true,
    }
}

/// The pair refers to one of the first `bound` entries, and that entry's
/// name passes the filter.
pub open spec fn listed_pair<'a>(
    entries: Seq<(String, AliasEntry)>,
    x: (&'a String, &'a AliasEntry),
    bound: int,
    filter: Option<&str>,
) -> bool {
    exists|j: int|
        0 <= j < bound && *x.0 == entries[j].0 && *x.1 == entries[j].1 && filter_match(
            entries[j].0@,
            filter,
        )
}

/// Entry `j` appears (by reference) somewhere in the listing.
pub open spec fn entry_listed<'a>(
    s: Seq<(&'a String, &'a AliasEntry)>,
    entries: Seq<(String, AliasEntry)>,
    j: int,
) -> bool {
    exists|k: int| 0 <= k < s.len() && *s[k].0 == entries[j].0 && *s[k].1 == entries[j].1
}

/// A witness at position `j` establishes `listed_pair`.
proof fn lemma_listed_pair_intro<'a>(
    entries: Seq<(String, AliasEntry)>,
    x: (&'a String, &'a AliasEntry),
    j: int,
    bound: int,
    filter: Option<&str>,
)
    requires
        0 <= j < bound,
        *x.0 == entries[j].0,
        *x.1 == entries[j].1,
        filter_match(entries[j].0@, filter),
    ensures
        listed_pair(entries, x, bound, filter),
{
    assert(0 <= j < bound && *x.0 == entries[j].0 && *x.1 == entries[j].1 && filter_match(
        entries[j].0@,
        filter,
    ));
}

/// A witness at position `k` establishes `entry_listed`.
proof fn lemma_entry_listed_intro<'a>(
    s: Seq<(&'a String, &'a AliasEntry)>,
    entries: Seq<(String, AliasEntry)>,
    j: int,
    k: int,
)
    requires
        0 <= k < s.len(),
        *s[k].0 == entries[j].0,
        *s[k].1 == entries[j].1,
    ensures
        entry_listed(s, entries, j),
{
    assert(0 <= k < s.len() && *s[k].0 == entries[j].0 && *s[k].1 == entries[j].1);
}

/// A pair listed under one bound is listed under any larger bound.
proof fn lemma_listed_pair_widen<'a>(
    entries: Seq<(String, AliasEntry)>,
    x: (&'a String, &'a AliasEntry),
    b1: int,
    b2: int,
    filter: Option<&str>,
)
    requires
        listed_pair(entries, x, b1, filter),
        b1 <= b2,
    ensures
        listed_pair(entries, x, b2, filter),
{
    let j = choose|j: int|
        0 <= j < b1 && *x.0 == entries[j].0 && *x.1 == entries[j].1 && filter_match(
            entries[j].0@,
            filter,
        );
    lemma_listed_pair_intro(entries, x, j, b2, filter);
}

/// A pair listed among the entries before `i` cannot carry entry `i`'s
/// name, since names are unique.
proof fn lemma_listed_name_differs<'a>(
    entries: Seq<(String, AliasEntry)>,
    x: (&'a String, &'a AliasEntry),
    i: int,
    filter: Option<&str>,
)
    requires
        listed_pair(entries, x, i, filter),
        unique_names(entries),
        0 <= i < entries.len(),
    ensures
        x.0@ != entries[i].0@,
{
    let j = choose|j: int|
        0 <= j < i && *x.0 == entries[j].0 && *x.1 == entries[j].1 && filter_match(
            entries[j].0@,
            filter,
        );
    assert(entries[j].0@ != entries[i].0@);
}

/// Inserting the pair for entry `i` into a listing of the entries before
/// `i` yields a listing of the entries up to and including `i`, still
/// without a repeated name.
proof fn lemma_listing_extend<'a>(
    entries: Seq<(String, AliasEntry)>,
    out0: Seq<(&'a String, &'a AliasEntry)>,
    out1: Seq<(&'a String, &'a AliasEntry)>,
    x: (&'a String, &'a AliasEntry),
    p: int,
    i: int,
    filter: Option<&str>,
)
    requires
        0 <= i < entries.len(),
        0 <= p <= out0.len(),
        out1 == out0.insert(p, x),
        *x.0 == entries[i].0,
        *x.1 == entries[i].1,
        filter_match(entries[i].0@, filter),
        forall|k: int| 0 <= k < out0.len() ==> #[trigger] listed_pair(entries, out0[k], i, filter),
        forall|j: int|
            0 <= j < i && #[trigger] filter_match(entries[j].0@, filter) ==> entry_listed(
                out0,
                entries,
                j,
            ),
        forall|k1: int, k2: int| 0 <= k1 < k2 < out0.len() ==> out0[k1].0@ != out0[k2].0@,
        forall|k: int| 0 <= k < out0.len() ==> out0[k].0@ != entries[i].0@,
    ensures
        forall|k: int|
            0 <= k < out1.len() ==> #[trigger] listed_pair(entries, out1[k], i + 1, filter),
        forall|j: int|
            0 <= j < i + 1 && #[trigger] filter_match(entries[j].0@, filter) ==> entry_listed(
                out1,
                entries,
                j,
            ),
        forall|k1: int, k2: int| 0 <= k1 < k2 < out1.len() ==> out1[k1].0@ != out1[k2].0@,
{
    out0.insert_ensures(p, x);
    assert forall|k: int| 0 <= k < out1.len() implies #[trigger] listed_pair(
        entries,
        out1[k],
        i + 1,
        filter,
    ) by {
        if k < p {
            assert(out1[k] == out0[k]);
            lemma_listed_pair_widen(entries, out0[k], i, i + 1, filter);
        } else if k == p {
            assert(out1[k] == x);
            lemma_listed_pair_intro(entries, x, i, i + 1, filter);
        } else {
            assert(out1[k] == out0[k - 1]);
            lemma_listed_pair_widen(entries, out0[k - 1], i, i + 1, filter);
        }
    }
    assert forall|j: int|
        0 <= j < i + 1 && #[trigger] filter_match(entries[j].0@, filter) implies entry_listed(
        out1,
        entries,
        j,
    ) by {
        if j == i {
            assert(out1[p] == x);
            lemma_entry_listed_intro(out1, entries, j, p);
        } else {
            let k0 = choose|k0: int|
                0 <= k0 < out0.len() && *out0[k0].0 == entries[j].0 && *out0[k0].1
                    == entries[j].1;
            if k0 < p {
                assert(out1[k0] == out0[k0]);
                lemma_entry_listed_intro(out1, entries, j, k0);
            } else {
                assert(out1[k0 + 1] == out0[k0]);
                lemma_entry_listed_intro(out1, entries, j, k0 + 1);
            }
        }
    }
    assert forall|k1: int, k2: int| 0 <= k1 < k2 < out1.len() implies out1[k1].0@
        != out1[k2].0@ by {
        if k1 == p {
            assert(out1[k1] == x);
            assert(out1[k2] == out0[k2 - 1]);
        } else if k2 == p {
            assert(out1[k2] == x);
            assert(out1[k1] == out0[k1]);
        } else {
            let j1: int = if k1 < p {
                k1
            } else {
                k1 - 1
            };
            let j2: int = if k2 < p {
                k2
            } else {
                k2 - 1
            };
            assert(out1[k1] == out0[j1]);
            assert(out1[k2] == out0[j2]);
        }
    }
}

/// Inserts a pair into a name-sorted vector, keeping it sorted; the result
/// is the old sequence with the pair inserted at one position.
fn insert_sorted<'a>(out: &mut Vec<(&'a String, &'a AliasEntry)>, x: (&'a String, &'a AliasEntry))
    requires
        forall|k1: int, k2: int|
            0 <= k1 < k2 < old(out)@.len() ==> lex_le(old(out)@[k1].0@, old(out)@[k2].0@),
    ensures
        final(out)@.len() == old(out)@.len() + 1,
        forall|k1: int, k2: int|
            0 <= k1 < k2 < final(out)@.len() ==> lex_le(final(out)@[k1].0@, final(out)@[k2].0@),
        exists|p: int| 0 <= p <= old(out)@.len() && final(out)@ == old(out)@.insert(p, x),
{
    let ghost out0 = out@;
    let n = out.len();
    let mut p: usize = 0;
    while p < n && str_le(out[p].0.as_str(), x.0.as_str())
        invariant
            p <= n,
            n == out@.len(),
            out@ == out0,
            forall|k: int| 0 <= k < p ==> lex_le(out@[k].0@, x.0@),
        decreases n - p,
    {
        p = p + 1;
    }
    proof {
        if (p as int) < n {
            lemma_lex_total(out@[p as int].0@, x.0@);
        }
        assert forall|k: int| p <= k < n implies lex_le(x.0@, out@[k].0@) by {
            if k > p {
                lemma_lex_trans(x.0@, out@[p as int].0@, out@[k].0@);
            }
        }
    }
    out.insert(p, x);
    proof {
        out0.insert_ensures(p as int, x);
        assert forall|k1: int, k2: int| 0 <= k1 < k2 < out@.len() implies lex_le(
            out@[k1].0@,
            out@[k2].0@,
        ) by {
            lemma_lex_total(x.0@, x.0@);
            if k1 < p && k2 < p {
            } else if k2 == p {
                assert(lex_le(out0[k1].0@, x.0@));
            } else if k1 < p && k2 > p {
                if k1 == k2 - 1 {
                    lemma_lex_total(out0[k1].0@, out0[k1].0@);
                } else {
                    assert(lex_le(out0[k1].0@, out0[k2 - 1].0@));
                }
            } else if k1 == p {
                assert(lex_le(x.0@, out0[k2 - 1].0@));
            } else {
                assert(lex_le(out0[k1 - 1].0@, out0[k2 - 1].0@));
            }
        }
        assert(out@ == out0.insert(p as int, x));
    }
}

/// Relies on chrono's `Utc::now` and `DateTime::format`: renders the
/// current UTC date as `YYYY-MM-DD`.  The result depends on the clock, so
/// nothing is stated of it.
#[verifier::external_body]
fn today_string() -> String {
    chrono::Utc::now().format("%Y-%m-%d").to_string()
}

/// The alias registry: an ordered association of unique names to entries.
pub struct Config {
    pub aliases: Vec<(String, AliasEntry)>,
}

impl Config {
    /// The registry's invariant: no name is bound twice.
    pub open spec fn wf(&self) -> bool {
        unique_names(self.aliases@)
    }

    /// An empty registry.
    pub fn new() -> (r: Config)
        ensures
            r.aliases@.len() == 0,
            r.wf(),
    {
        Config { aliases: Vec::new() }
    }

    /// The position of the entry bound to `name`, when one exists.
    fn find_index(&self, name: &str) -> (r: Option<usize>)
        ensures
            match r {
                Some(i) => i < self.aliases@.len() && self.aliases@[i as int].0@ == name@
                    && spec_lookup(self.aliases@, name@) == Some(self.aliases@[i as int].1),
                None => spec_lookup(self.aliases@, name@) is None,
            },
    {
        let n = self.aliases.len();
        let mut i: usize = 0;
        proof {
            assert(self.aliases@.skip(0) =~= self.aliases@);
        }
        while i < n
            invariant
                i <= n,
                n == self.aliases@.len(),
                spec_lookup(self.aliases@, name@) == spec_lookup(
                    self.aliases@.skip(i as int),
                    name@,
                ),
            decreases n - i,
        {
            proof {
                assert(self.aliases@.skip(i as int)[0] == self.aliases@[i as int]);
                assert(self.aliases@.skip(i as int).drop_first() =~= self.aliases@.skip(i + 1));
            }
            if crate::text::str_eq(self.aliases[i].0.as_str(), name) {
                return Some(i);
            }
            i = i + 1;
        }
        proof {
            assert(self.aliases@.skip(n as int) =~= Seq::<(String, AliasEntry)>::empty());
        }
        None
    }

    /// Registers or overwrites an alias.  A reserved name (starting with
    /// `--` or `.`, or containing `mgr:`) is refused.  When the name is
    /// already bound and `force` is not set, nothing changes and `Ok(false)`
    /// asks the caller to confirm; otherwise the binding is written and
    /// `Ok(true)` is returned.  No other binding changes.
    pub fn add_alias(
        &mut self,
        name: String,
        command_type: CommandType,
        description: Option<String>,
        force: bool,
    ) -> (r: Result<bool, String>)
        requires
            old(self).wf(),
        ensures
            final(self).wf(),
            r is Err <==> spec_reserved_name(name@),
            r is Err ==> *final(self) == *old(self) && r->Err_0@ == (("Invalid alias name '"@
                + name@) + "': cannot use reserved prefixes"@),
            (!spec_reserved_name(name@) && spec_lookup(old(self).aliases@, name@) is Some
                && !force) ==> r == Ok::<bool, String>(false) && *final(self) == *old(self),
            (!spec_reserved_name(name@) && (spec_lookup(old(self).aliases@, name@) is None
                || force)) ==> r == Ok::<bool, String>(true) && (spec_lookup(
                final(self).aliases@,
                name@,
            ) matches Some(e) && e.command_type == command_type && e.description == description)
                && (forall|other: Seq<char>|
                other != name@ ==> #[trigger] spec_lookup(final(self).aliases@, other)
                    == spec_lookup(old(self).aliases@, other)),
    {
        if str_starts_with(name.as_str(), "--") || str_contains_str(name.as_str(), "mgr:")
            || str_starts_with(name.as_str(), ".") {
            let mut m = String::from_str("Invalid alias name '");
            m.append(name.as_str());
            m.append("': cannot use reserved prefixes");
            return Err(m);
        }
        let found = self.find_index(name.as_str());
        match found {
            Some(i) => {
                if !force {
                    return Ok(false);
                }
                let entry = AliasEntry { command_type, description, created: today_string() };
                let ghost entries0 = self.aliases@;
                let ghost namev = name@;
                let pair = (name, entry);
                let ghost pairg = pair;
                self.aliases[i] = pair;
                proof {
                    assert(self.aliases@ =~= entries0.update(i as int, pairg));
                    lemma_lookup_update(entries0, i as int, pairg);
                    assert(forall|p: int, q: int|
                        0 <= p < q < self.aliases@.len() ==> self.aliases@[p].0@
                            != self.aliases@[q].0@) by {
                        assert(forall|k: int|
                            0 <= k < self.aliases@.len() ==> self.aliases@[k].0@
                                == entries0[k].0@);
                    }
                }
                Ok(true)
            },
            None => {
                let entry = AliasEntry { command_type, description, created: today_string() };
                let ghost entries0 = self.aliases@;
                let ghost namev = name@;
                let pair = (name, entry);
                let ghost pairg = pair;
                self.aliases.push(pair);
                proof {
                    lemma_lookup_push(entries0, pairg);
                    lemma_lookup_none_absent(entries0, namev);
                    assert(self.aliases@ =~= entries0.push(pairg));
                    assert(forall|p: int, q: int|
                        0 <= p < q < self.aliases@.len() ==> self.aliases@[p].0@
                            != self.aliases@[q].0@) by {
                        assert(forall|k: int|
                            0 <= k < entries0.len() ==> self.aliases@[k] == entries0[k]);
                    }
                }
                Ok(true)
            },
        }
    }

    /// Unregisters an alias.  When the name is bound the binding disappears
    /// and no other changes; when it is not, the registry is untouched and
    /// the error names the alias.
    pub fn remove_alias(&mut self, name: &str) -> (r: Result<(), String>)
        requires
            old(self).wf(),
        ensures
            final(self).wf(),
            r is Ok <==> spec_lookup(old(self).aliases@, name@) is Some,
            r is Ok ==> spec_lookup(final(self).aliases@, name@) is None && (forall|
                other: Seq<char>,
            |
                other != name@ ==> #[trigger] spec_lookup(final(self).aliases@, other)
                    == spec_lookup(old(self).aliases@, other)),
            r is Err ==> *final(self) == *old(self) && r->Err_0@ == (("Alias '"@ + name@)
                + "' not found"@),
    {
        let found = self.find_index(name);
        match found {
            Some(i) => {
                let ghost entries0 = self.aliases@;
                self.aliases.remove(i);
                proof {
                    assert(self.aliases@ =~= entries0.remove(i as int));
                    lemma_lookup_remove(entries0, i as int, name@);
                    assert(forall|p: int, q: int|
                        0 <= p < q < self.aliases@.len() ==> self.aliases@[p].0@
                            != self.aliases@[q].0@) by {
                        assert(forall|k: int|
                            0 <= k < self.aliases@.len() ==> (if k < i {
                                self.aliases@[k] == entries0[k]
                            } else {
                                self.aliases@[k] == entries0[k + 1]
                            }));
                    }
                }
                Ok(())
            },
            None => {
                let mut m = String::from_str("Alias '");
                m.append(name);
                m.append("' not found");
                Err(m)
            },
        }
    }

    /// Sorted, filtered listing: exactly the entries whose name passes the
    /// filter, in lexicographic name order, each name at most once.
    pub fn list_aliases<'a>(&'a self, filter: Option<&str>) -> (r: Vec<(&'a String, &'a AliasEntry)>)
        requires
            self.wf(),
        ensures
            forall|k: int|
                0 <= k < r@.len() ==> #[trigger] listed_pair(
                    self.aliases@,
                    r@[k],
                    self.aliases@.len() as int,
                    filter,
                ),
            forall|j: int|
                0 <= j < self.aliases@.len() && #[trigger] filter_match(
                    self.aliases@[j].0@,
                    filter,
                ) ==> entry_listed(r@, self.aliases@, j),
            forall|k1: int, k2: int| 0 <= k1 < k2 < r@.len() ==> lex_le(r@[k1].0@, r@[k2].0@),
            forall|k1: int, k2: int| 0 <= k1 < k2 < r@.len() ==> r@[k1].0@ != r@[k2].0@,
    {
        let n = self.aliases.len();
        let mut out: Vec<(&String, &AliasEntry)> = Vec::new();
        let mut i: usize = 0;
        while i < n
            invariant
                i <= n,
                n == self.aliases@.len(),
                unique_names(self.aliases@),
                forall|k: int|
                    0 <= k < out@.len() ==> #[trigger] listed_pair(
                        self.aliases@,
                        out@[k],
                        i as int,
                        filter,
                    ),
                forall|j: int|
                    0 <= j < i && #[trigger] filter_match(self.aliases@[j].0@, filter)
                        ==> entry_listed(out@, self.aliases@, j),
                forall|k1: int, k2: int| 0 <= k1 < k2 < out@.len() ==> lex_le(
                    out@[k1].0@,
                    out@[k2].0@,
                ),
                forall|k1: int, k2: int| 0 <= k1 < k2 < out@.len() ==> out@[k1].0@ != out@[k2].0@,
            decreases n - i,
        {
            let pair = &self.aliases[i];
            let keep = match filter {
                Option::Some(pattern) => str_contains_str(pair.0.as_str(), pattern),
                Option::None => true,
            };
            proof {
                assert(keep == filter_match(self.aliases@[i as int].0@, filter));
            }
            if keep {
                proof {
                    assert forall|k: int| 0 <= k < out@.len() implies out@[k].0@
                        != self.aliases@[i as int].0@ by {
                        assert(listed_pair(self.aliases@, out@[k], i as int, filter));
                        lemma_listed_name_differs(self.aliases@, out@[k], i as int, filter);
                    }
                }
                let ghost out0 = out@;
                let xpair = (&pair.0, &pair.1);
                insert_sorted(&mut out, xpair);
                proof {
                    let p = choose|p: int| 0 <= p <= out0.len() && out@ == out0.insert(p, xpair);
                    lemma_listing_extend(
                        self.aliases@,
                        out0,
                        out@,
                        xpair,
                        p,
                        i as int,
                        filter,
                    );
                }
            } else {
                proof {
                    assert forall|k: int| 0 <= k < out@.len() implies #[trigger] listed_pair(
                        self.aliases@,
                        out@[k],
                        i + 1,
                        filter,
                    ) by {
                        lemma_listed_pair_widen(self.aliases@, out@[k], i as int, i + 1, filter);
                    }
                }
            }
            i = i + 1;
        }
        out
    }

    /// The entry bound to `name`, when one exists.
    pub fn get_alias(&self, name: &str) -> (r: Option<&AliasEntry>)
        ensures
            match spec_lookup(self.aliases@, name@) {
                Some(e) => r matches Some(re) && *re == e,
                None => r is None,
            },
    {
        match self.find_index(name) {
            Some(i) => Some(&self.aliases[i].1),
            None => None,
        }
    }
}

} // verus!
