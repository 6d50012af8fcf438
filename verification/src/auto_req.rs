//! The discovery policy: which automatic requires-detection method a run
//! uses, and how the chosen method's findings accumulate into one
//! deterministic requirement set.

use vstd::prelude::*;

use crate::cli;
use crate::strutil::lemma_lex_lt_irreflexive;
use crate::strutil::lemma_lex_lt_transitive;
use crate::strutil::lemma_lex_lt_trichotomy;
use crate::strutil::lex_lt;
use crate::strutil::str_eq;
use crate::strutil::str_lt;

verus! {

/// The requested discovery method.
#[derive(Debug, Clone, PartialEq, Eq)]
pub enum AutoReqMode {
    /// Use the system `find-requires` script when it exists, the builtin
    /// analysis otherwise.
    Auto,
    /// Discover nothing.
    Disabled,
    /// Delegate to the named external program.
    Script(String),
    /// Use the builtin ELF and shebang analysis.
    BuiltIn,
}

/// What a discovery run actually does, once `Auto` is resolved.
#[derive(Debug, Clone, PartialEq, Eq)]
pub enum AutoReqPlan {
    /// Report the empty set without touching any file or process.
    NoDiscovery,
    /// Feed all candidate paths to the named external program.
    RunScript(String),
    /// Analyze each candidate with the builtin ELF and shebang analysis.
    RunBuiltin,
}

/// The path of the system-provided dependency finder that `Auto` mode probes
/// for.
pub fn rpm_find_requires_path() -> (r: &'static str)
    ensures
        r@ == "/usr/lib/rpm/find-requires"@,
{
    "/usr/lib/rpm/find-requires"
}

impl AutoReqMode {
    /// The discovery method a command-line mode value selects.
    pub fn from_cli(value: cli::AutoReqMode) -> (r: Self)
        ensures
            match value {
                cli::AutoReqMode::Auto => r == AutoReqMode::Auto,
                cli::AutoReqMode::Disabled => r == AutoReqMode::Disabled,
                cli::AutoReqMode::Builtin => r == AutoReqMode::BuiltIn,
                cli::AutoReqMode::FindRequires => r matches AutoReqMode::Script(p) && p@
                    == "/usr/lib/rpm/find-requires"@,
                cli::AutoReqMode::Script(path) => r matches AutoReqMode::Script(p) && p@ == path@,
            },
    {
        match value {
            cli::AutoReqMode::Auto => AutoReqMode::Auto,
            cli::AutoReqMode::Disabled => AutoReqMode::Disabled,
            cli::AutoReqMode::Builtin => AutoReqMode::BuiltIn,
            cli::AutoReqMode::FindRequires => AutoReqMode::Script(
                String::from_str(rpm_find_requires_path()),
            ),
            cli::AutoReqMode::Script(path) => AutoReqMode::Script(path),
        }
    }
}

/// How one discovery run proceeds.  `Disabled` yields no work at all: the
/// driver performs no process spawn and no file read, and the requirement set
/// stays empty.  `Auto` resolves once, from whether the system dependency
/// finder exists, which the caller reports in `finder_script_exists`.
pub fn plan_auto_req(mode: AutoReqMode, finder_script_exists: bool) -> (r: AutoReqPlan)
    ensures
        match mode {
            AutoReqMode::Disabled => r == AutoReqPlan::NoDiscovery,
            AutoReqMode::BuiltIn => r == AutoReqPlan::RunBuiltin,
            AutoReqMode::Script(p) => r matches AutoReqPlan::RunScript(q) && q@ == p@,
            AutoReqMode::Auto => if finder_script_exists {
                r matches AutoReqPlan::RunScript(q) && q@ == "/usr/lib/rpm/find-requires"@
            } else {
                r == AutoReqPlan::RunBuiltin
            },
        },
{
    match mode {
        AutoReqMode::Disabled => AutoReqPlan::NoDiscovery,
        AutoReqMode::BuiltIn => AutoReqPlan::RunBuiltin,
        AutoReqMode::Script(p) => AutoReqPlan::RunScript(p),
        AutoReqMode::Auto => {
            if finder_script_exists {
                AutoReqPlan::RunScript(String::from_str(rpm_find_requires_path()))
            } else {
                AutoReqPlan::RunBuiltin
            }
        },
    }
}

/// The requirement strings in strictly increasing lexicographic order:
/// sorted, and therefore free of duplicates.
pub open spec fn sorted_requires(s: Seq<Seq<char>>) -> bool {
    forall|i: int, j: int| 0 <= i < j < s.len() ==> lex_lt(#[trigger] s[i], #[trigger] s[j])
}

/// Inserts `item` into the sorted requirement list `v`, keeping it sorted and
/// duplicate-free.  A requirement that is already present leaves the list
/// unchanged.
pub fn insert_require(v: &mut Vec<String>, item: String)
    requires
        sorted_requires(old(v).deep_view()),
    ensures
        sorted_requires(final(v).deep_view()),
        forall|e: Seq<char>|
            #[trigger] final(v).deep_view().contains(e) <==> (old(v).deep_view().contains(e) || e
                == item@),
        old(v).deep_view().contains(item@) ==> final(v)@ == old(v)@,
{
    let len = v.len();
    let mut i: usize = 0;
    while i < len && str_lt(v[i].as_str(), item.as_str())
        invariant
            len == v.len(),
            0 <= i <= len,
            sorted_requires(v.deep_view()),
            forall|j: int| 0 <= j < i ==> lex_lt(#[trigger] v.deep_view()[j], item@),
        decreases len - i,
    {
        i = i + 1;
    }
    if i < len && str_eq(v[i].as_str(), item.as_str()) {
        proof {
            assert(v.deep_view()[i as int] == item@);
            assert(v.deep_view().contains(item@));
        }
        return ;
    }
    let ghost before = v.deep_view();
    proof {
        if before.contains(item@) {
            let k = choose|k: int| 0 <= k < before.len() && before[k] == item@;
            lemma_lex_lt_irreflexive(item@);
            if k < i {
                assert(lex_lt(before[k], item@));
            } else if k > i {
                assert(i < len);
                assert(!lex_lt(before[i as int], item@));
                lemma_lex_lt_trichotomy(before[i as int], item@);
                lemma_lex_lt_transitive(item@, before[i as int], before[k]);
            }
        }
    }
    v.insert(i, item);
    proof {
        let after = v.deep_view();
        assert(after.len() == before.len() + 1);
        assert forall|j: int| 0 <= j < after.len() implies after[j] == (if j < i {
            before[j]
        } else if j == i {
            item@
        } else {
            before[j - 1]
        }) by {
            assert(v@ == old(v)@.insert(i as int, item));
        }
        assert forall|p: int, q: int| 0 <= p < q < after.len() implies lex_lt(
            after[p],
            after[q],
        ) by {
            if q == i {
                assert(lex_lt(before[p], item@));
            } else if p == i {
                assert(q > i);
                if i < len {
                    assert(!lex_lt(before[i as int], item@));
                    assert(before[i as int] != item@);
                    lemma_lex_lt_trichotomy(before[i as int], item@);
                    if q - 1 > i {
                        lemma_lex_lt_transitive(item@, before[i as int], before[q - 1]);
                    }
                }
            } else if p < i && q > i {
                assert(lex_lt(before[p], before[q - 1])) by {
                    if p == q - 1 {
                        assert(false);
                    }
                }
            }
        }
        assert forall|e: Seq<char>| after.contains(e) implies (before.contains(e) || e
            == item@) by {
            let k = choose|k: int| 0 <= k < after.len() && after[k] == e;
            if k < i {
                assert(before[k] == e);
                assert(before.contains(e));
            } else if k > i {
                assert(before[k - 1] == e);
                assert(before.contains(e));
            }
        }
        assert forall|e: Seq<char>| before.contains(e) || e == item@ implies after.contains(
            e,
        ) by {
            if e == item@ {
                assert(after[i as int] == e);
            } else if before.contains(e) {
                let k = choose|k: int| 0 <= k < before.len() && before[k] == e;
                if k < i {
                    assert(after[k] == e);
                } else {
                    assert(after[k + 1] == e);
                }
            }
        }
    }
}

/// Adds every requirement of `more` to the sorted set `acc`.  The result is
/// sorted, and holds exactly the union of the two membership sets.
pub fn merge_requires(acc: &mut Vec<String>, more: &Vec<String>)
    requires
        sorted_requires(old(acc).deep_view()),
    ensures
        sorted_requires(final(acc).deep_view()),
        forall|e: Seq<char>|
            #[trigger] final(acc).deep_view().contains(e) <==> (old(acc).deep_view().contains(e)
                || more.deep_view().contains(e)),
{
    let len = more.len();
    let mut i: usize = 0;
    while i < len
        invariant
            len == more.len(),
            0 <= i <= len,
            sorted_requires(acc.deep_view()),
            forall|e: Seq<char>|
                acc.deep_view().contains(e) <==> (old(acc).deep_view().contains(e)
                    || more.deep_view().take(i as int).contains(e)),
        decreases len - i,
    {
        let item = more[i].clone();
        proof {
            assert(item@ == more.deep_view()[i as int]);
        }
        insert_require(acc, item);
        proof {
            let t = more.deep_view().take(i + 1);
            assert(t.drop_last() =~= more.deep_view().take(i as int));
            assert(t.last() == more.deep_view()[i as int]);
            assert forall|e: Seq<char>| t.contains(e) implies (more.deep_view().take(
                i as int,
            ).contains(e) || e == more.deep_view()[i as int]) by {
                let k = choose|k: int| 0 <= k < t.len() && t[k] == e;
                if k < i {
                    assert(more.deep_view().take(i as int)[k] == e);
                }
            }
            assert forall|e: Seq<char>|
                more.deep_view().take(i as int).contains(e) implies t.contains(e) by {
                let k = choose|k: int|
                    0 <= k < i && more.deep_view().take(i as int)[k] == e;
                assert(t[k] == e);
            }
            assert(t.contains(more.deep_view()[i as int])) by {
                assert(t[i as int] == more.deep_view()[i as int]);
            }
        }
        i = i + 1;
    }
    proof {
        assert(more.deep_view().take(len as int) =~= more.deep_view());
    }
}

/// Discovery is idempotent at the set level: a sorted requirement list that
/// holds the same members as another — as after merging a set into itself —
/// is that list.  Two runs over the same inputs therefore report the
/// identical requirement list, not merely an equivalent one.
pub proof fn lemma_merge_requires_idempotent(acc: Seq<Seq<char>>, merged: Seq<Seq<char>>)
    requires
        sorted_requires(acc),
        sorted_requires(merged),
        forall|e: Seq<char>| merged.contains(e) <==> acc.contains(e),
    ensures
        merged == acc,
{
    lemma_sorted_unique_representation(acc, merged);
}

/// Two sorted, duplicate-free requirement lists with the same members are the
/// same list: the sorted set is a canonical representation.
pub proof fn lemma_sorted_unique_representation(a: Seq<Seq<char>>, b: Seq<Seq<char>>)
    requires
        sorted_requires(a),
        sorted_requires(b),
        forall|e: Seq<char>| a.contains(e) <==> b.contains(e),
    ensures
        a == b,
    decreases a.len(),
{
    if a.len() == 0 {
        if b.len() != 0 {
            assert(a.contains(b[0]));
        }
        assert(a =~= b);
    } else {
        assert(b.contains(a[0])) by {
            assert(a.contains(a[0]));
        }
        assert(a.contains(b[0])) by {
            assert(b.contains(b[0]));
        }
        let ka = choose|k: int| 0 <= k < b.len() && b[k] == a[0];
        let kb = choose|k: int| 0 <= k < a.len() && a[k] == b[0];
        assert(a[0] == b[0]) by {
            if lex_lt(a[0], b[0]) {
                // b[0] <= b[ka] == a[0] < b[0]: impossible
                if ka > 0 {
                    assert(lex_lt(b[0], b[ka]));
                    lemma_lex_lt_transitive(a[0], b[0], b[ka]);
                    lemma_lex_lt_irreflexive(a[0]);
                } else {
                    lemma_lex_lt_irreflexive(a[0]);
                }
            } else if lex_lt(b[0], a[0]) {
                if kb > 0 {
                    assert(lex_lt(a[0], a[kb]));
                    lemma_lex_lt_transitive(b[0], a[0], a[kb]);
                    lemma_lex_lt_irreflexive(b[0]);
                } else {
                    lemma_lex_lt_irreflexive(b[0]);
                }
            } else {
                lemma_lex_lt_trichotomy(a[0], b[0]);
            }
        }
        let ta = a.drop_first();
        let tb = b.drop_first();
        assert forall|e: Seq<char>| ta.contains(e) implies tb.contains(e) by {
            let k = choose|k: int| 0 <= k < ta.len() && ta[k] == e;
            assert(a[k + 1] == e);
            assert(a.contains(e));
            let m = choose|m: int| 0 <= m < b.len() && b[m] == e;
            assert(e != b[0]) by {
                assert(lex_lt(a[0], a[k + 1]));
                lemma_lex_lt_irreflexive(a[0]);
            }
            assert(m > 0);
            assert(tb[m - 1] == e);
        }
        assert forall|e: Seq<char>| tb.contains(e) implies ta.contains(e) by {
            let k = choose|k: int| 0 <= k < tb.len() && tb[k] == e;
            assert(b[k + 1] == e);
            assert(b.contains(e));
            let m = choose|m: int| 0 <= m < a.len() && a[m] == e;
            assert(e != a[0]) by {
                assert(lex_lt(b[0], b[k + 1]));
                lemma_lex_lt_irreflexive(b[0]);
            }
            assert(m > 0);
            assert(ta[m - 1] == e);
        }
        assert(sorted_requires(ta)) by {
            assert(forall|p: int, q: int|
                0 <= p < q < ta.len() ==> lex_lt(#[trigger] ta[p], #[trigger] ta[q]));
        }
        assert(sorted_requires(tb)) by {
            assert(forall|p: int, q: int|
                0 <= p < q < tb.len() ==> lex_lt(#[trigger] tb[p], #[trigger] tb[q]));
        }
        lemma_sorted_unique_representation(ta, tb);
        assert(a =~= seq![a[0]] + ta);
        assert(b =~= seq![b[0]] + tb);
    }
}

} // verus!
