//! The library's general guarantees, stated and proved over the same spec
//! functions its contracts use.

use vstd::prelude::*;

use crate::config::{app_join, cfg_compat, cfg_join, ConfigM};
use crate::project::{effective_default, join_apps, ProjectIncludeView};
use crate::runner::{
    classify, find_match, query_of, resolve_tokens, RunnerEntryView,
};

verus! {

/// Merging two map configs with disjoint keys yields the union of both,
/// with no data loss: every key of either side is present and keeps its
/// own value, and no other key appears.
pub proof fn lemma_config_merge_disjoint(a: Map<Seq<char>, Seq<char>>, b: Map<Seq<char>, Seq<char>>)
    requires
        a.dom().disjoint(b.dom()),
    ensures
        cfg_compat(ConfigM::Table { entries: a }, ConfigM::Table { entries: b }),
        cfg_join(ConfigM::Table { entries: a }, ConfigM::Table { entries: b })
            == (ConfigM::Table { entries: a.union_prefer_right(b) }),
        forall|k: Seq<char>| #[trigger]
            a.contains_key(k) ==> a.union_prefer_right(b).contains_key(k)
                && a.union_prefer_right(b)[k] == a[k],
        forall|k: Seq<char>| #[trigger]
            b.contains_key(k) ==> a.union_prefer_right(b).contains_key(k)
                && a.union_prefer_right(b)[k] == b[k],
        forall|k: Seq<char>| #[trigger]
            a.union_prefer_right(b).contains_key(k) ==> a.contains_key(k) || b.contains_key(k),
{
    assert forall|k: Seq<char>| #[trigger]
        a.contains_key(k) implies a.union_prefer_right(b).contains_key(k)
        && a.union_prefer_right(b)[k] == a[k] by {
        assert(!b.contains_key(k));
    }
}

/// When both sides of an application merge hold the same section key, the
/// merged section is the override's value — unless both are maps, in which
/// case they union one level deeper, the override winning per key.
pub proof fn lemma_application_merge_overlap(
    a: Map<Seq<char>, ConfigM>,
    b: Map<Seq<char>, ConfigM>,
    k: Seq<char>,
)
    requires
        a.contains_key(k),
        b.contains_key(k),
    ensures
        crate::config::join_sections(a, b).contains_key(k),
        crate::config::join_sections(a, b)[k] == cfg_join(a[k], b[k]),
        b[k] is Single ==> crate::config::join_sections(a, b)[k] == b[k],
        (a[k] is Table && b[k] is Table) ==> ({
            let x = table_of(a[k]);
            let y = table_of(b[k]);
            &&& cfg_join(a[k], b[k]) == (ConfigM::Table { entries: x.union_prefer_right(y) })
            &&& forall|q: Seq<char>| #[trigger]
                y.contains_key(q) ==> x.union_prefer_right(y).contains_key(q)
                    && x.union_prefer_right(y)[q] == y[q]
            &&& forall|q: Seq<char>|
                x.contains_key(q) && !(#[trigger] y.contains_key(q)) ==> x.union_prefer_right(
                    y,
                ).contains_key(q) && x.union_prefer_right(y)[q] == x[q]
        }),
{
}

/// The entries of a map config; the empty map for a scalar.
pub open spec fn table_of(m: ConfigM) -> Map<Seq<char>, Seq<char>> {
    match m {
        ConfigM::Table { entries } => entries,
        ConfigM::Single { .. } => Map::empty(),
    }
}

/// A map config and a scalar config are never compatible, in either
/// order: merging them is exactly the `IncompatibleConfigType` error of
/// [`crate::config::Config::merge`], never a silent coercion.
pub proof fn lemma_config_merge_mixed_kind_fails(a: ConfigM, b: ConfigM)
    requires
        (a is Table && b is Single) || (a is Single && b is Table),
    ensures
        !cfg_compat(a, b),
{
}

/// The effective runner default list is the one declared by the last
/// include that declares a runner at all: with includes `[A, B]` both
/// declaring one, `B`'s list stands alone, never a union with `A`'s.
pub proof fn lemma_runner_default_last_wins(
    root: Seq<RunnerEntryView>,
    incs: Seq<ProjectIncludeView>,
    j: int,
)
    requires
        0 <= j < incs.len(),
        incs[j].runner is Some,
        forall|i: int| j < i < incs.len() ==> (#[trigger] incs[i].runner) is None,
    ensures
        effective_default(root, incs) == incs[j].runner->0,
    decreases incs.len(),
{
    if j == incs.len() - 1 {
    } else {
        assert(incs.last().runner is None);
        assert(incs.drop_last()[j] == incs[j]);
        lemma_runner_default_last_wins(root, incs.drop_last(), j);
    }
}

/// A token whose name matches nothing in the alias table fails the whole
/// resolution: no partial entry list ever comes back.
pub proof fn lemma_unmatched_token_fails(
    valid: Seq<RunnerEntryView>,
    toks: Seq<Seq<char>>,
    i: int,
)
    requires
        0 <= i < toks.len(),
        find_match(valid, query_of(classify(toks[i]).1)) is None,
    ensures
        resolve_tokens(valid, toks) is Err,
    decreases toks.len(),
{
    if i == toks.len() - 1 {
    } else {
        assert(toks.drop_last()[i] == toks[i]);
        lemma_unmatched_token_fails(valid, toks.drop_last(), i);
    }
}

/// Merging two `apps` tables keeps every name of both sides: a name only
/// the override holds is inserted as it stands, a name only the base holds
/// is untouched, and a shared name holds the merge of its two
/// applications.
pub proof fn lemma_apps_merge_union(
    a: Map<Seq<char>, Option<Map<Seq<char>, ConfigM>>>,
    b: Map<Seq<char>, Option<Map<Seq<char>, ConfigM>>>,
    k: Seq<char>,
)
    ensures
        join_apps(a, b).contains_key(k) <==> a.contains_key(k) || b.contains_key(k),
        a.contains_key(k) && b.contains_key(k) ==> join_apps(a, b)[k] == app_join(a[k], b[k]),
        !a.contains_key(k) && b.contains_key(k) ==> join_apps(a, b)[k] == b[k],
        a.contains_key(k) && !b.contains_key(k) ==> join_apps(a, b)[k] == a[k],
{
}

} // verus!
