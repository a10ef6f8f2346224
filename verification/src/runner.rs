//! Runner entries, their alias table, and token resolution.
//!
//! A [`Runner`] carries `valid`, the closed alias table, and `default`, the
//! entries active when no token says otherwise. Matching is case-insensitive
//! against either alias. Resolution classifies each token by its leading
//! sigil (`+name` adds, `-name` removes, a bare `name` adds), validates the
//! name against the alias table, and yields the default list followed by the
//! explicit additions, with every removed entry filtered out.

use vstd::prelude::*;
use vstd::string::*;

use crate::errors::{ErrorView, ProjectError};

verus! {

/// What `str::to_lowercase` returns for a given character sequence.
pub uninterp spec fn lower_of(s: Seq<char>) -> Seq<char>;

/// Relies on `str::to_lowercase`: its result is a function of the input
/// characters alone, so equal strings lower equally, which is all the
/// case-insensitive alias matching below needs.
#[verifier::external_body]
fn lowercase(s: &str) -> (r: String)
    ensures
        r@ == lower_of(s@),
{
    s.to_lowercase()
}

/// Spec-level image of a [`RunnerEntry`].
pub ghost struct RunnerEntryView {
    pub long: Seq<char>,
    pub short: Seq<char>,
}

/// A named unit that can be toggled into or out of a run: a long alias and
/// a short one.
#[derive(Debug, PartialEq, Eq)]
pub struct RunnerEntry {
    pub long: String,
    pub short: String,
}

impl View for RunnerEntry {
    type V = RunnerEntryView;

    open spec fn view(&self) -> RunnerEntryView {
        RunnerEntryView { long: self.long@, short: self.short@ }
    }
}

impl Clone for RunnerEntry {
    fn clone(&self) -> (r: Self)
        ensures
            r == *self,
    {
        RunnerEntry { long: self.long.clone(), short: self.short.clone() }
    }
}

impl RunnerEntry {
    /// The entry a bare alias denotes: both aliases are that name.
    pub fn from_name(name: &str) -> (r: Self)
        ensures
            r@.long == name@,
            r@.short == name@,
    {
        RunnerEntry { long: name.to_owned(), short: name.to_owned() }
    }

    /// The entry an explicit pair denotes; the short alias defaults to the
    /// long one when omitted.
    pub fn from_parts(long: String, short: Option<String>) -> (r: Self)
        ensures
            r@.long == long@,
            r@.short == match short {
                Some(s) => s@,
                None => long@,
            },
    {
        match short {
            Some(s) => RunnerEntry { long, short: s },
            None => {
                let copy = long.clone();
                RunnerEntry { long, short: copy }
            },
        }
    }
}

/// The views of a list of entries.
pub open spec fn entry_views(s: Seq<RunnerEntry>) -> Seq<RunnerEntryView> {
    s.map_values(|e: RunnerEntry| e@)
}

/// The views of a list of strings.
pub open spec fn str_views(s: Seq<String>) -> Seq<Seq<char>> {
    s.map_values(|x: String| x@)
}

/// `query` matches the table entry `candidate`: the long aliases agree, or
/// the short aliases agree, case-insensitively.
pub open spec fn entry_matches(candidate: RunnerEntryView, query: RunnerEntryView) -> bool {
    lower_of(query.long) == lower_of(candidate.long) || lower_of(query.short) == lower_of(
        candidate.short,
    )
}

/// The first entry of `valid` that `query` matches, if any.
pub open spec fn find_match(valid: Seq<RunnerEntryView>, query: RunnerEntryView) -> Option<
    RunnerEntryView,
>
    decreases valid.len(),
{
    if valid.len() == 0 {
        None
    } else if entry_matches(valid[0], query) {
        Some(valid[0])
    } else {
        find_match(valid.skip(1), query)
    }
}

/// Skipping entries that do not match leaves the search unchanged.
pub proof fn lemma_find_match_skip(valid: Seq<RunnerEntryView>, query: RunnerEntryView, i: int)
    requires
        0 <= i <= valid.len(),
        forall|j: int| 0 <= j < i ==> !entry_matches(#[trigger] valid[j], query),
    ensures
        find_match(valid, query) == find_match(valid.skip(i), query),
    decreases i,
{
    if i > 0 {
        assert(!entry_matches(valid[0], query));
        assert(find_match(valid, query) == find_match(valid.skip(1), query));
        assert forall|j: int| 0 <= j < i - 1 implies !entry_matches(
            #[trigger] valid.skip(1)[j],
            query,
        ) by {
            assert(valid.skip(1)[j] == valid[j + 1]);
        }
        lemma_find_match_skip(valid.skip(1), query, i - 1);
        assert(valid.skip(1).skip(i - 1) =~= valid.skip(i));
    } else {
        assert(valid.skip(0) =~= valid);
    }
}

/// Each default entry replaced by the first table entry it matches; the
/// first entry that matches nothing stops the walk, yielding its long alias.
pub open spec fn normalize_defaults(
    valid: Seq<RunnerEntryView>,
    defs: Seq<RunnerEntryView>,
) -> Result<Seq<RunnerEntryView>, Seq<char>>
    decreases defs.len(),
{
    if defs.len() == 0 {
        Ok(Seq::empty())
    } else {
        match normalize_defaults(valid, defs.drop_last()) {
            Ok(pre) => match find_match(valid, defs.last()) {
                Some(e) => Ok(pre.push(e)),
                None => Err(defs.last().long),
            },
            Err(x) => Err(x),
        }
    }
}

/// A failed prefix decides the whole walk.
pub proof fn lemma_normalize_err(
    valid: Seq<RunnerEntryView>,
    defs: Seq<RunnerEntryView>,
    i: int,
)
    requires
        0 <= i <= defs.len(),
        normalize_defaults(valid, defs.take(i)) is Err,
    ensures
        normalize_defaults(valid, defs) == normalize_defaults(valid, defs.take(i)),
    decreases defs.len() - i,
{
    if i == defs.len() {
        assert(defs.take(i) =~= defs);
    } else {
        assert(defs.take(i + 1).drop_last() =~= defs.take(i));
        lemma_normalize_err(valid, defs, i + 1);
    }
}

/// The sign and name a token denotes: `+name` is an addition, `-name` a
/// removal, and a bare name an addition.
pub open spec fn classify(t: Seq<char>) -> (bool, Seq<char>) {
    if t.len() > 0 && t[0] == '+' {
        (true, t.skip(1))
    } else if t.len() > 0 && t[0] == '-' {
        (false, t.skip(1))
    } else {
        (true, t)
    }
}

/// The query entry a bare name denotes: both aliases are the name.
pub open spec fn query_of(name: Seq<char>) -> RunnerEntryView {
    RunnerEntryView { long: name, short: name }
}

/// Every token classified and validated in order, each yielding its sign
/// and the canonical table entry it matches; the first token whose name
/// matches nothing stops the walk, yielding that name.
pub open spec fn resolve_tokens(
    valid: Seq<RunnerEntryView>,
    toks: Seq<Seq<char>>,
) -> Result<Seq<(bool, RunnerEntryView)>, Seq<char>>
    decreases toks.len(),
{
    if toks.len() == 0 {
        Ok(Seq::empty())
    } else {
        match resolve_tokens(valid, toks.drop_last()) {
            Ok(pre) => match find_match(valid, query_of(classify(toks.last()).1)) {
                Some(e) => Ok(pre.push((classify(toks.last()).0, e))),
                None => Err(classify(toks.last()).1),
            },
            Err(x) => Err(x),
        }
    }
}

/// A failed prefix decides the whole resolution.
pub proof fn lemma_resolve_err(valid: Seq<RunnerEntryView>, toks: Seq<Seq<char>>, i: int)
    requires
        0 <= i <= toks.len(),
        resolve_tokens(valid, toks.take(i)) is Err,
    ensures
        resolve_tokens(valid, toks) == resolve_tokens(valid, toks.take(i)),
    decreases toks.len() - i,
{
    if i == toks.len() {
        assert(toks.take(i) =~= toks);
    } else {
        assert(toks.take(i + 1).drop_last() =~= toks.take(i));
        lemma_resolve_err(valid, toks, i + 1);
    }
}

/// The canonical entries of the addition tokens, in token order.
pub open spec fn added_entries(p: Seq<(bool, RunnerEntryView)>) -> Seq<RunnerEntryView>
    decreases p.len(),
{
    if p.len() == 0 {
        Seq::empty()
    } else {
        if p.last().0 {
            added_entries(p.drop_last()).push(p.last().1)
        } else {
            added_entries(p.drop_last())
        }
    }
}

/// The canonical entries of the removal tokens.
pub open spec fn removed_entries(p: Seq<(bool, RunnerEntryView)>) -> Seq<RunnerEntryView>
    decreases p.len(),
{
    if p.len() == 0 {
        Seq::empty()
    } else {
        if !p.last().0 {
            removed_entries(p.drop_last()).push(p.last().1)
        } else {
            removed_entries(p.drop_last())
        }
    }
}

/// The long aliases of `entries` in order, with every entry present in
/// `removed` left out; duplicates are kept.
pub open spec fn run_names(entries: Seq<RunnerEntryView>, removed: Seq<RunnerEntryView>) -> Seq<
    Seq<char>,
>
    decreases entries.len(),
{
    if entries.len() == 0 {
        Seq::empty()
    } else {
        if removed.contains(entries.last()) {
            run_names(entries.drop_last(), removed)
        } else {
            run_names(entries.drop_last(), removed).push(entries.last().long)
        }
    }
}

/// The views of a processed token list.
pub open spec fn proc_views(s: Seq<(bool, RunnerEntry)>) -> Seq<(bool, RunnerEntryView)> {
    s.map_values(|p: (bool, RunnerEntry)| (p.0, p.1@))
}

/// Whether the list holds an entry with the same aliases as `e`.
pub fn contains_entry(v: &Vec<RunnerEntry>, e: &RunnerEntry) -> (r: bool)
    ensures
        r == entry_views(v@).contains(e@),
{
    let mut i: usize = 0;
    while i < v.len()
        invariant
            i <= v@.len(),
            forall|j: int| 0 <= j < i ==> #[trigger] entry_views(v@)[j] != e@,
        decreases v@.len() - i,
    {
        if v[i].long.eq(&e.long) && v[i].short.eq(&e.short) {
            proof {
                assert(entry_views(v@)[i as int] == e@);
                assert(entry_views(v@).contains(e@));
            }
            return true;
        }
        proof {
            assert(entry_views(v@)[i as int] != e@);
        }
        i = i + 1;
    }
    proof {
        if entry_views(v@).contains(e@) {
            let j = choose|j: int| 0 <= j < entry_views(v@).len() && entry_views(v@)[j] == e@;
            assert(false);
        }
    }
    false
}

/// Spec-level image of a [`Runner`].
pub ghost struct RunnerView {
    pub valid: Seq<RunnerEntryView>,
    pub default: Seq<RunnerEntryView>,
}

/// The alias table and the default entry list.
#[derive(Debug, PartialEq)]
pub struct Runner {
    pub valid: Vec<RunnerEntry>,
    pub default: Vec<RunnerEntry>,
}

impl View for Runner {
    type V = RunnerView;

    open spec fn view(&self) -> RunnerView {
        RunnerView { valid: entry_views(self.valid@), default: entry_views(self.default@) }
    }
}

/// The runner fragment an include document may carry: only a `default`
/// list, never an alias table.
#[derive(Debug, PartialEq)]
pub struct RunnerInclude {
    pub default: Vec<RunnerEntry>,
}

impl View for RunnerInclude {
    type V = Seq<RunnerEntryView>;

    open spec fn view(&self) -> Seq<RunnerEntryView> {
        entry_views(self.default@)
    }
}

impl Clone for RunnerInclude {
    fn clone(&self) -> (r: Self)
        ensures
            r@ == self@,
    {
        RunnerInclude { default: clone_entries(&self.default) }
    }
}

/// Copies an entry list.
pub fn clone_entries(v: &Vec<RunnerEntry>) -> (r: Vec<RunnerEntry>)
    ensures
        r@ == v@,
{
    let mut r: Vec<RunnerEntry> = Vec::new();
    let mut i: usize = 0;
    while i < v.len()
        invariant
            i <= v@.len(),
            r@ =~= v@.take(i as int),
        decreases v@.len() - i,
    {
        r.push(v[i].clone());
        i = i + 1;
    }
    proof {
        assert(v@.take(v@.len() as int) =~= v@);
    }
    r
}

impl Default for Runner {
    /// An empty alias table with an empty default list.
    fn default() -> (r: Self)
        ensures
            r@.valid.len() == 0,
            r@.default.len() == 0,
    {
        Runner { valid: Vec::new(), default: Vec::new() }
    }
}

impl Runner {
    /// Finds the first alias-table entry that `entry` matches,
    /// case-insensitively on either alias; an entry that matches nothing is
    /// an `InvalidRunnerEntry` error naming its long alias.
    pub fn validate_entry(&self, entry: &RunnerEntry) -> (r: Result<RunnerEntry, ProjectError>)
        ensures
            match r {
                Ok(e) => find_match(self@.valid, entry@) == Some(e@),
                Err(err) => find_match(self@.valid, entry@) is None && err@ == (
                ErrorView::InvalidRunnerEntry { name: entry@.long }),
            },
    {
        let ghost vs = self@.valid;
        let query_long = lowercase(entry.long.as_str());
        let query_short = lowercase(entry.short.as_str());
        let mut i: usize = 0;
        while i < self.valid.len()
            invariant
                i <= vs.len(),
                vs == entry_views(self.valid@),
                query_long@ == lower_of(entry@.long),
                query_short@ == lower_of(entry@.short),
                forall|j: int| 0 <= j < i ==> !entry_matches(#[trigger] vs[j], entry@),
            decreases vs.len() - i,
        {
            let cand_long = lowercase(self.valid[i].long.as_str());
            let cand_short = lowercase(self.valid[i].short.as_str());
            if query_long.eq(&cand_long) || query_short.eq(&cand_short) {
                proof {
                    assert(entry_matches(vs[i as int], entry@));
                    lemma_find_match_skip(vs, entry@, i as int);
                    assert(vs.skip(i as int)[0] == vs[i as int]);
                }
                return Ok(self.valid[i].clone());
            }
            proof {
                assert(!entry_matches(vs[i as int], entry@));
            }
            i = i + 1;
        }
        proof {
            lemma_find_match_skip(vs, entry@, vs.len() as int);
            assert(vs.skip(vs.len() as int) =~= Seq::<RunnerEntryView>::empty());
        }
        Err(ProjectError::InvalidRunnerEntry { name: entry.long.clone() })
    }

    /// Replaces every default entry by the canonical table entry it
    /// matches; a default entry that matches nothing fails with
    /// `InvalidRunnerEntry`, leaving the runner unchanged.
    pub fn validate_and_normalize(&mut self) -> (r: Result<(), ProjectError>)
        ensures
            match r {
                Ok(()) => normalize_defaults(old(self)@.valid, old(self)@.default) is Ok
                    && final(self)@.valid == old(self)@.valid
                    && final(self)@.default == normalize_defaults(
                    old(self)@.valid,
                    old(self)@.default,
                )->Ok_0,
                Err(e) => normalize_defaults(old(self)@.valid, old(self)@.default) is Err
                    && final(self)@ == old(self)@ && e@ == (ErrorView::InvalidRunnerEntry {
                    name: normalize_defaults(old(self)@.valid, old(self)@.default)->Err_0,
                }),
            },
    {
        let ghost vs = self@.valid;
        let ghost ds = self@.default;
        let mut named: Vec<RunnerEntry> = Vec::new();
        let mut i: usize = 0;
        proof {
            assert(ds.take(0) =~= Seq::<RunnerEntryView>::empty());
            assert(entry_views(named@) =~= Seq::<RunnerEntryView>::empty());
        }
        while i < self.default.len()
            invariant
                i <= ds.len(),
                self@ == old(self)@,
                vs == entry_views(self.valid@),
                ds == entry_views(self.default@),
                normalize_defaults(vs, ds.take(i as int)) == Ok::<_, Seq<char>>(
                    entry_views(named@),
                ),
            decreases ds.len() - i,
        {
            proof {
                assert(ds.take(i + 1).drop_last() =~= ds.take(i as int));
                assert(ds.take(i + 1).last() == ds[i as int]);
            }
            let res = self.validate_entry(&self.default[i]);
            match res {
                Ok(e) => {
                    let ghost prev = entry_views(named@);
                    let ghost ev = e@;
                    named.push(e);
                    proof {
                        assert(entry_views(named@) =~= prev.push(ev));
                    }
                },
                Err(e) => {
                    proof {
                        assert(normalize_defaults(vs, ds.take(i + 1)) == Err::<
                            Seq<RunnerEntryView>,
                            _,
                        >(ds[i as int].long));
                        lemma_normalize_err(vs, ds, i + 1);
                    }
                    return Err(e);
                },
            }
            i = i + 1;
        }
        proof {
            assert(ds.take(ds.len() as int) =~= ds);
        }
        self.default = named;
        Ok(())
    }

    /// Resolves the caller's tokens into the ordered list of long aliases
    /// to run: the whole default list first, then every addition in token
    /// order, with every removed entry filtered out of both; duplicates are
    /// kept. A token whose name matches no alias fails the whole call with
    /// `InvalidRunnerEntry`, resolving nothing.
    pub fn entries_to_run(&self, args: &Vec<String>) -> (r: Result<Vec<String>, ProjectError>)
        ensures
            match r {
                Ok(names) => resolve_tokens(self@.valid, str_views(args@)) is Ok && str_views(
                    names@,
                ) == run_names(
                    self@.default + added_entries(
                        resolve_tokens(self@.valid, str_views(args@))->Ok_0,
                    ),
                    removed_entries(resolve_tokens(self@.valid, str_views(args@))->Ok_0),
                ),
                Err(e) => resolve_tokens(self@.valid, str_views(args@)) is Err && e@ == (
                ErrorView::InvalidRunnerEntry {
                    name: resolve_tokens(self@.valid, str_views(args@))->Err_0,
                }),
            },
    {
        let ghost vs = self@.valid;
        let ghost tv = str_views(args@);
        let mut processed: Vec<(bool, RunnerEntry)> = Vec::new();
        let mut i: usize = 0;
        proof {
            assert(tv.take(0) =~= Seq::<Seq<char>>::empty());
            assert(proc_views(processed@) =~= Seq::<(bool, RunnerEntryView)>::empty());
        }
        while i < args.len()
            invariant
                i <= args@.len(),
                vs == entry_views(self.valid@),
                tv == str_views(args@),
                resolve_tokens(vs, tv.take(i as int)) == Ok::<_, Seq<char>>(
                    proc_views(processed@),
                ),
            decreases args@.len() - i,
        {
            proof {
                assert(tv.take(i + 1).drop_last() =~= tv.take(i as int));
                assert(tv.take(i + 1).last() == tv[i as int]);
                assert(tv[i as int] == args@[i as int]@);
            }
            let arg = &args[i];
            let n = arg.as_str().unicode_len();
            let mut add = true;
            let name: String;
            if n > 0 && arg.as_str().get_char(0) == '+' {
                name = arg.as_str().substring_char(1, n).to_owned();
                proof {
                    assert(arg@.subrange(1, n as int) =~= arg@.skip(1));
                }
            } else if n > 0 && arg.as_str().get_char(0) == '-' {
                add = false;
                name = arg.as_str().substring_char(1, n).to_owned();
                proof {
                    assert(arg@.subrange(1, n as int) =~= arg@.skip(1));
                }
            } else {
                name = arg.clone();
            }
            proof {
                assert(name@ == classify(tv[i as int]).1);
                assert(add == classify(tv[i as int]).0);
            }
            let query = RunnerEntry::from_name(name.as_str());
            proof {
                assert(query@ == query_of(name@));
            }
            let res = self.validate_entry(&query);
            match res {
                Ok(e) => {
                    let ghost prev = proc_views(processed@);
                    let ghost ev = e@;
                    processed.push((add, e));
                    proof {
                        assert(proc_views(processed@) =~= prev.push((add, ev)));
                    }
                },
                Err(err) => {
                    proof {
                        assert(resolve_tokens(vs, tv.take(i + 1)) == Err::<
                            Seq<(bool, RunnerEntryView)>,
                            _,
                        >(name@));
                        lemma_resolve_err(vs, tv, i + 1);
                    }
                    return Err(err);
                },
            }
            i = i + 1;
        }
        proof {
            assert(tv.take(args@.len() as int) =~= tv);
        }
        let ghost proc = proc_views(processed@);
        let mut to_add: Vec<RunnerEntry> = Vec::new();
        let mut to_remove: Vec<RunnerEntry> = Vec::new();
        let mut j: usize = 0;
        proof {
            assert(proc.take(0) =~= Seq::<(bool, RunnerEntryView)>::empty());
            assert(entry_views(to_add@) =~= Seq::<RunnerEntryView>::empty());
            assert(entry_views(to_remove@) =~= Seq::<RunnerEntryView>::empty());
        }
        while j < processed.len()
            invariant
                j <= processed@.len(),
                proc == proc_views(processed@),
                entry_views(to_add@) == added_entries(proc.take(j as int)),
                entry_views(to_remove@) == removed_entries(proc.take(j as int)),
            decreases processed@.len() - j,
        {
            proof {
                assert(proc.take(j + 1).drop_last() =~= proc.take(j as int));
                assert(proc.take(j + 1).last() == proc[j as int]);
            }
            if processed[j].0 {
                let ghost prev = entry_views(to_add@);
                to_add.push(processed[j].1.clone());
                proof {
                    assert(entry_views(to_add@) =~= prev.push(proc[j as int].1));
                }
            } else {
                let ghost prev = entry_views(to_remove@);
                to_remove.push(processed[j].1.clone());
                proof {
                    assert(entry_views(to_remove@) =~= prev.push(proc[j as int].1));
                }
            }
            j = j + 1;
        }
        proof {
            assert(proc.take(processed@.len() as int) =~= proc);
        }
        let mut all = clone_entries(&self.default);
        let mut j2: usize = 0;
        proof {
            assert(all@ =~= self.default@ + to_add@.take(0));
        }
        while j2 < to_add.len()
            invariant
                j2 <= to_add@.len(),
                all@ == self.default@ + to_add@.take(j2 as int),
            decreases to_add@.len() - j2,
        {
            all.push(to_add[j2].clone());
            proof {
                assert(all@ =~= self.default@ + to_add@.take(j2 + 1));
            }
            j2 = j2 + 1;
        }
        proof {
            assert(to_add@.take(to_add@.len() as int) =~= to_add@);
            assert(entry_views(all@) =~= entry_views(self.default@) + entry_views(to_add@));
        }
        let ghost avs = entry_views(all@);
        let ghost rvs = entry_views(to_remove@);
        let mut out: Vec<String> = Vec::new();
        let mut k: usize = 0;
        proof {
            assert(avs.take(0) =~= Seq::<RunnerEntryView>::empty());
            assert(str_views(out@) =~= Seq::<Seq<char>>::empty());
        }
        while k < all.len()
            invariant
                k <= all@.len(),
                avs == entry_views(all@),
                rvs == entry_views(to_remove@),
                str_views(out@) == run_names(avs.take(k as int), rvs),
            decreases all@.len() - k,
        {
            proof {
                assert(avs.take(k + 1).drop_last() =~= avs.take(k as int));
                assert(avs.take(k + 1).last() == avs[k as int]);
            }
            if !contains_entry(&to_remove, &all[k]) {
                let ghost prev = str_views(out@);
                out.push(all[k].long.clone());
                proof {
                    assert(str_views(out@) =~= prev.push(avs[k as int].long));
                }
            }
            k = k + 1;
        }
        proof {
            assert(avs.take(all@.len() as int) =~= avs);
        }
        Ok(out)
    }
}

} // verus!
