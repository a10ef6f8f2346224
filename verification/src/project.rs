//! The top-level document model and the merge engine.
//!
//! A [`Project`] is the root document: identity and metadata, a default
//! application config, an optional map of named applications (umbrella
//! mode), an ordered list of include paths with their loaded documents, and
//! a [`Runner`]. [`Project::merge`] composes the root with its includes
//! into one effective project: application config deep-unions in file
//! order, the `apps` map merges per key, and the runner default list is
//! taken wholesale from the last include that declares one.

use vstd::prelude::*;
use vstd::string::*;

use crate::amap::{
    amap, amap_find, amap_insert, keys_unique, lemma_amap_dom, lemma_amap_index, pview,
};
use crate::config::{
    app_abs, app_compat, app_join, app_wf, Application, ApplicationView, Config, ConfigM,
    ConfigView,
};
use crate::errors::{ErrorView, ProjectError};
use crate::runner::{
    clone_entries, entry_views, normalize_defaults, str_views, Runner, RunnerEntryView,
    RunnerInclude, RunnerView,
};
use crate::scalar::ConfigValue;

verus! {

/// The implementation language a project may declare; carried through the
/// merge untouched.
#[derive(Debug, Clone, Copy, PartialEq, Eq, Structural)]
pub enum Language {
    Elixir,
    Rust,
}

/// How the project is containerised; carried through the merge untouched.
#[derive(Debug, Clone, Copy, PartialEq, Eq, Structural)]
pub enum ContainerMode {
    NoContainer,
    Docker,
    DockerCompose,
}

impl Default for ContainerMode {
    /// A project is not containerised unless it says so.
    fn default() -> (r: Self)
        ensures
            r == ContainerMode::NoContainer,
    {
        ContainerMode::NoContainer
    }
}

/// Spec-level image of a [`ProjectInclude`].
pub ghost struct ProjectIncludeView {
    pub app: ApplicationView,
    pub apps: Option<Seq<(Seq<char>, ApplicationView)>>,
    pub runner: Option<Seq<RunnerEntryView>>,
}

/// An include document: it may override the default application config,
/// the named applications, and the runner's default list — nothing else.
#[derive(Debug, PartialEq)]
pub struct ProjectInclude {
    pub app: Application,
    pub apps: Option<Vec<(String, Application)>>,
    pub runner: Option<RunnerInclude>,
}

impl View for ProjectInclude {
    type V = ProjectIncludeView;

    open spec fn view(&self) -> ProjectIncludeView {
        ProjectIncludeView {
            app: self.app@,
            apps: match &self.apps {
                None => None,
                Some(v) => Some(pview(v@)),
            },
            runner: match &self.runner {
                None => None,
                Some(ri) => Some(ri@),
            },
        }
    }
}

/// The views of a list of includes.
pub open spec fn include_views(s: Seq<ProjectInclude>) -> Seq<ProjectIncludeView> {
    s.map_values(|p: ProjectInclude| p@)
}

/// Spec-level image of a [`Project`].
pub ghost struct ProjectView {
    pub name: Seq<char>,
    pub description: Option<Seq<char>>,
    pub language: Option<Language>,
    pub container: ContainerMode,
    pub umbrella: bool,
    pub includes: Seq<Seq<char>>,
    pub included: Option<Seq<ProjectIncludeView>>,
    pub app: ApplicationView,
    pub apps: Option<Seq<(Seq<char>, ApplicationView)>>,
    pub runner: RunnerView,
}

/// The root document model.
#[derive(Debug, PartialEq)]
pub struct Project {
    /// The document's identity; required.
    pub name: String,
    pub description: Option<String>,
    pub language: Option<Language>,
    pub container: ContainerMode,
    pub umbrella: bool,
    /// The override documents, in precedence order: later wins.
    pub includes: Vec<String>,
    /// The loaded include documents; populated once by the loader, never
    /// part of the persisted document.
    pub included: Option<Vec<ProjectInclude>>,
    /// The default application config; always present, possibly empty.
    pub app: Application,
    /// The named applications; meaningful only in umbrella mode.
    pub apps: Option<Vec<(String, Application)>>,
    pub runner: Runner,
}

impl View for Project {
    type V = ProjectView;

    open spec fn view(&self) -> ProjectView {
        ProjectView {
            name: self.name@,
            description: match &self.description {
                None => None,
                Some(d) => Some(d@),
            },
            language: self.language,
            container: self.container,
            umbrella: self.umbrella,
            includes: str_views(self.includes@),
            included: match &self.included {
                None => None,
                Some(v) => Some(include_views(v@)),
            },
            app: self.app@,
            apps: match &self.apps {
                None => None,
                Some(v) => Some(pview(v@)),
            },
            runner: self.runner@,
        }
    }
}

/// Every named application of a section map is well formed.
pub open spec fn apps_values_wf(m: Map<Seq<char>, ApplicationView>) -> bool {
    forall|k: Seq<char>| #[trigger] m.contains_key(k) ==> app_wf(m[k])
}

/// Every named application of an `apps` table is well formed and the names
/// are pairwise distinct.
pub open spec fn apps_wf(o: Option<Seq<(Seq<char>, ApplicationView)>>) -> bool {
    match o {
        None => true,
        Some(pairs) => keys_unique(pairs) && apps_values_wf(amap(pairs)),
    }
}

/// An include document is well formed when its parts are.
pub open spec fn inc_wf(p: ProjectIncludeView) -> bool {
    app_wf(p.app) && apps_wf(p.apps)
}

/// A project is well formed when its application configs are.
pub open spec fn proj_wf(p: ProjectView) -> bool {
    app_wf(p.app) && apps_wf(p.apps) && match p.included {
        None => true,
        Some(incs) => forall|i: int| 0 <= i < incs.len() ==> inc_wf(#[trigger] incs[i]),
    }
}

/// The map an `apps` table denotes, each application taken to its own
/// denotation.
pub open spec fn abs_apps(pairs: Seq<(Seq<char>, ApplicationView)>) -> Map<
    Seq<char>,
    Option<Map<Seq<char>, ConfigM>>,
> {
    amap(pairs).map_values(|a: ApplicationView| app_abs(a))
}

/// Taking applications to their denotations commutes with a single insert.
pub proof fn lemma_abs_apps_insert(
    m: Map<Seq<char>, ApplicationView>,
    k: Seq<char>,
    v: ApplicationView,
)
    ensures
        m.insert(k, v).map_values(|a: ApplicationView| app_abs(a)) == m.map_values(
            |a: ApplicationView| app_abs(a),
        ).insert(k, app_abs(v)),
{
    assert(m.insert(k, v).map_values(|a: ApplicationView| app_abs(a)) =~= m.map_values(
        |a: ApplicationView| app_abs(a),
    ).insert(k, app_abs(v)));
}

/// The denotation of an optional `apps` table.
pub open spec fn abs_apps_opt(o: Option<Seq<(Seq<char>, ApplicationView)>>) -> Option<
    Map<Seq<char>, Option<Map<Seq<char>, ConfigM>>>,
> {
    match o {
        None => None,
        Some(pairs) => Some(abs_apps(pairs)),
    }
}

/// Every name shared by both tables holds compatible applications.
pub open spec fn apps_compat(
    a: Map<Seq<char>, Option<Map<Seq<char>, ConfigM>>>,
    b: Map<Seq<char>, Option<Map<Seq<char>, ConfigM>>>,
) -> bool {
    forall|k: Seq<char>|
        a.contains_key(k) && #[trigger] b.contains_key(k) ==> app_compat(a[k], b[k])
}

/// The per-name merge of two `apps` tables: names union, a name present on
/// both sides merges its two applications, the right side wins otherwise.
pub open spec fn join_apps(
    a: Map<Seq<char>, Option<Map<Seq<char>, ConfigM>>>,
    b: Map<Seq<char>, Option<Map<Seq<char>, ConfigM>>>,
) -> Map<Seq<char>, Option<Map<Seq<char>, ConfigM>>> {
    Map::new(
        |k: Seq<char>| a.contains_key(k) || b.contains_key(k),
        |k: Seq<char>|
            if a.contains_key(k) && b.contains_key(k) {
                app_join(a[k], b[k])
            } else if b.contains_key(k) {
                b[k]
            } else {
                a[k]
            },
    )
}

/// The root's application config merged with each include's, in file
/// order; the first incompatible pair stops the fold.
pub open spec fn fold_app(
    base: Option<Map<Seq<char>, ConfigM>>,
    incs: Seq<ProjectIncludeView>,
) -> Result<Option<Map<Seq<char>, ConfigM>>, ()>
    decreases incs.len(),
{
    if incs.len() == 0 {
        Ok(base)
    } else {
        match fold_app(base, incs.drop_last()) {
            Ok(acc) => if app_compat(acc, app_abs(incs.last().app)) {
                Ok(app_join(acc, app_abs(incs.last().app)))
            } else {
                Err(())
            },
            Err(()) => Err(()),
        }
    }
}

/// A failed prefix decides the whole fold.
pub proof fn lemma_fold_app_err(
    base: Option<Map<Seq<char>, ConfigM>>,
    incs: Seq<ProjectIncludeView>,
    i: int,
)
    requires
        0 <= i <= incs.len(),
        fold_app(base, incs.take(i)) is Err,
    ensures
        fold_app(base, incs) is Err,
    decreases incs.len() - i,
{
    if i == incs.len() {
        assert(incs.take(i) =~= incs);
    } else {
        assert(incs.take(i + 1).drop_last() =~= incs.take(i));
        lemma_fold_app_err(base, incs, i + 1);
    }
}

/// The root's `apps` table merged with each include's, in file order: an
/// absent accumulator adopts the include's table wholesale, an absent
/// include table changes nothing, and two present tables merge per name.
pub open spec fn fold_apps(
    base: Option<Map<Seq<char>, Option<Map<Seq<char>, ConfigM>>>>,
    incs: Seq<ProjectIncludeView>,
) -> Result<Option<Map<Seq<char>, Option<Map<Seq<char>, ConfigM>>>>, ()>
    decreases incs.len(),
{
    if incs.len() == 0 {
        Ok(base)
    } else {
        match fold_apps(base, incs.drop_last()) {
            Ok(acc) => match acc {
                None => Ok(abs_apps_opt(incs.last().apps)),
                Some(am) => match abs_apps_opt(incs.last().apps) {
                    None => Ok(Some(am)),
                    Some(bm) => if apps_compat(am, bm) {
                        Ok(Some(join_apps(am, bm)))
                    } else {
                        Err(())
                    },
                },
            },
            Err(()) => Err(()),
        }
    }
}

/// A failed prefix decides the whole fold.
pub proof fn lemma_fold_apps_err(
    base: Option<Map<Seq<char>, Option<Map<Seq<char>, ConfigM>>>>,
    incs: Seq<ProjectIncludeView>,
    i: int,
)
    requires
        0 <= i <= incs.len(),
        fold_apps(base, incs.take(i)) is Err,
    ensures
        fold_apps(base, incs) is Err,
    decreases incs.len() - i,
{
    if i == incs.len() {
        assert(incs.take(i) =~= incs);
    } else {
        assert(incs.take(i + 1).drop_last() =~= incs.take(i));
        lemma_fold_apps_err(base, incs, i + 1);
    }
}

/// The effective runner default list: the last include that declares a
/// runner wins outright; with none, the root's own list stands.
pub open spec fn effective_default(
    root: Seq<RunnerEntryView>,
    incs: Seq<ProjectIncludeView>,
) -> Seq<RunnerEntryView>
    decreases incs.len(),
{
    if incs.len() == 0 {
        root
    } else {
        match incs.last().runner {
            Some(d) => d,
            None => effective_default(root, incs.drop_last()),
        }
    }
}

/// The loaded include views of a project; an unloaded project has none.
pub open spec fn incs_of(p: ProjectView) -> Seq<ProjectIncludeView> {
    match p.included {
        None => Seq::empty(),
        Some(s) => s,
    }
}

/// Copies an application pair list, preserving its viewed pairs.
fn clone_app_pairs(v: &Vec<(String, Application)>) -> (r: Vec<(String, Application)>)
    ensures
        pview(r@) == pview(v@),
{
    let mut r: Vec<(String, Application)> = Vec::new();
    let mut i: usize = 0;
    while i < v.len()
        invariant
            i <= v@.len(),
            r@.len() == i,
            forall|j: int| 0 <= j < i ==> #[trigger] r@[j].0@ == v@[j].0@ && r@[j].1@ == v@[j].1@,
        decreases v@.len() - i,
    {
        r.push((v[i].0.clone(), v[i].1.clone()));
        i = i + 1;
    }
    proof {
        assert(pview(r@) =~= pview(v@));
    }
    r
}

/// Merges one include's `apps` table into the accumulated one, per name:
/// a shared name merges the two applications, a new name is inserted.
fn merge_apps_tables(
    base: Vec<(String, Application)>,
    other: &Vec<(String, Application)>,
) -> (r: Result<Vec<(String, Application)>, ProjectError>)
    requires
        keys_unique(pview(base@)),
        apps_values_wf(amap(pview(base@))),
        keys_unique(pview(other@)),
        apps_values_wf(amap(pview(other@))),
    ensures
        match r {
            Ok(v) => apps_compat(abs_apps(pview(base@)), abs_apps(pview(other@))) && keys_unique(
                pview(v@),
            ) && apps_values_wf(amap(pview(v@))) && abs_apps(pview(v@)) == join_apps(
                abs_apps(pview(base@)),
                abs_apps(pview(other@)),
            ),
            Err(e) => !apps_compat(abs_apps(pview(base@)), abs_apps(pview(other@))) && e@
                is IncompatibleConfigType,
        },
{
    let ghost am = abs_apps(pview(base@));
    let ghost opairs = pview(other@);
    let mut merged = base;
    let mut i: usize = 0;
    proof {
        assert(abs_apps(opairs.take(0)) =~= Map::<
            Seq<char>,
            Option<Map<Seq<char>, ConfigM>>,
        >::empty());
        assert(join_apps(am, abs_apps(opairs.take(0))) =~= am);
    }
    while i < other.len()
        invariant
            i <= other@.len(),
            opairs == pview(other@),
            keys_unique(opairs),
            apps_values_wf(amap(opairs)),
            am == abs_apps(pview(base@)),
            keys_unique(pview(merged@)),
            apps_values_wf(amap(pview(merged@))),
            apps_compat(am, abs_apps(opairs.take(i as int))),
            abs_apps(pview(merged@)) == join_apps(am, abs_apps(opairs.take(i as int))),
        decreases other@.len() - i,
    {
        let ghost bm_pre = abs_apps(opairs.take(i as int));
        let ghost k = opairs[i as int].0;
        let ghost merged_map = amap(pview(merged@));
        proof {
            assert forall|j: int| 0 <= j < i implies #[trigger] opairs[j].0 != k by {}
            lemma_amap_dom(opairs.take(i as int));
            assert(!amap(opairs.take(i as int)).contains_key(k));
            assert(!bm_pre.contains_key(k));
            lemma_amap_index(opairs, i as int);
            assert(opairs.take(i + 1).drop_last() =~= opairs.take(i as int));
            assert(opairs.take(i + 1).last() == opairs[i as int]);
        }
        let idx = amap_find(&merged, &other[i].0);
        match idx {
            Some(j) => {
                proof {
                    lemma_amap_index(pview(merged@), j as int);
                    assert(merged_map.contains_key(k));
                    assert(abs_apps(pview(merged@)).contains_key(k));
                    assert(am.contains_key(k));
                    assert(merged_map[k] == pview(merged@)[j as int].1);
                    assert(abs_apps(pview(merged@))[k] == app_abs(merged_map[k]));
                    assert(join_apps(am, bm_pre)[k] == am[k]);
                    assert(app_abs(merged_map[k]) == am[k]);
                    assert(app_wf(merged_map[k]));
                    assert(app_wf(amap(opairs)[k]));
                    assert(amap(opairs)[k] == opairs[i as int].1);
                }
                let mut cur = merged[j].1.clone();
                let res = cur.merge(&other[i].1);
                match res {
                    Ok(()) => {
                        let ghost pre = amap(pview(merged@));
                        let ghost cv = cur@;
                        amap_insert(&mut merged, other[i].0.clone(), cur);
                        proof {
                            assert(amap(opairs.take(i + 1)) == amap(opairs.take(i as int)).insert(
                                k,
                                opairs[i as int].1,
                            ));
                            lemma_abs_apps_insert(pre, k, cv);
                            lemma_abs_apps_insert(amap(opairs.take(i as int)), k, opairs[i as int].1);
                            assert(amap(pview(merged@)) == pre.insert(k, cv));
                            assert(pre.map_values(|a: ApplicationView| app_abs(a)) == join_apps(
                                am,
                                bm_pre,
                            ));
                            assert(app_abs(cv) == app_join(am[k], app_abs(opairs[i as int].1)));
                            assert(abs_apps(opairs.take(i + 1)) == bm_pre.insert(
                                k,
                                app_abs(opairs[i as int].1),
                            ));
                            assert(abs_apps(pview(merged@)) =~= join_apps(
                                am,
                                abs_apps(opairs.take(i + 1)),
                            ));
                            assert forall|kk: Seq<char>|
                                am.contains_key(kk) && #[trigger] abs_apps(
                                    opairs.take(i + 1),
                                ).contains_key(kk) implies app_compat(
                                am[kk],
                                abs_apps(opairs.take(i + 1))[kk],
                            ) by {
                                if kk != k {
                                    assert(bm_pre.contains_key(kk));
                                }
                            }
                            assert forall|kk: Seq<char>| #[trigger]
                                amap(pview(merged@)).contains_key(kk) implies app_wf(
                                amap(pview(merged@))[kk],
                            ) by {
                                if kk != k {
                                    assert(pre.contains_key(kk) && amap(pview(merged@))[kk]
                                        == pre[kk]);
                                }
                            }
                        }
                    },
                    Err(e) => {
                        proof {
                            assert(!app_compat(am[k], app_abs(opairs[i as int].1)));
                            assert(amap(opairs).contains_key(k));
                            assert(abs_apps(opairs).contains_key(k));
                            assert(abs_apps(opairs)[k] == app_abs(opairs[i as int].1));
                            assert(!apps_compat(am, abs_apps(opairs)));
                            assert(e@ is IncompatibleConfigType);
                        }
                        return Err(e);
                    },
                }
            },
            None => {
                let ghost pre = amap(pview(merged@));
                proof {
                    lemma_amap_dom(pview(merged@));
                    assert(!merged_map.contains_key(k));
                    assert(!am.contains_key(k));
                }
                amap_insert(&mut merged, other[i].0.clone(), other[i].1.clone());
                proof {
                    assert(amap(opairs.take(i + 1)) == amap(opairs.take(i as int)).insert(
                        k,
                        opairs[i as int].1,
                    ));
                    lemma_abs_apps_insert(pre, k, opairs[i as int].1);
                    lemma_abs_apps_insert(amap(opairs.take(i as int)), k, opairs[i as int].1);
                    assert(amap(pview(merged@)) == pre.insert(k, opairs[i as int].1));
                    assert(pre.map_values(|a: ApplicationView| app_abs(a)) == join_apps(
                        am,
                        bm_pre,
                    ));
                    assert(abs_apps(opairs.take(i + 1)) == bm_pre.insert(
                        k,
                        app_abs(opairs[i as int].1),
                    ));
                    assert(abs_apps(pview(merged@)) =~= join_apps(
                        am,
                        abs_apps(opairs.take(i + 1)),
                    ));
                    assert forall|kk: Seq<char>|
                        am.contains_key(kk) && #[trigger] abs_apps(
                            opairs.take(i + 1),
                        ).contains_key(kk) implies app_compat(
                        am[kk],
                        abs_apps(opairs.take(i + 1))[kk],
                    ) by {
                        if kk != k {
                            assert(bm_pre.contains_key(kk));
                        }
                    }
                    assert forall|kk: Seq<char>| #[trigger]
                        amap(pview(merged@)).contains_key(kk) implies app_wf(
                        amap(pview(merged@))[kk],
                    ) by {
                        if kk != k {
                            assert(pre.contains_key(kk) && amap(pview(merged@))[kk] == pre[kk]);
                        } else {
                            assert(amap(pview(merged@))[kk] == opairs[i as int].1);
                        }
                    }
                }
            },
        }
        i = i + 1;
    }
    proof {
        assert(opairs.take(other@.len() as int) =~= opairs);
    }
    Ok(merged)
}

/// The result of a configuration lookup: one config, or one per named
/// application.
#[derive(Debug, PartialEq)]
pub enum ConfigSearch {
    Single(Config),
    Multiple(Vec<(String, Config)>),
}

/// Spec-level image of a [`ConfigSearch`].
pub ghost enum ConfigSearchView {
    Single { config: ConfigView },
    Multiple { configs: Seq<(Seq<char>, ConfigView)> },
}

impl View for ConfigSearch {
    type V = ConfigSearchView;

    open spec fn view(&self) -> ConfigSearchView {
        match self {
            ConfigSearch::Single(c) => ConfigSearchView::Single { config: c@ },
            ConfigSearch::Multiple(m) => ConfigSearchView::Multiple { configs: pview(m@) },
        }
    }
}

impl Project {
    /// A fresh project with the given name, a stock description and
    /// everything else at its default.
    pub fn new(name: &str) -> (r: Self)
        ensures
            r@.name == name@,
            r@.description == Some("An Onyx project"@),
            r@.language is None,
            r@.container == ContainerMode::NoContainer,
            r@.umbrella == false,
            r@.includes.len() == 0,
            r@.included is None,
            r@.app.config is None,
            r@.apps is None,
            r@.runner.valid.len() == 0,
            r@.runner.default.len() == 0,
    {
        let r = Project {
            name: name.to_owned(),
            description: Some(String::from_str("An Onyx project")),
            language: None,
            container: ContainerMode::NoContainer,
            umbrella: false,
            includes: Vec::new(),
            included: None,
            app: Application::empty(),
            apps: None,
            runner: Default::default(),
        };
        proof {
            assert(str_views(r.includes@) =~= Seq::<Seq<char>>::empty());
        }
        r
    }

    /// Normalises the runner against its own alias table; the project is
    /// otherwise untouched.
    pub fn validate_and_normalize(&mut self) -> (r: Result<(), ProjectError>)
        ensures
            match r {
                Ok(()) => normalize_defaults(old(self)@.runner.valid, old(self)@.runner.default)
                    is Ok && final(self)@ == (ProjectView {
                    runner: RunnerView {
                        valid: old(self)@.runner.valid,
                        default: normalize_defaults(
                            old(self)@.runner.valid,
                            old(self)@.runner.default,
                        )->Ok_0,
                    },
                    ..old(self)@
                }),
                Err(e) => normalize_defaults(old(self)@.runner.valid, old(self)@.runner.default)
                    is Err && final(self)@ == old(self)@ && e@ == (ErrorView::InvalidRunnerEntry {
                    name: normalize_defaults(
                        old(self)@.runner.valid,
                        old(self)@.runner.default,
                    )->Err_0,
                }),
            },
    {
        let r = self.runner.validate_and_normalize();
        match r {
            Ok(()) => Ok(()),
            Err(e) => Err(e),
        }
    }

    /// Composes the root with its loaded includes into one effective
    /// project, leaving both untouched. The application config deep-unions
    /// in file order; the `apps` table merges per name, an include's table
    /// replacing an absent one wholesale; the runner keeps the root's alias
    /// table and takes its default list from the last include that declares
    /// a runner, normalised against the alias table. The effective project
    /// carries no include lists of its own.
    pub fn merge(&self) -> (r: Result<Project, ProjectError>)
        requires
            proj_wf(self@),
        ensures
            match r {
                Ok(p) => {
                    &&& p@.name == self@.name
                    &&& p@.description == self@.description
                    &&& p@.language == self@.language
                    &&& p@.container == self@.container
                    &&& p@.umbrella == self@.umbrella
                    &&& p@.includes.len() == 0
                    &&& p@.included is None
                    &&& fold_app(app_abs(self@.app), incs_of(self@)) == Ok::<_, ()>(
                        app_abs(p@.app),
                    )
                    &&& app_wf(p@.app)
                    &&& fold_apps(abs_apps_opt(self@.apps), incs_of(self@)) == Ok::<_, ()>(
                        abs_apps_opt(p@.apps),
                    )
                    &&& apps_wf(p@.apps)
                    &&& p@.runner.valid == self@.runner.valid
                    &&& normalize_defaults(
                        self@.runner.valid,
                        effective_default(self@.runner.default, incs_of(self@)),
                    ) == Ok::<_, Seq<char>>(p@.runner.default)
                },
                Err(e) => {
                    &&& (fold_app(app_abs(self@.app), incs_of(self@)) is Err ==> e@
                        is IncompatibleConfigType)
                    &&& (fold_app(app_abs(self@.app), incs_of(self@)) is Ok && fold_apps(
                        abs_apps_opt(self@.apps),
                        incs_of(self@),
                    ) is Err ==> e@ is IncompatibleConfigType)
                    &&& (fold_app(app_abs(self@.app), incs_of(self@)) is Ok && fold_apps(
                        abs_apps_opt(self@.apps),
                        incs_of(self@),
                    ) is Ok ==> normalize_defaults(
                        self@.runner.valid,
                        effective_default(self@.runner.default, incs_of(self@)),
                    ) is Err && e@ == (ErrorView::InvalidRunnerEntry {
                        name: normalize_defaults(
                            self@.runner.valid,
                            effective_default(self@.runner.default, incs_of(self@)),
                        )->Err_0,
                    }))
                },
            },
    {
        let ghost incs = incs_of(self@);
        // the application config, folded in file order
        let mut app = self.app.clone();
        match &self.included {
            None => {
                proof {
                    assert(incs =~= Seq::<ProjectIncludeView>::empty());
                }
            },
            Some(included) => {
                let mut i: usize = 0;
                proof {
                    assert(incs.take(0) =~= Seq::<ProjectIncludeView>::empty());
                }
                while i < included.len()
                    invariant
                        i <= included@.len(),
                        incs == incs_of(self@),
                        incs == include_views(included@),
                        forall|j: int| 0 <= j < incs.len() ==> inc_wf(#[trigger] incs[j]),
                        app_wf(app@),
                        fold_app(app_abs(self@.app), incs.take(i as int)) == Ok::<_, ()>(
                            app_abs(app@),
                        ),
                    decreases included@.len() - i,
                {
                    proof {
                        assert(incs.take(i + 1).drop_last() =~= incs.take(i as int));
                        assert(incs.take(i + 1).last() == incs[i as int]);
                        assert(incs[i as int] == included@[i as int]@);
                        assert(inc_wf(incs[i as int]));
                    }
                    let res = app.merge(&included[i].app);
                    match res {
                        Ok(()) => {},
                        Err(e) => {
                            proof {
                                assert(fold_app(app_abs(self@.app), incs.take(i + 1)) is Err);
                                lemma_fold_app_err(app_abs(self@.app), incs, i + 1);
                                assert(e@ is IncompatibleConfigType);
                            }
                            return Err(e);
                        },
                    }
                    i = i + 1;
                }
                proof {
                    assert(incs.take(included@.len() as int) =~= incs);
                }
            },
        }
        // the named applications, folded in file order
        let mut apps: Option<Vec<(String, Application)>> = match &self.apps {
            None => None,
            Some(v) => Some(clone_app_pairs(v)),
        };
        match &self.included {
            None => {},
            Some(included) => {
                let mut i: usize = 0;
                proof {
                    assert(incs.take(0) =~= Seq::<ProjectIncludeView>::empty());
                }
                while i < included.len()
                    invariant
                        i <= included@.len(),
                        incs == incs_of(self@),
                        incs == include_views(included@),
                        forall|j: int| 0 <= j < incs.len() ==> inc_wf(#[trigger] incs[j]),
                        apps is None ==> fold_apps(abs_apps_opt(self@.apps), incs.take(i as int))
                            == Ok::<_, ()>(None::<
                            Map<Seq<char>, Option<Map<Seq<char>, ConfigM>>>,
                        >),
                        apps is Some ==> fold_apps(abs_apps_opt(self@.apps), incs.take(i as int))
                            == Ok::<_, ()>(Some(abs_apps(pview(apps->0@)))) && keys_unique(
                            pview(apps->0@),
                        ) && apps_values_wf(amap(pview(apps->0@))),
                    decreases included@.len() - i,
                {
                    proof {
                        assert(incs.take(i + 1).drop_last() =~= incs.take(i as int));
                        assert(incs.take(i + 1).last() == incs[i as int]);
                        assert(incs[i as int] == included@[i as int]@);
                        assert(inc_wf(incs[i as int]));
                    }
                    let prev = apps;
                    apps = match prev {
                        None => match &included[i].apps {
                            None => None,
                            Some(oc) => Some(clone_app_pairs(oc)),
                        },
                        Some(cur) => match &included[i].apps {
                            None => Some(cur),
                            Some(oc) => {
                                let res = merge_apps_tables(cur, oc);
                                match res {
                                    Ok(v) => Some(v),
                                    Err(e) => {
                                        proof {
                                            assert(fold_apps(
                                                abs_apps_opt(self@.apps),
                                                incs.take(i + 1),
                                            ) is Err);
                                            lemma_fold_apps_err(
                                                abs_apps_opt(self@.apps),
                                                incs,
                                                i + 1,
                                            );
                                            assert(e@ is IncompatibleConfigType);
                                        }
                                        return Err(e);
                                    },
                                }
                            },
                        },
                    };
                    i = i + 1;
                }
                proof {
                    assert(incs.take(included@.len() as int) =~= incs);
                }
            },
        }
        // the effective runner: the root's alias table, and the default
        // list of the last include that declares a runner
        let mut eff = clone_entries(&self.runner.default);
        match &self.included {
            None => {},
            Some(included) => {
                let mut i: usize = 0;
                proof {
                    assert(incs.take(0) =~= Seq::<ProjectIncludeView>::empty());
                }
                while i < included.len()
                    invariant
                        i <= included@.len(),
                        incs == incs_of(self@),
                        incs == include_views(included@),
                        entry_views(eff@) == effective_default(
                            self@.runner.default,
                            incs.take(i as int),
                        ),
                    decreases included@.len() - i,
                {
                    proof {
                        assert(incs.take(i + 1).drop_last() =~= incs.take(i as int));
                        assert(incs.take(i + 1).last() == incs[i as int]);
                        assert(incs[i as int] == included@[i as int]@);
                    }
                    match &included[i].runner {
                        None => {},
                        Some(ri) => {
                            eff = clone_entries(&ri.default);
                        },
                    }
                    i = i + 1;
                }
                proof {
                    assert(incs.take(included@.len() as int) =~= incs);
                }
            },
        }
        let mut runner = Runner { valid: clone_entries(&self.runner.valid), default: eff };
        let vres = runner.validate_and_normalize();
        match vres {
            Ok(()) => {},
            Err(e) => {
                return Err(e);
            },
        }
        let merged = Project {
            name: self.name.clone(),
            description: match &self.description {
                None => None,
                Some(d) => Some(d.clone()),
            },
            language: self.language,
            container: self.container,
            umbrella: self.umbrella,
            includes: Vec::new(),
            included: None,
            app,
            apps,
            runner,
        };
        proof {
            assert(str_views(merged.includes@) =~= Seq::<Seq<char>>::empty());
        }
        Ok(merged)
    }

    /// Looks a configuration entry up. Lookup is not implemented yet: every
    /// search yields one empty scalar, whatever the arguments say.
    pub fn get_config(
        &self,
        _app: &Option<String>,
        _key: &String,
        _sub_key: &Option<String>,
    ) -> (r: Result<ConfigSearch, ProjectError>)
        ensures
            r is Ok,
            r->Ok_0@ == (ConfigSearchView::Single {
                config: ConfigView::Single { value: Seq::<char>::empty() },
            }),
    {
        let empty = String::new();
        let value = ConfigValue::from_string(empty);
        Ok(ConfigSearch::Single(Config::single(value)))
    }
}

} // verus!
