//! Configuration values and their merge rules.
//!
//! A [`Config`] is either a flat map of named scalars or a single scalar.
//! An [`Application`] is an optional map from config-section name to
//! `Config`. Merging is a two-level, right-biased union: section keys union
//! with the override winning, and where both sides carry the same section
//! the two `Config`s merge one level deeper — maps union shallowly, scalars
//! are replaced outright, and a map can never merge with a scalar.

use vstd::prelude::*;

use crate::amap::{amap, amap_find, amap_insert, keys_unique, lemma_amap_index, pview};
use crate::errors::{ErrorView, ProjectError};
use crate::scalar::ConfigValue;

verus! {

/// A configuration node: a flat map of named scalars, or one scalar.
#[derive(Debug, PartialEq)]
pub enum Config {
    Table(Vec<(String, ConfigValue)>),
    Single(ConfigValue),
}

/// Spec-level image of a [`Config`], keys and scalars as character
/// sequences, pair order preserved.
pub ghost enum ConfigView {
    Table { pairs: Seq<(Seq<char>, Seq<char>)> },
    Single { value: Seq<char> },
}

/// The map denotation of a [`ConfigView`]: pair order forgotten, later
/// pairs winning.
pub ghost enum ConfigM {
    Table { entries: Map<Seq<char>, Seq<char>> },
    Single { value: Seq<char> },
}

impl View for Config {
    type V = ConfigView;

    open spec fn view(&self) -> ConfigView {
        match self {
            Config::Table(m) => ConfigView::Table { pairs: pview(m@) },
            Config::Single(v) => ConfigView::Single { value: v@ },
        }
    }
}

/// A config's keys are pairwise distinct.
pub open spec fn cfg_wf(c: ConfigView) -> bool {
    match c {
        ConfigView::Table { pairs } => keys_unique(pairs),
        ConfigView::Single { .. } => true,
    }
}

/// The map a config denotes.
pub open spec fn cfg_abs(c: ConfigView) -> ConfigM {
    match c {
        ConfigView::Table { pairs } => ConfigM::Table { entries: amap(pairs) },
        ConfigView::Single { value } => ConfigM::Single { value },
    }
}

/// Two configs agree on their variant kind; merging them is only defined
/// when they do.
pub open spec fn cfg_compat(a: ConfigM, b: ConfigM) -> bool {
    a is Table <==> b is Table
}

/// The merge of two compatible configs: maps union shallowly with the
/// right side winning on collisions; a scalar is replaced by the right
/// side's scalar.
pub open spec fn cfg_join(a: ConfigM, b: ConfigM) -> ConfigM {
    match (a, b) {
        (ConfigM::Table { entries: x }, ConfigM::Table { entries: y }) => ConfigM::Table {
            entries: x.union_prefer_right(y),
        },
        _ => b,
    }
}

impl Clone for Config {
    fn clone(&self) -> (r: Self)
        ensures
            r@ == self@,
    {
        match self {
            Config::Table(m) => Config::Table(clone_value_pairs(m)),
            Config::Single(v) => Config::Single(v.clone()),
        }
    }
}

/// Copies a scalar pair list, preserving its viewed pairs.
fn clone_value_pairs(v: &Vec<(String, ConfigValue)>) -> (r: Vec<(String, ConfigValue)>)
    ensures
        pview(r@) == pview(v@),
{
    let mut r: Vec<(String, ConfigValue)> = Vec::new();
    let mut i: usize = 0;
    while i < v.len()
        invariant
            i <= v@.len(),
            r@.len() == i,
            forall|j: int| 0 <= j < i ==> #[trigger] r@[j].0@ == v@[j].0@ && r@[j].1@ == v@[j].1@,
        decreases v@.len() - i,
    {
        r.push((v[i].0.clone(), v[i].1.clone()));
        i = i + 1;
    }
    proof {
        assert(pview(r@) =~= pview(v@));
    }
    r
}

impl Config {
    /// A single-scalar config.
    pub fn single(v: ConfigValue) -> (r: Self)
        ensures
            r@ == (ConfigView::Single { value: v@ }),
            cfg_wf(r@),
    {
        Config::Single(v)
    }

    /// A map config built from a pair list; a later pair with the same key
    /// overrides an earlier one.
    pub fn new_map(pairs: Vec<(String, ConfigValue)>) -> (r: Self)
        ensures
            cfg_wf(r@),
            r@ is Table,
            cfg_abs(r@) == (ConfigM::Table { entries: amap(pview(pairs@)) }),
    {
        let ghost ps = pview(pairs@);
        let mut m: Vec<(String, ConfigValue)> = Vec::new();
        let mut i: usize = 0;
        while i < pairs.len()
            invariant
                i <= pairs@.len(),
                ps == pview(pairs@),
                keys_unique(pview(m@)),
                amap(pview(m@)) == amap(ps.take(i as int)),
            decreases pairs@.len() - i,
        {
            proof {
                assert(ps.take(i + 1).drop_last() =~= ps.take(i as int));
                assert(ps.take(i + 1).last() == ps[i as int]);
            }
            amap_insert(&mut m, pairs[i].0.clone(), pairs[i].1.clone());
            i = i + 1;
        }
        proof {
            assert(ps.take(pairs@.len() as int) =~= ps);
        }
        Config::Table(m)
    }

    /// Merges `other` into `self`: map with map unions with `other` winning
    /// on key collisions, scalar with scalar takes `other`'s value, and a
    /// kind mismatch fails with `IncompatibleConfigType` naming `key`,
    /// leaving `self` unchanged.
    pub fn merge(&mut self, other: &Config, key: &String) -> (r: Result<(), ProjectError>)
        requires
            cfg_wf(old(self)@),
            cfg_wf(other@),
        ensures
            match r {
                Ok(()) => cfg_compat(cfg_abs(old(self)@), cfg_abs(other@)) && cfg_wf(final(self)@)
                    && cfg_abs(final(self)@) == cfg_join(cfg_abs(old(self)@), cfg_abs(other@)),
                Err(e) => !cfg_compat(cfg_abs(old(self)@), cfg_abs(other@)) && final(self)@ == old(
                    self,
                )@ && e@ == (ErrorView::IncompatibleConfigType { key: key@ }),
            },
    {
        match other {
            Config::Table(om) => {
                match &*self {
                    Config::Table(sm) => {
                        let ghost base = amap(pview(sm@));
                        let ghost opairs = pview(om@);
                        let mut merged = clone_value_pairs(sm);
                        let mut i: usize = 0;
                        proof {
                            assert(base.union_prefer_right(amap(opairs.take(0))) =~= base);
                        }
                        while i < om.len()
                            invariant
                                i <= om@.len(),
                                opairs == pview(om@),
                                keys_unique(pview(merged@)),
                                amap(pview(merged@)) == base.union_prefer_right(
                                    amap(opairs.take(i as int)),
                                ),
                            decreases om@.len() - i,
                        {
                            let ghost pre = amap(pview(merged@));
                            amap_insert(&mut merged, om[i].0.clone(), om[i].1.clone());
                            proof {
                                assert(opairs.take(i + 1).drop_last() =~= opairs.take(i as int));
                                assert(opairs.take(i + 1).last() == opairs[i as int]);
                                assert(base.union_prefer_right(amap(opairs.take(i + 1)))
                                    =~= pre.insert(opairs[i as int].0, opairs[i as int].1));
                            }
                            i = i + 1;
                        }
                        proof {
                            assert(opairs.take(om@.len() as int) =~= opairs);
                        }
                        *self = Config::Table(merged);
                        Ok(())
                    },
                    Config::Single(_) => {
                        Err(ProjectError::IncompatibleConfigType { key: key.clone() })
                    },
                }
            },
            Config::Single(ov) => {
                match &*self {
                    Config::Table(_) => {
                        Err(ProjectError::IncompatibleConfigType { key: key.clone() })
                    },
                    Config::Single(_) => {
                        *self = Config::Single(ov.clone());
                        Ok(())
                    },
                }
            },
        }
    }
}

/// Spec-level image of an [`Application`].
pub ghost struct ApplicationView {
    pub config: Option<Seq<(Seq<char>, ConfigView)>>,
}

/// An optional map from config-section name to [`Config`]. An absent map
/// means "no config at all".
#[derive(Debug, PartialEq)]
pub struct Application {
    config: Option<Vec<(String, Config)>>,
}

impl View for Application {
    type V = ApplicationView;

    closed spec fn view(&self) -> ApplicationView {
        ApplicationView {
            config: match &self.config {
                None => None,
                Some(v) => Some(pview(v@)),
            },
        }
    }
}

/// Every config of a section map is well formed.
pub open spec fn sections_wf(m: Map<Seq<char>, ConfigView>) -> bool {
    forall|k: Seq<char>| #[trigger] m.contains_key(k) ==> cfg_wf(m[k])
}

/// An application's section keys are pairwise distinct and its configs are
/// well formed.
pub open spec fn app_wf(a: ApplicationView) -> bool {
    match a.config {
        None => true,
        Some(pairs) => keys_unique(pairs) && sections_wf(amap(pairs)),
    }
}

/// The section map a pair list denotes, each config taken to its own
/// map denotation.
pub open spec fn abs_sections(pairs: Seq<(Seq<char>, ConfigView)>) -> Map<Seq<char>, ConfigM> {
    amap(pairs).map_values(|c: ConfigView| cfg_abs(c))
}

/// Taking configs to their denotations commutes with a single insert.
pub proof fn lemma_abs_insert(m: Map<Seq<char>, ConfigView>, k: Seq<char>, v: ConfigView)
    ensures
        m.insert(k, v).map_values(|c: ConfigView| cfg_abs(c)) == m.map_values(
            |c: ConfigView| cfg_abs(c),
        ).insert(k, cfg_abs(v)),
{
    assert(m.insert(k, v).map_values(|c: ConfigView| cfg_abs(c)) =~= m.map_values(
        |c: ConfigView| cfg_abs(c),
    ).insert(k, cfg_abs(v)));
}

/// The section map an application denotes, with each config taken to its
/// own map denotation.
pub open spec fn app_abs(a: ApplicationView) -> Option<Map<Seq<char>, ConfigM>> {
    match a.config {
        None => None,
        Some(pairs) => Some(abs_sections(pairs)),
    }
}

/// Every section shared by both sides holds compatible configs.
pub open spec fn sections_compat(a: Map<Seq<char>, ConfigM>, b: Map<Seq<char>, ConfigM>) -> bool {
    forall|k: Seq<char>|
        a.contains_key(k) && #[trigger] b.contains_key(k) ==> cfg_compat(a[k], b[k])
}

/// The two-level merge of section maps: keys union, a key present on both
/// sides holds the join of the two configs, the right side wins otherwise.
pub open spec fn join_sections(
    a: Map<Seq<char>, ConfigM>,
    b: Map<Seq<char>, ConfigM>,
) -> Map<Seq<char>, ConfigM> {
    Map::new(
        |k: Seq<char>| a.contains_key(k) || b.contains_key(k),
        |k: Seq<char>|
            if a.contains_key(k) && b.contains_key(k) {
                cfg_join(a[k], b[k])
            } else if b.contains_key(k) {
                b[k]
            } else {
                a[k]
            },
    )
}

/// Compatibility of two optional section maps.
pub open spec fn app_compat(
    a: Option<Map<Seq<char>, ConfigM>>,
    b: Option<Map<Seq<char>, ConfigM>>,
) -> bool {
    match (a, b) {
        (Some(x), Some(y)) => sections_compat(x, y),
        _ => true,
    }
}

/// The merge of two optional section maps: an absent override changes
/// nothing, an absent base adopts the override, and two present maps join.
pub open spec fn app_join(
    a: Option<Map<Seq<char>, ConfigM>>,
    b: Option<Map<Seq<char>, ConfigM>>,
) -> Option<Map<Seq<char>, ConfigM>> {
    match b {
        None => a,
        Some(y) => match a {
            None => Some(y),
            Some(x) => Some(join_sections(x, y)),
        },
    }
}

/// Copies a section pair list, preserving its viewed pairs.
fn clone_section_pairs(v: &Vec<(String, Config)>) -> (r: Vec<(String, Config)>)
    ensures
        pview(r@) == pview(v@),
{
    let mut r: Vec<(String, Config)> = Vec::new();
    let mut i: usize = 0;
    while i < v.len()
        invariant
            i <= v@.len(),
            r@.len() == i,
            forall|j: int| 0 <= j < i ==> #[trigger] r@[j].0@ == v@[j].0@ && r@[j].1@ == v@[j].1@,
        decreases v@.len() - i,
    {
        r.push((v[i].0.clone(), v[i].1.clone()));
        i = i + 1;
    }
    proof {
        assert(pview(r@) =~= pview(v@));
    }
    r
}

impl Clone for Application {
    fn clone(&self) -> (r: Self)
        ensures
            r@ == self@,
    {
        match &self.config {
            None => Application { config: None },
            Some(v) => Application { config: Some(clone_section_pairs(v)) },
        }
    }
}

impl Application {
    /// The application with no config at all.
    pub fn empty() -> (r: Self)
        ensures
            r@ == (ApplicationView { config: None::<Seq<(Seq<char>, ConfigView)>> }),
            app_wf(r@),
    {
        Application { config: None }
    }

    /// An application holding the given sections; a later pair with the
    /// same key overrides an earlier one.
    pub fn from_sections(pairs: Vec<(String, Config)>) -> (r: Self)
        requires
            forall|i: int| 0 <= i < pairs@.len() ==> cfg_wf(#[trigger] pview(pairs@)[i].1),
        ensures
            app_wf(r@),
            r@.config is Some,
            app_abs(r@) == Some(
                abs_sections(pview(pairs@)),
            ),
    {
        let ghost ps = pview(pairs@);
        let mut m: Vec<(String, Config)> = Vec::new();
        let mut i: usize = 0;
        while i < pairs.len()
            invariant
                i <= pairs@.len(),
                ps == pview(pairs@),
                forall|j: int| 0 <= j < ps.len() ==> cfg_wf(#[trigger] ps[j].1),
                keys_unique(pview(m@)),
                amap(pview(m@)) == amap(ps.take(i as int)),
                sections_wf(amap(pview(m@))),
            decreases pairs@.len() - i,
        {
            let ghost pre = amap(pview(m@));
            proof {
                assert(ps.take(i + 1).drop_last() =~= ps.take(i as int));
                assert(ps.take(i + 1).last() == ps[i as int]);
            }
            amap_insert(&mut m, pairs[i].0.clone(), pairs[i].1.clone());
            i = i + 1;
            proof {
                assert forall|k: Seq<char>| #[trigger]
                    amap(pview(m@)).contains_key(k) implies cfg_wf(amap(pview(m@))[k]) by {
                    if k != ps[i - 1].0 {
                        assert(pre.contains_key(k) && amap(pview(m@))[k] == pre[k]);
                    } else {
                        assert(amap(pview(m@))[k] == ps[i - 1].1);
                        assert(cfg_wf(ps[i - 1].1));
                    }
                }
            }
        }
        proof {
            assert(ps.take(pairs@.len() as int) =~= ps);
        }
        Application { config: Some(m) }
    }

    /// The sections, if any, as a pair list.
    pub fn sections(&self) -> (r: &Option<Vec<(String, Config)>>)
        ensures
            match r {
                Some(v) => self@.config == Some(pview(v@)),
                None => self@.config is None,
            },
    {
        &self.config
    }

    /// Merges `other` into `self`, two-level: section keys union with
    /// `other` winning, and a section present on both sides merges its two
    /// configs one level deeper. A kind mismatch under any section fails
    /// with `IncompatibleConfigType` naming it, leaving `self` unchanged.
    pub fn merge(&mut self, other: &Application) -> (r: Result<(), ProjectError>)
        requires
            app_wf(old(self)@),
            app_wf(other@),
        ensures
            match r {
                Ok(()) => app_compat(app_abs(old(self)@), app_abs(other@)) && app_wf(final(self)@)
                    && app_abs(final(self)@) == app_join(app_abs(old(self)@), app_abs(other@)),
                Err(e) => !app_compat(app_abs(old(self)@), app_abs(other@)) && final(self)@ == old(
                    self,
                )@ && (exists|k: Seq<char>|
                    e@ == (ErrorView::IncompatibleConfigType { key: k })
                        && #[trigger] app_abs(old(self)@)->0.contains_key(k) && app_abs(
                        other@,
                    )->0.contains_key(k) && !cfg_compat(
                        app_abs(old(self)@)->0[k],
                        app_abs(other@)->0[k],
                    )),
            },
    {
        let oc = match &other.config {
            None => {
                return Ok(());
            },
            Some(oc) => oc,
        };
        let sc = match &self.config {
            None => {
                let copied = clone_section_pairs(oc);
                proof {
                    assert(abs_sections(pview(copied@)) =~= abs_sections(
                        pview(oc@),
                    ));
                }
                self.config = Some(copied);
                return Ok(());
            },
            Some(sc) => sc,
        };
        let ghost am = abs_sections(pview(sc@));
        let ghost opairs = pview(oc@);
        let mut merged = clone_section_pairs(sc);
        let mut i: usize = 0;
        proof {
            assert(abs_sections(opairs.take(0)) =~= Map::<
                Seq<char>,
                ConfigM,
            >::empty());
            assert(join_sections(am, abs_sections(opairs.take(0)))
                =~= am);
        }
        while i < oc.len()
            invariant
                i <= oc@.len(),
                self@ == old(self)@,
                self@.config == Some(pview(sc@)),
                other@.config == Some(pview(oc@)),
                opairs == pview(oc@),
                keys_unique(opairs),
                sections_wf(amap(opairs)),
                am == abs_sections(pview(sc@)),
                keys_unique(pview(merged@)),
                sections_wf(amap(pview(merged@))),
                sections_compat(
                    am,
                    abs_sections(opairs.take(i as int)),
                ),
                abs_sections(pview(merged@)) == join_sections(
                    am,
                    abs_sections(opairs.take(i as int)),
                ),
            decreases oc@.len() - i,
        {
            let ghost bm_pre = abs_sections(opairs.take(i as int));
            let ghost k = opairs[i as int].0;
            let ghost merged_map = amap(pview(merged@));
            proof {
                // this key has not been processed yet
                assert forall|j: int| 0 <= j < i implies #[trigger] opairs[j].0 != k by {}
                crate::amap::lemma_amap_dom(opairs.take(i as int));
                assert(!amap(opairs.take(i as int)).contains_key(k));
                assert(!bm_pre.contains_key(k));
                // the value other holds at this key
                lemma_amap_index(opairs, i as int);
                assert(opairs.take(i + 1).drop_last() =~= opairs.take(i as int));
                assert(opairs.take(i + 1).last() == opairs[i as int]);
            }
            let idx = amap_find(&merged, &oc[i].0);
            match idx {
                Some(j) => {
                    proof {
                        lemma_amap_index(pview(merged@), j as int);
                        assert(merged_map.contains_key(k));
                        assert(abs_sections(pview(merged@)).contains_key(k));
                        assert(am.contains_key(k));
                        assert(merged_map[k] == pview(merged@)[j as int].1);
                        assert(abs_sections(pview(merged@))[k] == cfg_abs(merged_map[k]));
                        assert(join_sections(am, bm_pre)[k] == am[k]);
                        assert(cfg_abs(merged_map[k]) == am[k]);
                        assert(cfg_wf(merged_map[k]));
                        assert(cfg_wf(amap(opairs)[k]));
                        assert(amap(opairs)[k] == opairs[i as int].1);
                    }
                    let mut cur = merged[j].1.clone();
                    let res = cur.merge(&oc[i].1, &oc[i].0);
                    match res {
                        Ok(()) => {
                            let ghost pre = amap(pview(merged@));
                            let ghost cv = cur@;
                            amap_insert(&mut merged, oc[i].0.clone(), cur);
                            proof {
                                assert(amap(opairs.take(i + 1)) == amap(opairs.take(i as int)).insert(
                                    k,
                                    opairs[i as int].1,
                                ));
                                lemma_abs_insert(pre, k, cv);
                                lemma_abs_insert(amap(opairs.take(i as int)), k, opairs[i as int].1);
                                assert(amap(pview(merged@)) == pre.insert(k, cv));
                                assert(pre.map_values(|c: ConfigView| cfg_abs(c)) == join_sections(
                                    am,
                                    bm_pre,
                                ));
                                assert(cfg_abs(cv) == cfg_join(am[k], cfg_abs(opairs[i as int].1)));
                                assert(abs_sections(opairs.take(i + 1)) == bm_pre.insert(
                                    k,
                                    cfg_abs(opairs[i as int].1),
                                ));
                                assert(abs_sections(pview(merged@))
                                    =~= join_sections(
                                    am,
                                    abs_sections(opairs.take(i + 1)),
                                ));
                                assert forall|kk: Seq<char>|
                                    am.contains_key(kk) && #[trigger] abs_sections(
                                        opairs.take(i + 1),
                                    ).contains_key(kk)
                                    implies cfg_compat(
                                    am[kk],
                                    abs_sections(opairs.take(i + 1))[kk],
                                ) by {
                                    if kk != k {
                                        assert(bm_pre.contains_key(kk));
                                    }
                                }
                                // the new section map keeps every config well formed
                                assert forall|kk: Seq<char>| #[trigger]
                                    amap(pview(merged@)).contains_key(kk) implies cfg_wf(
                                    amap(pview(merged@))[kk],
                                ) by {
                                    if kk != k {
                                        assert(pre.contains_key(kk) && amap(pview(merged@))[kk]
                                            == pre[kk]);
                                    }
                                }
                            }
                        },
                        Err(e) => {
                            proof {
                                assert(!cfg_compat(am[k], cfg_abs(opairs[i as int].1)));
                                assert(amap(opairs).contains_key(k));
                                assert(abs_sections(opairs).contains_key(k));
                                assert(abs_sections(opairs)[k]
                                    == cfg_abs(opairs[i as int].1));
                                assert(app_abs(old(self)@) == Some(am));
                                assert(app_abs(other@) == Some(abs_sections(opairs)));
                                assert(!sections_compat(am, abs_sections(opairs)));
                                assert(e@ == (ErrorView::IncompatibleConfigType { key: k }));
                                assert(app_abs(old(self)@)->0.contains_key(k));
                            }
                            return Err(e);
                        },
                    }
                },
                None => {
                    let ghost pre = amap(pview(merged@));
                    proof {
                        crate::amap::lemma_amap_dom(pview(merged@));
                        assert(!merged_map.contains_key(k));
                        assert(!am.contains_key(k));
                    }
                    amap_insert(&mut merged, oc[i].0.clone(), oc[i].1.clone());
                    proof {
                        assert(amap(opairs.take(i + 1)) == amap(opairs.take(i as int)).insert(
                            k,
                            opairs[i as int].1,
                        ));
                        lemma_abs_insert(pre, k, opairs[i as int].1);
                        lemma_abs_insert(amap(opairs.take(i as int)), k, opairs[i as int].1);
                        assert(amap(pview(merged@)) == pre.insert(k, opairs[i as int].1));
                        assert(pre.map_values(|c: ConfigView| cfg_abs(c)) == join_sections(
                            am,
                            bm_pre,
                        ));
                        assert(abs_sections(opairs.take(i + 1)) == bm_pre.insert(
                            k,
                            cfg_abs(opairs[i as int].1),
                        ));
                        assert(abs_sections(pview(merged@))
                            =~= join_sections(
                            am,
                            abs_sections(opairs.take(i + 1)),
                        ));
                        assert forall|kk: Seq<char>|
                            am.contains_key(kk) && #[trigger] abs_sections(opairs.take(i + 1)).contains_key(kk) implies cfg_compat(
                            am[kk],
                            abs_sections(opairs.take(i + 1))[kk],
                        ) by {
                            if kk != k {
                                assert(bm_pre.contains_key(kk));
                            }
                        }
                        assert forall|kk: Seq<char>| #[trigger]
                            amap(pview(merged@)).contains_key(kk) implies cfg_wf(
                            amap(pview(merged@))[kk],
                        ) by {
                            if kk != k {
                                assert(pre.contains_key(kk) && amap(pview(merged@))[kk] == pre[kk]);
                            } else {
                                assert(amap(pview(merged@))[kk] == opairs[i as int].1);
                            }
                        }
                    }
                },
            }
            i = i + 1;
        }
        proof {
            assert(opairs.take(oc@.len() as int) =~= opairs);
        }
        self.config = Some(merged);
        Ok(())
    }
}

} // verus!
