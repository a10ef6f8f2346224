//! The values a fresh project starts from.
//!
//! Initialisation writes a new root document and, when asked, one include
//! document beside it. What those documents hold is computed here; writing
//! them out is the caller's business.

use vstd::prelude::*;
use vstd::string::*;

use crate::amap::{amap, pview};
use crate::config::{
    abs_sections, app_abs, app_wf, lemma_abs_insert, Application, ApplicationView, Config,
    ConfigM, ConfigView,
};
use crate::project::{ContainerMode, Project, ProjectInclude};
use crate::runner::str_views;
use crate::scalar::ConfigValue;

verus! {

/// The placeholder config every fresh document starts with: one `key`
/// section holding the scalar `XXXX`.
pub open spec fn starter_sections() -> Map<Seq<char>, ConfigM> {
    Map::empty().insert("key"@, ConfigM::Single { value: "XXXX"@ })
}

/// The sample config written into a generated root document: the `key`
/// placeholder and a `db` section with stock connection values.
pub open spec fn sample_sections() -> Map<Seq<char>, ConfigM> {
    Map::empty().insert("key"@, ConfigM::Single { value: "XXXX"@ }).insert(
        "db"@,
        ConfigM::Table {
            entries: Map::empty().insert("host"@, "localhost"@).insert("port"@, "80"@).insert(
                "user"@,
                "user"@,
            ).insert("pass"@, "secret"@).insert("db"@, "db"@),
        },
    )
}

/// The sample override written into a generated include document: the `db`
/// section with its port moved.
pub open spec fn sample_override_sections() -> Map<Seq<char>, ConfigM> {
    Map::empty().insert(
        "db"@,
        ConfigM::Table { entries: Map::<Seq<char>, Seq<char>>::empty().insert("port"@, "8080"@) },
    )
}

/// An application holding exactly the `key` placeholder section.
fn starter_app() -> (r: Application)
    ensures
        app_wf(r@),
        app_abs(r@) == Some(starter_sections()),
{
    let mut pairs: Vec<(String, Config)> = Vec::new();
    pairs.push((String::from_str("key"), Config::single(ConfigValue::new("XXXX"))));
    proof {
        assert(pview(pairs@) =~= seq![
            ("key"@, ConfigView::Single { value: "XXXX"@ }),
        ]);
        assert(pview(pairs@).drop_last() =~= Seq::<(Seq<char>, ConfigView)>::empty());
        crate::amap::lemma_amap_empty::<ConfigView>();
        assert(amap(pview(pairs@)) == Map::<Seq<char>, ConfigView>::empty().insert(
            "key"@,
            ConfigView::Single { value: "XXXX"@ },
        ));
        lemma_abs_insert(
            Map::<Seq<char>, ConfigView>::empty(),
            "key"@,
            ConfigView::Single { value: "XXXX"@ },
        );
        assert(Map::<Seq<char>, ConfigView>::empty().map_values(|c: ConfigView| crate::config::cfg_abs(c))
            =~= Map::<Seq<char>, ConfigM>::empty());
        assert(abs_sections(pview(pairs@)) =~= starter_sections());
    }
    Application::from_sections(pairs)
}

/// A freshly initialised project built from the answers the caller
/// gathered: its name, description and umbrella flag, and whether a
/// private include document should be declared and generated beside it.
pub fn init_project(name: String, description: String, umbrella: bool, include_file: bool) -> (r:
    Project)
    ensures
        r@.name == name@,
        r@.description == Some(description@),
        r@.language is None,
        r@.container == ContainerMode::NoContainer,
        r@.umbrella == umbrella,
        include_file ==> r@.includes =~= seq!["onyx.priv.yml"@],
        !include_file ==> r@.includes =~= Seq::<Seq<char>>::empty(),
        r@.included is None,
        app_wf(r@.app),
        app_abs(r@.app) == Some(starter_sections()),
        umbrella ==> r@.apps =~= Some(Seq::<(Seq<char>, ApplicationView)>::empty()),
        !umbrella ==> r@.apps is None,
        r@.runner.valid.len() == 0,
        r@.runner.default.len() == 0,
{
    let mut includes: Vec<String> = Vec::new();
    if include_file {
        includes.push(String::from_str("onyx.priv.yml"));
    }
    proof {
        if include_file {
            assert(str_views(includes@) =~= seq!["onyx.priv.yml"@]);
        } else {
            assert(str_views(includes@) =~= Seq::<Seq<char>>::empty());
        }
    }
    let apps: Option<Vec<(String, Application)>> = if umbrella {
        Some(Vec::new())
    } else {
        None
    };
    proof {
        if umbrella {
            assert(pview(Seq::<(String, Application)>::empty()) =~= Seq::<
                (Seq<char>, ApplicationView),
            >::empty());
        }
    }
    Project {
        name,
        description: Some(description),
        language: None,
        container: ContainerMode::NoContainer,
        umbrella,
        includes,
        included: None,
        app: starter_app(),
        apps,
        runner: Default::default(),
    }
}

/// The sample configuration a generated root document carries: the `key`
/// placeholder and the stock `db` section.
pub fn sample_app() -> (r: Application)
    ensures
        app_wf(r@),
        app_abs(r@) == Some(sample_sections()),
{
    let mut db_pairs: Vec<(String, ConfigValue)> = Vec::new();
    db_pairs.push((String::from_str("host"), ConfigValue::new("localhost")));
    db_pairs.push((String::from_str("port"), ConfigValue::new("80")));
    db_pairs.push((String::from_str("user"), ConfigValue::new("user")));
    db_pairs.push((String::from_str("pass"), ConfigValue::new("secret")));
    db_pairs.push((String::from_str("db"), ConfigValue::new("db")));
    let db = Config::new_map(db_pairs);
    proof {
        let ps = pview(db_pairs@);
        assert(ps =~= seq![
            ("host"@, "localhost"@),
            ("port"@, "80"@),
            ("user"@, "user"@),
            ("pass"@, "secret"@),
            ("db"@, "db"@),
        ]);
        assert(ps.drop_last() =~= ps.take(4));
        assert(ps.take(4).drop_last() =~= ps.take(3));
        assert(ps.take(3).drop_last() =~= ps.take(2));
        assert(ps.take(2).drop_last() =~= ps.take(1));
        assert(ps.take(1).drop_last() =~= Seq::<(Seq<char>, Seq<char>)>::empty());
        crate::amap::lemma_amap_empty::<Seq<char>>();
        assert(amap(ps.take(1)) == Map::<Seq<char>, Seq<char>>::empty().insert(
            "host"@,
            "localhost"@,
        ));
        assert(amap(ps.take(2)) == amap(ps.take(1)).insert("port"@, "80"@));
        assert(amap(ps.take(3)) == amap(ps.take(2)).insert("user"@, "user"@));
        assert(amap(ps.take(4)) == amap(ps.take(3)).insert("pass"@, "secret"@));
        assert(amap(ps) == amap(ps.take(4)).insert("db"@, "db"@));
    }
    let mut pairs: Vec<(String, Config)> = Vec::new();
    pairs.push((String::from_str("key"), Config::single(ConfigValue::new("XXXX"))));
    pairs.push((String::from_str("db"), db));
    proof {
        let ghost_db = pview(pairs@)[1].1;
        let qs = pview(pairs@);
        assert(qs.drop_last() =~= qs.take(1));
        assert(qs.take(1).drop_last() =~= Seq::<(Seq<char>, ConfigView)>::empty());
        crate::amap::lemma_amap_empty::<ConfigView>();
        assert(amap(qs.take(1)) == Map::<Seq<char>, ConfigView>::empty().insert(
            "key"@,
            qs[0].1,
        ));
        assert(amap(qs) == amap(qs.take(1)).insert("db"@, ghost_db));
        assert(amap(pview(pairs@)) == Map::<Seq<char>, ConfigView>::empty().insert(
            "key"@,
            pview(pairs@)[0].1,
        ).insert("db"@, ghost_db));
        lemma_abs_insert(
            Map::<Seq<char>, ConfigView>::empty(),
            "key"@,
            pview(pairs@)[0].1,
        );
        lemma_abs_insert(
            Map::<Seq<char>, ConfigView>::empty().insert("key"@, pview(pairs@)[0].1),
            "db"@,
            ghost_db,
        );
        assert(Map::<Seq<char>, ConfigView>::empty().map_values(|c: ConfigView| crate::config::cfg_abs(c))
            =~= Map::<Seq<char>, ConfigM>::empty());
        assert(abs_sections(pview(pairs@)) =~= sample_sections());
    }
    Application::from_sections(pairs)
}

/// The override configuration a generated include document carries: the
/// `db` section with its port moved to `8080`.
pub fn sample_include() -> (r: ProjectInclude)
    ensures
        app_wf(r@.app),
        app_abs(r@.app) == Some(sample_override_sections()),
        r@.apps is None,
        r@.runner is None,
{
    let mut db_pairs: Vec<(String, ConfigValue)> = Vec::new();
    db_pairs.push((String::from_str("port"), ConfigValue::new("8080")));
    let db = Config::new_map(db_pairs);
    proof {
        assert(pview(db_pairs@) =~= seq![("port"@, "8080"@)]);
        assert(pview(db_pairs@).drop_last() =~= Seq::<(Seq<char>, Seq<char>)>::empty());
        crate::amap::lemma_amap_empty::<Seq<char>>();
        assert(amap(pview(db_pairs@)) == Map::<Seq<char>, Seq<char>>::empty().insert(
            "port"@,
            "8080"@,
        ));
    }
    let mut pairs: Vec<(String, Config)> = Vec::new();
    pairs.push((String::from_str("db"), db));
    proof {
        assert(pview(pairs@).drop_last() =~= Seq::<(Seq<char>, ConfigView)>::empty());
        crate::amap::lemma_amap_empty::<ConfigView>();
        assert(amap(pview(pairs@)) == Map::<Seq<char>, ConfigView>::empty().insert(
            "db"@,
            pview(pairs@)[0].1,
        ));
        lemma_abs_insert(Map::<Seq<char>, ConfigView>::empty(), "db"@, pview(pairs@)[0].1);
        assert(Map::<Seq<char>, ConfigView>::empty().map_values(|c: ConfigView| crate::config::cfg_abs(c))
            =~= Map::<Seq<char>, ConfigM>::empty());
        assert(abs_sections(pview(pairs@)) =~= sample_override_sections());
    }
    ProjectInclude { app: Application::from_sections(pairs), apps: None, runner: None }
}

} // verus!
