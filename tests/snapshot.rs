use bifrost::snapshot::{Substance, SubstanceAliases, SubstanceClass, SubstanceSnapshot};

fn make_test_substance(name: &str) -> Substance {
    Substance {
        name: Some(name.to_string()),
        ..Default::default()
    }
}

fn make_test_aliases() -> SubstanceAliases {
    SubstanceAliases {
        aliases: vec![
            (
                "LSD".to_string(),
                vec![
                    "Acid".to_string(),
                    "LSD-25".to_string(),
                    "Lucy".to_string(),
                    "Lysergic acid diethylamide".to_string(),
                ],
            ),
            (
                "MDMA".to_string(),
                vec!["Ecstasy".to_string(), "Molly".to_string(), "XTC".to_string()],
            ),
        ],
    }
}

fn names_of(results: &[&Substance]) -> Vec<String> {
    results.iter().filter_map(|s| s.name.clone()).collect()
}

#[test]
fn test_exact_name_search() {
    let substances = vec![
        make_test_substance("LSD"),
        make_test_substance("LSA"),
        make_test_substance("MDMA"),
        make_test_substance("Cannabis"),
    ];
    let snapshot = SubstanceSnapshot::build_with_aliases(substances, make_test_aliases());
    let results = snapshot.search("LSD");
    assert_eq!(results.len(), 1);
    assert_eq!(results[0].name.as_deref(), Some("LSD"));
    let results = snapshot.search("lsd");
    assert_eq!(results.len(), 1);
    assert_eq!(results[0].name.as_deref(), Some("LSD"));
}

#[test]
fn test_alias_search() {
    let substances = vec![
        make_test_substance("LSD"),
        make_test_substance("MDMA"),
        make_test_substance("Cannabis"),
    ];
    let snapshot = SubstanceSnapshot::build_with_aliases(substances, make_test_aliases());
    let results = snapshot.search("Acid");
    assert_eq!(results.len(), 1);
    assert_eq!(results[0].name.as_deref(), Some("LSD"));
    let results = snapshot.search("Molly");
    assert_eq!(results.len(), 1);
    assert_eq!(results[0].name.as_deref(), Some("MDMA"));
    let results = snapshot.search("ecstasy");
    assert_eq!(results.len(), 1);
    assert_eq!(results[0].name.as_deref(), Some("MDMA"));
}

#[test]
fn test_prefix_search() {
    let substances = vec![
        make_test_substance("LSD"),
        make_test_substance("LSA"),
        make_test_substance("LSM-775"),
        make_test_substance("LSZ"),
        make_test_substance("MDMA"),
    ];
    let snapshot = SubstanceSnapshot::build_with_aliases(substances, make_test_aliases());
    let results = snapshot.search("LS");
    assert_eq!(results.len(), 4);
    let names = names_of(&results);
    assert!(names.contains(&"LSD".to_string()));
    assert!(names.contains(&"LSA".to_string()));
    assert!(names.contains(&"LSM-775".to_string()));
    assert!(names.contains(&"LSZ".to_string()));
}

#[test]
fn test_exact_match_takes_priority_over_prefix() {
    let substances = vec![make_test_substance("LSD"), make_test_substance("LSA")];
    let snapshot = SubstanceSnapshot::build_with_aliases(substances, make_test_aliases());
    let results = snapshot.search("LSD");
    assert_eq!(results.len(), 1);
    assert_eq!(results[0].name.as_deref(), Some("LSD"));
}

#[test]
fn test_no_match() {
    let substances = vec![make_test_substance("LSD"), make_test_substance("MDMA")];
    let snapshot = SubstanceSnapshot::build_with_aliases(substances, make_test_aliases());
    let results = snapshot.search("Aspirin");
    assert_eq!(results.len(), 0);
}

#[test]
fn test_snapshot_build_basic() {
    let substances = vec![
        Substance {
            name: Some("LSD".to_string()),
            class: Some(SubstanceClass {
                chemical: Some(vec!["Lysergamide".to_string()]),
                psychoactive: Some(vec!["Psychedelic".to_string()]),
            }),
            ..Default::default()
        },
        Substance {
            name: Some("MDMA".to_string()),
            class: Some(SubstanceClass {
                chemical: Some(vec!["Phenethylamine".to_string()]),
                psychoactive: Some(vec!["Entactogen".to_string()]),
            }),
            ..Default::default()
        },
    ];
    let snapshot = SubstanceSnapshot::build(substances);
    assert_eq!(snapshot.meta.substance_count, 2);
    assert!(snapshot.get_by_name("lsd").is_some());
    assert!(snapshot.get_by_name("LSD").is_some());
    assert!(!snapshot.get_by_chemical_class("lysergamide").is_empty());
}

#[test]
fn cold_start_search_scenario() {
    let snapshot = SubstanceSnapshot::build(vec![
        make_test_substance("LSD"),
        make_test_substance("MDMA"),
        make_test_substance("Cannabis"),
    ]);
    assert_eq!(snapshot.substances.len(), 3);
    assert_eq!(names_of(&snapshot.search("LSD")), vec!["LSD".to_string()]);
    assert_eq!(names_of(&snapshot.search("ls")), vec!["LSD".to_string()]);
    assert!(snapshot.search("mescaline").is_empty());
    assert!(snapshot.search("").is_empty());
}

#[test]
fn curated_alias_beats_redirect_to_other_record() {
    let mut aliases = SubstanceAliases {
        aliases: vec![("LSD".to_string(), vec!["Acid".to_string()])],
    };
    aliases.merge_redirects(&vec![("2C-B".to_string(), vec!["Acid".to_string(), "Nexus".to_string()])]);
    assert_eq!(aliases.aliases.len(), 2);
    assert_eq!(aliases.aliases[1].0, "2C-B");
    assert_eq!(aliases.aliases[1].1, vec!["Nexus".to_string()]);
    let snapshot = SubstanceSnapshot::build_with_aliases(
        vec![make_test_substance("LSD"), make_test_substance("2C-B")],
        aliases,
    );
    assert_eq!(names_of(&snapshot.search("Acid")), vec!["LSD".to_string()]);
    assert_eq!(names_of(&snapshot.search("acid")), vec!["LSD".to_string()]);
    assert_eq!(names_of(&snapshot.search("nexus")), vec!["2C-B".to_string()]);
}

#[test]
fn redirect_filters_skip_reserved_and_duplicate_sources() {
    let mut aliases = SubstanceAliases {
        aliases: vec![("LSD".to_string(), vec!["Acid".to_string()])],
    };
    aliases.merge_redirects(&vec![(
        "LSD".to_string(),
        vec![
            "Talk:LSD".to_string(),
            "File:LSD.png".to_string(),
            "LSD/Summary".to_string(),
            "Liberty cap (Mycology)".to_string(),
            "lsd".to_string(),
            "ACID".to_string(),
            "Lucy".to_string(),
            "lucy".to_string(),
        ],
    )]);
    assert_eq!(aliases.aliases.len(), 1);
    // Sources are tested against the aliases held before the merge, so two
    // sources that differ only in case are both kept.
    assert_eq!(aliases.aliases[0].1, vec!["Acid".to_string(), "Lucy".to_string(), "lucy".to_string()]);
}

#[test]
fn common_names_take_priority_over_earlier_systematic_names() {
    let mut a = make_test_substance("Alpha");
    a.systematic_name = Some("Shared".to_string());
    let mut b = make_test_substance("Beta");
    b.common_names = Some(vec!["shared".to_string()]);
    let snapshot = SubstanceSnapshot::build(vec![a, b]);
    assert_eq!(snapshot.get_by_name_or_alias("SHARED").unwrap().name.as_deref(), Some("Beta"));
}

#[test]
fn exact_canonical_name_wins_over_alias() {
    let aliases = SubstanceAliases {
        aliases: vec![("Bar".to_string(), vec!["Foo".to_string()])],
    };
    let snapshot =
        SubstanceSnapshot::build_with_aliases(vec![make_test_substance("Foo"), make_test_substance("Bar")], aliases);
    assert_eq!(names_of(&snapshot.search("Foo")), vec!["Foo".to_string()]);
}

#[test]
fn alias_priority_curated_then_common_then_systematic() {
    let mut a = make_test_substance("Alpha");
    a.common_names = Some(vec!["Shared".to_string(), "OnlyCommon".to_string()]);
    a.systematic_name = Some("Sys".to_string());
    let mut b = make_test_substance("Beta");
    b.systematic_name = Some("OnlyCommon".to_string());
    let aliases = SubstanceAliases {
        aliases: vec![("Beta".to_string(), vec!["Shared".to_string()])],
    };
    let snapshot = SubstanceSnapshot::build_with_aliases(vec![a, b], aliases);
    assert_eq!(snapshot.get_by_name_or_alias("shared").unwrap().name.as_deref(), Some("Beta"));
    assert_eq!(snapshot.get_by_name_or_alias("onlycommon").unwrap().name.as_deref(), Some("Alpha"));
    assert_eq!(snapshot.get_by_name_or_alias("SYS").unwrap().name.as_deref(), Some("Alpha"));
    assert!(snapshot.get_by_name("shared").is_none());
}

#[test]
fn prefix_results_are_sorted_and_deduplicated() {
    let mut z = make_test_substance("Zeta");
    z.common_names = Some(vec!["mdz".to_string()]);
    let snapshot = SubstanceSnapshot::build(vec![
        make_test_substance("MDMA"),
        z,
        make_test_substance("mda"),
        make_test_substance("MDE"),
    ]);
    assert_eq!(
        names_of(&snapshot.search("md")),
        vec!["mda".to_string(), "MDE".to_string(), "MDMA".to_string(), "Zeta".to_string()]
    );
}

#[test]
fn tags_union_and_pagination() {
    let mut a = make_test_substance("A");
    a.effects = Some(vec!["Euphoria".to_string(), "Nausea".to_string()]);
    let mut b = make_test_substance("B");
    b.effects = Some(vec!["nausea".to_string()]);
    let mut c = make_test_substance("C");
    c.effects = Some(vec!["Sedation".to_string()]);
    let snapshot = SubstanceSnapshot::build(vec![a, b, c]);
    assert_eq!(names_of(&snapshot.get_by_effect("NAUSEA")), vec!["A".to_string(), "B".to_string()]);
    let effects = vec!["sedation".to_string(), "nausea".to_string(), "euphoria".to_string()];
    assert_eq!(
        names_of(&snapshot.get_by_effects(&effects)),
        vec!["C".to_string(), "A".to_string(), "B".to_string()]
    );
    assert_eq!(names_of(&snapshot.get_all(2, 1)), vec!["B".to_string(), "C".to_string()]);
    assert!(snapshot.get_all(5, 3).is_empty());
    assert_eq!(snapshot.get_effects_for_substance("a"), vec!["Euphoria".to_string(), "Nausea".to_string()]);
    assert!(snapshot.get_by_psychoactive_class("none").is_empty());
}

#[test]
fn mutations_rebuild_indexes() {
    let mut snapshot = SubstanceSnapshot::build(vec![make_test_substance("A"), make_test_substance("B")]);
    let mut b2 = make_test_substance("B");
    b2.summary = Some("updated".to_string());
    snapshot.update_substance("b", b2);
    assert_eq!(snapshot.get_summary_for_substance("B"), Some("updated".to_string()));
    snapshot.add_substance(make_test_substance("C"));
    assert_eq!(snapshot.meta.substance_count, 3);
    assert!(snapshot.remove_substance("a"));
    assert!(!snapshot.remove_substance("a"));
    assert!(snapshot.get_by_name("A").is_none());
    assert_eq!(snapshot.get_by_name("c").unwrap().name.as_deref(), Some("C"));
}

#[test]
fn interactions_resolve_to_records_or_stubs() {
    let mut a = make_test_substance("LSD");
    a.summary = Some("s".to_string());
    let snapshot = SubstanceSnapshot::build(vec![a]);
    let resolved = snapshot.resolve_interactions(
        &vec!["lsd".to_string(), "Alpha GPC".to_string()],
        "https://psychonautwiki.org/wiki/",
    );
    assert_eq!(resolved.len(), 2);
    assert_eq!(resolved[0].name.as_deref(), Some("LSD"));
    assert_eq!(resolved[0].summary.as_deref(), Some("s"));
    assert_eq!(resolved[1].name.as_deref(), Some("Alpha GPC"));
    assert_eq!(resolved[1].url.as_deref(), Some("https://psychonautwiki.org/wiki/Alpha%20GPC"));
    assert_eq!(snapshot.substances.len(), 1);
}
