use bifrost::selftest::{
    exact_match_passes, negative_passes, run_self_test, ExactMatchGroup, NegativeTest, SearchTestFixture,
};
use bifrost::snapshot::{Substance, SubstanceAliases, SubstanceSnapshot};

fn make_substance(name: &str) -> Substance {
    Substance {
        name: Some(name.to_string()),
        ..Default::default()
    }
}

fn strings(items: &[&str]) -> Vec<String> {
    items.iter().map(|s| s.to_string()).collect()
}

fn fixture() -> SearchTestFixture {
    SearchTestFixture {
        exact_match_tests: vec![
            ExactMatchGroup { substance: "2C-B".to_string(), queries: strings(&["2cb", "2-cb"]) },
            ExactMatchGroup { substance: "LSD".to_string(), queries: strings(&["Acid", "LSD-25", "Lucy"]) },
            ExactMatchGroup { substance: "MDMA".to_string(), queries: strings(&["Molly", "Ecstasy", "XTC"]) },
            ExactMatchGroup { substance: "Salvinorin B".to_string(), queries: strings(&["salvinorin b"]) },
        ],
        negative_tests: vec![
            NegativeTest {
                query: "2cb".to_string(),
                expected: "2C-B".to_string(),
                excluded: strings(&["2C-C", "2C-D", "2C-E", "2C-I"]),
            },
            NegativeTest {
                query: "lsd".to_string(),
                expected: "LSD".to_string(),
                excluded: strings(&["LSA", "LSM-775", "LSZ"]),
            },
            NegativeTest { query: "2c-x".to_string(), expected: "2C-X-Unknown".to_string(), excluded: vec![] },
        ],
    }
}

#[test]
fn test_selftest_passes_basic() {
    let substances = vec![
        make_substance("2C-B"),
        make_substance("2C-C"),
        make_substance("2C-D"),
        make_substance("2C-E"),
        make_substance("2C-I"),
        make_substance("2C-P"),
        make_substance("2C-T-2"),
        make_substance("2C-T-7"),
        make_substance("2C-T-21"),
        make_substance("2C-H"),
        make_substance("2C-B-FLY"),
        make_substance("2C-x"),
        make_substance("LSD"),
        make_substance("LSA"),
        make_substance("LSM-775"),
        make_substance("LSZ"),
        make_substance("1P-LSD"),
        make_substance("AL-LAD"),
        make_substance("ALD-52"),
        make_substance("ETH-LAD"),
        make_substance("MDMA"),
        make_substance("MDA"),
        make_substance("MDEA"),
        make_substance("Methylone"),
        make_substance("MDPV"),
        make_substance("DMT"),
        make_substance("5-MeO-DMT"),
        make_substance("4-AcO-DMT"),
        make_substance("DPT"),
        make_substance("DET"),
        make_substance("DiPT"),
        make_substance("Ketamine"),
        make_substance("Methoxetamine"),
        make_substance("Deschloroketamine"),
        make_substance("2-Fluorodeschloroketamine"),
        make_substance("Amphetamine"),
        make_substance("Methamphetamine"),
        make_substance("Dextroamphetamine"),
        make_substance("Lisdexamfetamine"),
        make_substance("Methylphenidate"),
    ];
    let aliases = SubstanceAliases {
        aliases: vec![
            ("2C-B".to_string(), strings(&["2cb", "2-cb"])),
            ("LSD".to_string(), strings(&["Acid", "LSD-25", "Lucy"])),
            ("MDMA".to_string(), strings(&["Molly", "Ecstasy", "XTC"])),
        ],
    };
    let snapshot = SubstanceSnapshot::build_with_aliases(substances, aliases);
    let result = run_self_test(&snapshot, &fixture());
    assert!(result.is_pass(), "Self-test failed with {} failures out of {} assertions", result.failed, result.total_assertions);
    assert!(result.total_assertions > 0, "Should have run some tests");
    assert!(result.skipped > 0, "Should have skipped some tests (not all substances present)");
    assert_eq!(result.total_assertions, 10);
    assert_eq!(result.skipped, 2);
}

#[test]
fn test_selftest_catches_wrong_alias() {
    let substances = vec![make_substance("2C-B"), make_substance("2C-C")];
    let aliases = SubstanceAliases {
        aliases: vec![("2C-C".to_string(), strings(&["2cb", "2-cb"]))],
    };
    let snapshot = SubstanceSnapshot::build_with_aliases(substances, aliases);
    let result = run_self_test(&snapshot, &fixture());
    assert!(result.failed > 0, "Self-test should have caught the wrong alias mapping");
    assert_eq!(result.failures[0].test_type, "exact_match");
    assert_eq!(result.failures[0].actual, "2C-C");
}

#[test]
fn single_checks_compare_names_ignoring_case() {
    let a = make_substance("LSD");
    let b = make_substance("LSA");
    assert!(exact_match_passes(&vec![&a], &"lsd".to_string()));
    assert!(!exact_match_passes(&vec![&a, &b], &"lsd".to_string()));
    assert!(!exact_match_passes(&vec![], &"lsd".to_string()));
    assert!(negative_passes(&vec![&a], &"LSD".to_string(), &strings(&["lsa"])));
    assert!(!negative_passes(&vec![&a, &b], &"LSD".to_string(), &strings(&["lsa"])));
    assert!(!negative_passes(&vec![&b], &"LSD".to_string(), &vec![]));
}
