use bifrost::reagents::ReagentData;

#[test]
fn test_normalize_chemical_name() {
    assert_eq!(ReagentData::normalize_chemical_name("4-HO-MET"), "4homet");
    assert_eq!(ReagentData::normalize_chemical_name("4homet"), "4homet");
    assert_eq!(ReagentData::normalize_chemical_name("4-homet"), "4homet");
    assert_eq!(ReagentData::normalize_chemical_name("2C-B"), "2cb");
    assert_eq!(ReagentData::normalize_chemical_name("LSD"), "lsd");
}

use bifrost::reagents::{RawReagentData, RawResult, Reagent, ReagentColor};

#[test]
fn test_parse_substance_name() {
    let parsed = ReagentData::parse_substance_name("LSD");
    assert_eq!(parsed.chemical_name, "LSD");
    assert!(parsed.alternative_names.is_empty());
    let parsed = ReagentData::parse_substance_name("4-HO-MET (Metocin, Methylcybin)");
    assert_eq!(parsed.chemical_name, "4-HO-MET");
    assert_eq!(parsed.alternative_names, vec!["Metocin", "Methylcybin"]);
    let parsed = ReagentData::parse_substance_name("2C-B (Nexus, Bees)");
    assert_eq!(parsed.chemical_name, "2C-B");
    assert_eq!(parsed.alternative_names, vec!["Nexus", "Bees"]);
}

#[test]
fn parse_handles_edge_forms() {
    let parsed = ReagentData::parse_substance_name("Foo (a, , b) ");
    assert_eq!(parsed.chemical_name, "Foo");
    assert_eq!(parsed.alternative_names, vec!["a", "b"]);
    let parsed = ReagentData::parse_substance_name("Bar ()");
    assert_eq!(parsed.chemical_name, "Bar ()");
    assert!(parsed.alternative_names.is_empty());
    let parsed = ReagentData::parse_substance_name("(x)");
    assert_eq!(parsed.chemical_name, "(x)");
    let parsed = ReagentData::parse_substance_name("A (b) (c)");
    assert_eq!(parsed.chemical_name, "A (b)");
    assert_eq!(parsed.alternative_names, vec!["c"]);
}

fn sample() -> ReagentData {
    let color = |id: i32, name: &str| ReagentColor {
        id,
        name: name.to_string(),
        hex: "#000000".to_string(),
        simple: true,
        simple_color_id: Some(id),
    };
    let reagent = |id: i32, name: &str| Reagent {
        id,
        name: name.to_string(),
        full_name: name.to_string(),
        short_name: name.to_string(),
        white_first_color: None,
    };
    ReagentData::build(RawReagentData {
        colors: vec![color(2, "Purple"), color(1, "Black")],
        reagents: vec![reagent(10, "Marquis"), reagent(11, "Mecke")],
        results: vec![
            Some(vec![Some(vec![RawResult(vec![1], vec![2, 99], true, "dark".to_string())]), None]),
            None,
            None,
        ],
        substances: vec![
            "4-HO-MET (Metocin, Methylcybin)".to_string(),
            "4-HO-MIPT (Miprocin, Shared)".to_string(),
            "2C-B (Nexus, Shared)".to_string(),
        ],
    })
}

#[test]
fn lookup_prefers_exact_then_normalized_then_unique_prefix() {
    let data = sample();
    assert_eq!(data.substance_count(), 3);
    let hit = data.lookup("4-ho-met").unwrap();
    assert_eq!(hit.substance_name, "4-HO-MET");
    assert_eq!(hit.raw_name.as_deref(), Some("4-HO-MET (Metocin, Methylcybin)"));
    assert_eq!(hit.results.len(), 1);
    assert_eq!(hit.results[0].reagent.name, "Marquis");
    assert_eq!(hit.results[0].start_colors.len(), 1);
    assert_eq!(hit.results[0].end_colors.len(), 1);
    assert_eq!(data.lookup("4homet").unwrap().substance_name, "4-HO-MET");
    assert_eq!(data.lookup("metocin").unwrap().substance_name, "4-HO-MET");
    assert_eq!(data.lookup("2c").unwrap().substance_name, "2C-B");
    assert!(data.lookup("4-ho-m").is_none(), "two chemical names share the prefix");
    assert!(data.lookup("shared").is_none(), "a repeated alternative name is not registered");
    assert_eq!(data.lookup("miproc").unwrap().substance_name, "4-HO-MIPT");
    assert!(data.is_ambiguous("4ho"));
    assert!(!data.is_ambiguous("2cb"));
    assert_eq!(data.lookup_many(&vec!["nexus".to_string(), "zzz".to_string()]).len(), 2);
    let colors = data.get_all_colors();
    assert_eq!(colors.iter().map(|c| c.id).collect::<Vec<_>>(), vec![1, 2]);
    assert_eq!(data.get_all_reagents().len(), 2);
}
