use genechart::genrep::{Event, Family, GedDate, Genrep, Individual};
use genechart::parser::merge::{
    merge_into, parse_alias_content, prefix_id, remap_genrep, remap_id, AliasMap,
};

fn make_individual(id: &str, given: Option<&str>, surname: Option<&str>) -> Individual<()> {
    Individual {
        id: id.to_string(),
        given: given.map(|s| s.to_string()),
        surname: surname.map(|s| s.to_string()),
        sex: None,
        birth: None,
        death: None,
        fams: Vec::new(),
        famc: Vec::new(),
        alt_name: None,
        name_heb: None,
        living: None,
        notes: Vec::new(),
        in_scope: false,
        geo: None,
    }
}

fn make_family(id: &str) -> Family<()> {
    Family {
        id: id.to_string(),
        husband_id: None,
        wife_id: None,
        children_ids: Vec::new(),
        marriage: None,
        jmar: None,
        notes: Vec::new(),
        in_scope: false,
        geo: None,
    }
}

fn make_genrep(individuals: Vec<Individual<()>>, families: Vec<Family<()>>) -> Genrep {
    let first = individuals.first().map(|i| i.id.clone());
    Genrep {
        individuals,
        families,
        first_individual_id: first,
    }
}

// ── parse_alias_content ───────────────────────────────────────────────────

#[test]
fn alias_content_basic() {
    let content = "I1  I99  John Smith\nF1  F55\n";
    let map = parse_alias_content(content);
    assert_eq!(map.get("I99").map(|s| s.as_str()), Some("I1"));
    assert_eq!(map.get("F55").map(|s| s.as_str()), Some("F1"));
    assert_eq!(map.len(), 2);
}

#[test]
fn alias_content_ignores_comments_and_blank_lines() {
    let content = "# This is a comment\n\nI1  I99\n  # indented comment\n";
    let map = parse_alias_content(content);
    assert_eq!(map.len(), 1);
    assert_eq!(map.get("I99").map(|s| s.as_str()), Some("I1"));
}

#[test]
fn alias_content_single_field_line_is_skipped() {
    let content = "I1\nI2  I88\n";
    let map = parse_alias_content(content);
    // Single-field line is skipped with a warning; only the valid line is kept.
    assert_eq!(map.len(), 1);
    assert_eq!(map.get("I88").map(|s| s.as_str()), Some("I2"));
}

// ── prefix_id ─────────────────────────────────────────────────────────────

#[test]
fn prefix_id_standard() {
    assert_eq!(prefix_id("I123", 'B'), "IB123");
    assert_eq!(prefix_id("F456", 'C'), "FC456");
}

#[test]
fn prefix_id_single_char() {
    assert_eq!(prefix_id("I", 'B'), "IB");
}

#[test]
fn prefix_id_empty_string() {
    assert_eq!(prefix_id("", 'B'), "B");
}

// ── remap_id ──────────────────────────────────────────────────────────────

#[test]
fn remap_id_aliased() {
    let mut alias = AliasMap::new();
    alias.insert("I99".to_string(), "I1".to_string());
    assert_eq!(remap_id("I99", &alias, 'B'), "I1");
}

#[test]
fn remap_id_not_aliased() {
    let alias = AliasMap::new();
    assert_eq!(remap_id("I5", &alias, 'B'), "IB5");
}

// ── remap_genrep ──────────────────────────────────────────────────────────

#[test]
fn remap_genrep_remaps_all_cross_references() {
    let mut alias = AliasMap::new();
    alias.insert("I99".to_string(), "I1".to_string()); // I99 in further → I1 in main

    let mut ind = make_individual("I99", Some("John"), Some("Smith"));
    ind.fams = vec!["F55".to_string()];
    ind.famc = vec!["F10".to_string()];

    let mut fam = make_family("F55");
    fam.husband_id = Some("I99".to_string());
    fam.wife_id = Some("I100".to_string());
    fam.children_ids = vec!["I101".to_string()];

    let genrep = make_genrep(vec![ind], vec![fam]);
    let (remapped, _) = remap_genrep(genrep, &alias, 'B');

    // I99 → I1 (aliased)
    let i1 = remapped
        .get_individual("I1")
        .expect("I1 missing after remap");
    assert_eq!(i1.id, "I1");
    assert_eq!(i1.fams, vec!["FB55"]); // F55 → FB55 (not aliased)
    assert_eq!(i1.famc, vec!["FB10"]); // F10 → FB10

    // F55 → FB55
    let fb55 = remapped
        .get_family("FB55")
        .expect("FB55 missing after remap");
    assert_eq!(fb55.id, "FB55");
    assert_eq!(fb55.husband_id.as_deref(), Some("I1")); // I99 → I1
    assert_eq!(fb55.wife_id.as_deref(), Some("IB100")); // I100 → IB100
    assert_eq!(fb55.children_ids, vec!["IB101"]); // I101 → IB101
}

// ── merge_into ────────────────────────────────────────────────────────────

#[test]
fn merge_into_new_individual_inserted() {
    let mut main = make_genrep(
        vec![make_individual("I1", Some("John"), Some("Smith"))],
        vec![],
    );
    let further = make_genrep(
        vec![make_individual("IB2", Some("Jane"), Some("Doe"))],
        vec![],
    );
    merge_into(
        &mut main,
        further,
        "main.ged",
        "further.ged",
        &AliasMap::new(),
    );
    assert!(
        main.get_individual("IB2").is_some(),
        "IB2 should be inserted"
    );
    assert_eq!(main.individuals.len(), 2);
}

#[test]
fn merge_into_main_wins_for_existing_fields() {
    let main_ind = make_individual("I1", Some("John"), Some("Main"));
    let further_ind = make_individual("I1", Some("John"), Some("Further"));

    let mut main = make_genrep(vec![main_ind], vec![]);
    let further = make_genrep(vec![further_ind], vec![]);
    merge_into(
        &mut main,
        further,
        "main.ged",
        "further.ged",
        &AliasMap::new(),
    );

    let i1 = main.get_individual("I1").unwrap();
    assert_eq!(i1.surname.as_deref(), Some("Main"), "main surname must win");
}

#[test]
fn merge_into_fills_gaps_from_further() {
    let mut main_ind = make_individual("I1", None, None); // no birth
    main_ind.given = Some("John".to_string());
    // surname is None in main

    let mut further_ind = make_individual("I1", Some("John"), Some("Smith"));
    further_ind.birth = Some(Event {
        date: Some(GedDate {
            raw: "1 JAN 1900".to_string(),
        }),
        place: Some("Paris".to_string()),
    });

    let mut main = make_genrep(vec![main_ind], vec![]);
    let further = make_genrep(vec![further_ind], vec![]);
    merge_into(
        &mut main,
        further,
        "main.ged",
        "further.ged",
        &AliasMap::new(),
    );

    let i1 = main.get_individual("I1").unwrap();
    assert_eq!(
        i1.surname.as_deref(),
        Some("Smith"),
        "gap filled from further"
    );
    assert!(i1.birth.is_some(), "birth filled from further");
}

#[test]
fn merge_into_unions_family_links() {
    let mut main_ind = make_individual("I1", Some("John"), Some("Smith"));
    main_ind.fams = vec!["F1".to_string()];

    let mut further_ind = make_individual("I1", Some("John"), Some("Smith"));
    further_ind.fams = vec!["FB2".to_string()]; // new family link from further
    further_ind.famc = vec!["FB10".to_string()];

    let mut main = make_genrep(vec![main_ind], vec![]);
    let further = make_genrep(vec![further_ind], vec![]);
    merge_into(
        &mut main,
        further,
        "main.ged",
        "further.ged",
        &AliasMap::new(),
    );

    let i1 = main.get_individual("I1").unwrap();
    assert!(i1.fams.contains(&"F1".to_string()), "F1 preserved");
    assert!(
        i1.fams.contains(&"FB2".to_string()),
        "FB2 added from further"
    );
    assert!(
        i1.famc.contains(&"FB10".to_string()),
        "FB10 added from further"
    );
}

#[test]
fn merge_into_no_duplicate_family_links() {
    let mut main_ind = make_individual("I1", Some("John"), Some("Smith"));
    main_ind.fams = vec!["F1".to_string()];

    let mut further_ind = make_individual("I1", Some("John"), Some("Smith"));
    further_ind.fams = vec!["F1".to_string()]; // same link, must not duplicate

    let mut main = make_genrep(vec![main_ind], vec![]);
    let further = make_genrep(vec![further_ind], vec![]);
    merge_into(
        &mut main,
        further,
        "main.ged",
        "further.ged",
        &AliasMap::new(),
    );

    let i1 = main.get_individual("I1").unwrap();
    assert_eq!(i1.fams.len(), 1, "F1 must not be duplicated");
}

#[test]
fn merge_into_unions_notes() {
    let mut main_ind = make_individual("I1", Some("John"), Some("Smith"));
    main_ind.notes = vec!["note from main".to_string()];

    let mut further_ind = make_individual("I1", Some("John"), Some("Smith"));
    further_ind.notes = vec!["note from further".to_string()];

    let mut main = make_genrep(vec![main_ind], vec![]);
    let further = make_genrep(vec![further_ind], vec![]);
    merge_into(
        &mut main,
        further,
        "main.ged",
        "further.ged",
        &AliasMap::new(),
    );

    let i1 = main.get_individual("I1").unwrap();
    assert_eq!(i1.notes.len(), 2);
    assert!(i1.notes.contains(&"note from main".to_string()));
    assert!(i1.notes.contains(&"note from further".to_string()));
}

#[test]
fn merge_into_family_gap_filling_and_children_union() {
    let mut main_fam = make_family("F1");
    main_fam.husband_id = Some("I1".to_string());
    // wife_id and children are missing in main

    let mut further_fam = make_family("F1");
    further_fam.wife_id = Some("I2".to_string());
    further_fam.children_ids = vec!["I3".to_string(), "I4".to_string()];

    let mut main = make_genrep(vec![], vec![main_fam]);
    let further = make_genrep(vec![], vec![further_fam]);
    merge_into(
        &mut main,
        further,
        "main.ged",
        "further.ged",
        &AliasMap::new(),
    );

    let f1 = main.get_family("F1").unwrap();
    assert_eq!(f1.husband_id.as_deref(), Some("I1"), "husband preserved");
    assert_eq!(
        f1.wife_id.as_deref(),
        Some("I2"),
        "wife filled from further"
    );
    assert_eq!(f1.children_ids.len(), 2, "both children present");
}
