use genechart::genrep::{Family, Genrep, Individual};
use genechart::layout::common::{date_sort_key, sort_families_by_date};

// ── date_sort_key ──

#[test]
fn test_date_sort_key_full_date() {
    assert_eq!(date_sort_key("1 JAN 1812"), (1812, 1, 1));
    assert_eq!(date_sort_key("4 APR 1843"), (1843, 4, 4));
}

#[test]
fn test_date_sort_key_partial_dates() {
    assert_eq!(date_sort_key("JAN 1812"), (1812, 1, 0));
    assert_eq!(date_sort_key("1812"),      (1812, 0, 0));
}

#[test]
fn test_date_sort_key_qualifiers_ignored() {
    assert_eq!(date_sort_key("BEF 1900"),          (1900, 0, 0));
    assert_eq!(date_sort_key("ABT 1850"),           (1850, 0, 0));
    assert_eq!(date_sort_key("CAL 1760"),           (1760, 0, 0));
    assert_eq!(date_sort_key("EST 1800"),           (1800, 0, 0));
    assert_eq!(date_sort_key("FROM 1800 TO 1850"), (1800, 0, 0));
}

#[test]
fn test_date_sort_key_no_year() {
    assert_eq!(date_sort_key(""),             (u32::MAX, 0, 0));
    assert_eq!(date_sort_key("JAN"),          (u32::MAX, 0, 0));
    assert_eq!(date_sort_key("unknown"),      (u32::MAX, 0, 0));
}

// ── sort_families_by_date ──

#[test]
fn test_sort_families_all_dates_sorted() {
    let mut individuals: Vec<Individual<()>> = Vec::new();
    let mut families: Vec<Family<()>> = Vec::new();

    individuals.push(Individual {
        id: "I1".to_string(), given: None, surname: None, sex: None,
        birth: None, death: None,
        fams: vec!["F1".to_string(), "F2".to_string()],
        famc: vec![], alt_name: None, name_heb: None, living: None,
        notes: vec![], in_scope: true, geo: None,
    });

    families.push(Family {
        id: "F1".to_string(),
        husband_id: Some("I1".to_string()), wife_id: None,
        children_ids: vec![],
        marriage: Some(genechart::genrep::Event {
            date: Some(genechart::genrep::GedDate { raw: "1 JUN 1900".to_string() }),
            place: None,
        }),
        jmar: None, notes: vec![], in_scope: true, geo: None,
    });

    families.push(Family {
        id: "F2".to_string(),
        husband_id: Some("I1".to_string()), wife_id: None,
        children_ids: vec![],
        marriage: Some(genechart::genrep::Event {
            date: Some(genechart::genrep::GedDate { raw: "10 MAR 1850".to_string() }),
            place: None,
        }),
        jmar: None, notes: vec![], in_scope: true, geo: None,
    });

    let genrep = Genrep { individuals, families, first_individual_id: Some("I1".to_string()) };
    let ind = genrep.get_individual("I1").unwrap();
    let sorted = sort_families_by_date(ind, &genrep);

    // F2 (1850) should come before F1 (1900)
    assert_eq!(sorted, vec!["F2", "F1"]);
}

#[test]
fn test_sort_families_missing_date_preserves_order() {
    let mut individuals: Vec<Individual<()>> = Vec::new();
    let mut families: Vec<Family<()>> = Vec::new();

    individuals.push(Individual {
        id: "I1".to_string(), given: None, surname: None, sex: None,
        birth: None, death: None,
        fams: vec!["F1".to_string(), "F2".to_string()],
        famc: vec![], alt_name: None, name_heb: None, living: None,
        notes: vec![], in_scope: true, geo: None,
    });

    // F1 has no marriage date
    families.push(Family {
        id: "F1".to_string(),
        husband_id: Some("I1".to_string()), wife_id: None,
        children_ids: vec![],
        marriage: None,
        jmar: None, notes: vec![], in_scope: true, geo: None,
    });

    families.push(Family {
        id: "F2".to_string(),
        husband_id: Some("I1".to_string()), wife_id: None,
        children_ids: vec![],
        marriage: Some(genechart::genrep::Event {
            date: Some(genechart::genrep::GedDate { raw: "10 MAR 1850".to_string() }),
            place: None,
        }),
        jmar: None, notes: vec![], in_scope: true, geo: None,
    });

    let genrep = Genrep { individuals, families, first_individual_id: Some("I1".to_string()) };
    let ind = genrep.get_individual("I1").unwrap();
    let sorted = sort_families_by_date(ind, &genrep);

    // F1 has no date, so original order is preserved
    assert_eq!(sorted, vec!["F1", "F2"]);
}

#[test]
fn test_sort_families_no_families_returns_empty() {
    let mut individuals: Vec<Individual<()>> = Vec::new();
    individuals.push(Individual {
        id: "I1".to_string(), given: None, surname: None, sex: None,
        birth: None, death: None,
        fams: vec![],
        famc: vec![], alt_name: None, name_heb: None, living: None,
        notes: vec![], in_scope: true, geo: None,
    });

    let genrep = Genrep {
        individuals, families: Vec::new(), first_individual_id: Some("I1".to_string()),
    };
    let ind = genrep.get_individual("I1").unwrap();
    let sorted = sort_families_by_date(ind, &genrep);
    assert!(sorted.is_empty());
}
