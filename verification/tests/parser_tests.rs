use genechart::parser::parse_str;
use genechart::parser::scope::compute_scope;

const SAMPLE: &str = "\
0 HEAD
1 GEDC
2 VERS 5.5.1
0 @I1@ INDI
1 NAME John /Ancestor/
1 SEX M
1 BIRT
2 DATE 1 JAN 1812
2 PLAC London
1 FAMS @F1@
0 @I2@ INDI
1 NAME Jane /Ancestress/
1 SEX F
1 FAMS @F1@
0 @I3@ INDI
1 NAME Paul /Ancestor/
1 SEX M
1 FAMC @F1@
0 @F1@ FAM
1 HUSB @I1@
1 WIFE @I2@
1 CHIL @I3@
1 MARR
2 DATE 4 APR 1843
2 PLAC London
0 TRLR
";

#[test]
fn test_parse_individual() {
    let gr = parse_str(SAMPLE).unwrap();
    let i1 = gr.get_individual("I1").expect("I1 missing");
    assert_eq!(i1.given.as_deref(), Some("John"));
    assert_eq!(i1.surname.as_deref(), Some("Ancestor"));
    assert_eq!(i1.sex, Some('M'));
    let birth = i1.birth.as_ref().expect("birth missing");
    assert_eq!(
        birth.date.as_ref().map(|d| d.raw.as_str()),
        Some("1 JAN 1812")
    );
    assert_eq!(birth.place.as_deref(), Some("London"));
}

#[test]
fn test_family_links() {
    let gr = parse_str(SAMPLE).unwrap();
    let f1 = gr.get_family("F1").expect("F1 missing");
    assert_eq!(f1.husband_id.as_deref(), Some("I1"));
    assert_eq!(f1.wife_id.as_deref(), Some("I2"));
    assert_eq!(f1.children_ids, vec!["I3"]);
    let marr = f1.marriage.as_ref().expect("marriage missing");
    assert_eq!(
        marr.date.as_ref().map(|d| d.raw.as_str()),
        Some("4 APR 1843")
    );
    assert_eq!(marr.place.as_deref(), Some("London"));
}

#[test]
fn test_scope_descendants() {
    let mut gr = parse_str(SAMPLE).unwrap();
    compute_scope(&mut gr, Some("I1"), "descendants", Some(2));
    assert!(gr.get_individual("I1").unwrap().in_scope);
    assert!(gr.get_individual("I2").unwrap().in_scope);
    assert!(gr.get_individual("I3").unwrap().in_scope);
    assert!(gr.get_family("F1").unwrap().in_scope);
}

const SAMPLE_4GEN: &str = "\
0 HEAD
1 GEDC
2 VERS 5.5.1
0 @I1@ INDI
1 NAME Root /Person/
1 SEX M
1 FAMS @F1@
0 @I2@ INDI
1 NAME Root /Spouse/
1 SEX F
1 FAMS @F1@
0 @I3@ INDI
1 NAME Child /Person/
1 SEX M
1 FAMC @F1@
1 FAMS @F2@
0 @I4@ INDI
1 NAME Grandchild /Person/
1 SEX M
1 FAMC @F2@
1 FAMS @F3@
0 @I5@ INDI
1 NAME GreatGrandchild /Person/
1 SEX M
1 FAMC @F3@
0 @F1@ FAM
1 HUSB @I1@
1 WIFE @I2@
1 CHIL @I3@
0 @F2@ FAM
1 HUSB @I3@
1 CHIL @I4@
0 @F3@ FAM
1 HUSB @I4@
1 CHIL @I5@
0 TRLR
";

#[test]
fn test_scope_descendants_g3_stops_at_grandchildren() {
    let mut gr = parse_str(SAMPLE_4GEN).unwrap();
    compute_scope(&mut gr, Some("I1"), "descendants", Some(3));
    // gen 1: root
    assert!(
        gr.get_individual("I1").unwrap().in_scope,
        "root must be in scope"
    );
    // gen 1: root's spouse (same generation as root)
    assert!(
        gr.get_individual("I2").unwrap().in_scope,
        "spouse must be in scope"
    );
    // gen 2: children
    assert!(
        gr.get_individual("I3").unwrap().in_scope,
        "child must be in scope"
    );
    // gen 3: grandchildren
    assert!(
        gr.get_individual("I4").unwrap().in_scope,
        "grandchild must be in scope"
    );
    // gen 4: great-grandchildren — must NOT be shown with g=3
    assert!(
        !gr.get_individual("I5").unwrap().in_scope,
        "great-grandchild must NOT be in scope with g=3"
    );
}

#[test]
fn test_scope_ancestors_g3_stops_at_grandparents() {
    let mut gr = parse_str(SAMPLE_4GEN).unwrap();
    compute_scope(&mut gr, Some("I5"), "ancestors", Some(3));
    // gen 1: root
    assert!(
        gr.get_individual("I5").unwrap().in_scope,
        "root must be in scope"
    );
    // gen 2: parent
    assert!(
        gr.get_individual("I4").unwrap().in_scope,
        "parent must be in scope"
    );
    // gen 3: grandparent
    assert!(
        gr.get_individual("I3").unwrap().in_scope,
        "grandparent must be in scope"
    );
    // gen 4: great-grandparent — must NOT be shown with g=3
    assert!(
        !gr.get_individual("I1").unwrap().in_scope,
        "great-grandparent must NOT be in scope with g=3"
    );
}

#[test]
fn test_scope_forest() {
    let mut gr = parse_str(SAMPLE).unwrap();
    compute_scope(&mut gr, Option::None, "forest", Option::None);
    for indi in gr.individuals.iter() {
        assert!(indi.in_scope, "individual {} not in scope", indi.id);
    }
    for fam in gr.families.iter() {
        assert!(fam.in_scope, "family {} not in scope", fam.id);
    }
}

#[test]
fn test_direction_prefix_only_valid_prefixes_accepted() {
    // "desc" is a valid prefix of "descendants" — I3's ancestors should not be in scope.
    let mut gr = parse_str(SAMPLE).unwrap();
    compute_scope(&mut gr, Some("I3"), "desc", Some(2));
    assert!(
        gr.get_individual("I3").unwrap().in_scope,
        "I3 should be in scope"
    );
    assert!(
        !gr.get_individual("I1").unwrap().in_scope,
        "I1 is not a descendant of I3"
    );
    assert!(
        !gr.get_individual("I2").unwrap().in_scope,
        "I2 is not a descendant of I3"
    );

    // "descABC" is NOT a valid prefix — must not silently match descendants.
    // The fallback is forest scope, so I1 ends up in scope.
    let mut gr2 = parse_str(SAMPLE).unwrap();
    compute_scope(&mut gr2, Some("I3"), "descABC", Some(2));
    assert!(
        gr2.get_individual("I1").unwrap().in_scope,
        "descABC must not match 'descendants'; forest fallback puts I1 in scope"
    );
}

#[test]
fn test_unknown_tag_no_error() {
    let ged = "0 @I1@ INDI\n1 NAME Test /Person/\n1 UNKN something\n0 TRLR\n";
    let result = parse_str(ged);
    assert!(result.is_ok());
    let gr = result.unwrap();
    assert!(gr.get_individual("I1").is_some());
}

#[test]
fn test_cont_after_unknown_level2_does_not_bleed() {
    // A CONT at level 3 after an unrecognised level-2 tag (e.g. SOUR, NOTE)
    // must not append to the previously set field (e.g. birth place).
    let ged = "\
0 @I1@ INDI
1 NAME Test /Person/
1 BIRT
2 DATE 1 JAN 1812
2 PLAC London
2 SOUR some source
3 CONT Image Group Number: 005790649
0 TRLR
";
    let gr = parse_str(ged).unwrap();
    let i1 = gr.get_individual("I1").unwrap();
    let place = i1
        .birth
        .as_ref()
        .and_then(|e| e.place.as_deref())
        .unwrap_or("");
    assert_eq!(
        place, "London",
        "CONT after unknown SOUR must not append to birth place"
    );
}

#[test]
fn test_new_tags_parsed() {
    let ged = "\
0 @I1@ INDI
1 NAME Test /Person/
1 NAM2 Test Person (alternate)
1 NAMH טסט פרסון
1 _LIVING Y
0 @I2@ INDI
1 NAME Dead /Person/
1 _LIVING N
0 @F1@ FAM
1 HUSB @I1@
1 WIFE @I2@
1 JMAR ref-12345
0 TRLR
";
    let gr = parse_str(ged).unwrap();
    let i1 = gr.get_individual("I1").unwrap();
    assert_eq!(i1.alt_name.as_deref(), Some("Test Person (alternate)"));
    assert_eq!(i1.name_heb.as_deref(), Some("טסט פרסון"));
    assert_eq!(i1.living, Some(true));

    let i2 = gr.get_individual("I2").unwrap();
    assert_eq!(i2.living, Some(false));

    let f1 = gr.get_family("F1").unwrap();
    assert_eq!(f1.jmar.as_deref(), Some("ref-12345"));
}

#[test]
fn test_fams_cross_reference_repair() {
    // @I1@ INDI has only FAMS @F1@, but also appears as HUSB in @F2@.
    // After parsing, @I1@.fams should contain both F1 and F2.
    let gedcom = "0 @I1@ INDI\n\
                  1 NAME John /Doe/\n\
                  1 FAMS @F1@\n\
                  0 @F1@ FAM\n\
                  1 HUSB @I1@\n\
                  1 CHIL @I3@\n\
                  0 @F2@ FAM\n\
                  1 HUSB @I1@\n\
                  1 CHIL @I4@\n\
                  0 TRLR\n";
    let gr = parse_str(gedcom).unwrap();
    let i1 = gr.get_individual("I1").unwrap();
    assert!(
        i1.fams.contains(&"F1".to_string()),
        "F1 should be in I1.fams"
    );
    assert!(
        i1.fams.contains(&"F2".to_string()),
        "F2 should be in I1.fams (repaired)"
    );
    let f2 = gr.get_family("F2").unwrap();
    assert_eq!(f2.children_ids, vec!["I4"], "F2 children must be parsed");
}
