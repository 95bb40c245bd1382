#![allow(unused_mut)]

use genechart::layout::simple::SimpleLayout;
use genechart::parser::parse_str;
use genechart::parser::scope::compute_scope;
use genechart::preferences::{ScopePrefs, ShowPrefs, SimpleLayoutPrefs};

const GEDCOM: &str = "\
0 HEAD
1 GEDC
2 VERS 5.5.1
0 @I1@ INDI
1 NAME John /Ancestor/
1 SEX M
1 BIRT
2 DATE 1 JAN 1812
2 PLAC London
1 FAMS @F1@
0 @I2@ INDI
1 NAME Jane /Ancestress/
1 SEX F
1 FAMS @F1@
0 @I3@ INDI
1 NAME Paul /Ancestor/
1 SEX M
1 FAMC @F1@
0 @F1@ FAM
1 HUSB @I1@
1 WIFE @I2@
1 CHIL @I3@
1 MARR
2 DATE 4 APR 1843
2 PLAC London
0 TRLR
";

#[test]
fn test_descendants_two_generations() {
    let mut genrep = parse_str(GEDCOM).unwrap();
    compute_scope(&mut genrep, Some("I1"), "descendants", Some(2));

    let mut scope = ScopePrefs::default();
    let mut show = ShowPrefs::default();
    let mut simple = SimpleLayoutPrefs::default();
    scope.root = "I1".to_string();
    scope.direction = "descendants".to_string();

    let (result, _) = SimpleLayout.compute(&genrep, &scope, &show, &simple);

    let i1_geo = result.get_individual("I1").unwrap().geo.as_ref().unwrap();
    assert_eq!(i1_geo.line, 0);
    assert_eq!(i1_geo.indent, 0);
    assert_eq!(i1_geo.generation, 1);
    assert!(!i1_geo.is_spouse);

    let i2_geo = result.get_individual("I2").unwrap().geo.as_ref().unwrap();
    assert_eq!(i2_geo.line, 1);
    assert_eq!(i2_geo.indent, 0);
    assert_eq!(i2_geo.generation, 1);
    assert!(i2_geo.is_spouse);

    let i3_geo = result.get_individual("I3").unwrap().geo.as_ref().unwrap();
    assert_eq!(i3_geo.line, 2);
    assert_eq!(i3_geo.indent, 1);
    assert_eq!(i3_geo.generation, 2);
    assert!(!i3_geo.is_spouse);
}

#[test]
fn test_forest_direction_no_panic() {
    let mut genrep = parse_str(GEDCOM).unwrap();
    compute_scope(&mut genrep, None, "forest", None);

    let mut scope = ScopePrefs::default();
    let mut show = ShowPrefs::default();
    let mut simple = SimpleLayoutPrefs::default();
    scope.direction = "forest".to_string();

    let (_result, warnings) = SimpleLayout.compute(&genrep, &scope, &show, &simple);
    assert!(warnings.is_empty());
}

/// Two completely disconnected family trees: Tree A (I1→I3) and Tree B (I4→I6).
const GEDCOM_FOREST: &str = "\
0 HEAD
1 GEDC
2 VERS 5.5.1
0 @I1@ INDI
1 NAME Alice /Tree-A/
1 SEX F
1 FAMS @F1@
0 @I2@ INDI
1 NAME Bob /Tree-A/
1 SEX M
1 FAMS @F1@
0 @I3@ INDI
1 NAME Carol /Tree-A/
1 SEX F
1 FAMC @F1@
0 @F1@ FAM
1 HUSB @I2@
1 WIFE @I1@
1 CHIL @I3@
0 @I4@ INDI
1 NAME Dan /Tree-B/
1 SEX M
1 FAMS @F2@
0 @I5@ INDI
1 NAME Eve /Tree-B/
1 SEX F
1 FAMS @F2@
0 @I6@ INDI
1 NAME Frank /Tree-B/
1 SEX M
1 FAMC @F2@
0 @F2@ FAM
1 HUSB @I4@
1 WIFE @I5@
1 CHIL @I6@
0 TRLR
";

#[test]
fn test_forest_two_disconnected_trees() {
    let mut genrep = parse_str(GEDCOM_FOREST).unwrap();
    compute_scope(&mut genrep, None, "forest", None);

    let mut scope = ScopePrefs::default();
    let mut show = ShowPrefs::default();
    let mut simple = SimpleLayoutPrefs::default();
    scope.direction = "forest".to_string();
    show.last_gen_spouses = true;

    let (result, _) = SimpleLayout.compute(&genrep, &scope, &show, &simple);

    // Every individual must be placed.
    for id in &["I1", "I2", "I3", "I4", "I5", "I6"] {
        assert!(
            result.get_individual(*id).unwrap().geo.is_some(),
            "{id} must have a geo"
        );
    }

    // Tree A (roots I1 or I2, child I3) must all be on lower lines than tree B roots.
    // Since roots are sorted by ID, tree A (I1/I2) appears before tree B (I4/I5).
    let tree_a_lines: Vec<usize> = ["I1", "I2", "I3"]
        .iter()
        .map(|id| result.get_individual(*id).unwrap().geo.as_ref().unwrap().line)
        .collect();
    let tree_b_lines: Vec<usize> = ["I4", "I5", "I6"]
        .iter()
        .map(|id| result.get_individual(*id).unwrap().geo.as_ref().unwrap().line)
        .collect();

    let tree_a_max = *tree_a_lines.iter().max().unwrap();
    let tree_b_min = *tree_b_lines.iter().min().unwrap();
    assert!(
        tree_a_max < tree_b_min,
        "all of tree A must appear before all of tree B: max_A={tree_a_max} min_B={tree_b_min}"
    );
}

const GEDCOM_3GEN: &str = "\
0 HEAD
1 GEDC
2 VERS 5.5.1
0 @I1@ INDI
1 NAME John /Ancestor/
1 SEX M
1 FAMS @F1@
1 FAMC @F2@
0 @I2@ INDI
1 NAME Jane /Ancestress/
1 SEX F
1 FAMS @F1@
0 @I3@ INDI
1 NAME Paul /Child/
1 SEX M
1 FAMC @F1@
0 @F1@ FAM
1 HUSB @I1@
1 WIFE @I2@
1 CHIL @I3@
0 @I4@ INDI
1 NAME Grandpa /Ancestor/
1 SEX M
1 FAMS @F2@
0 @I5@ INDI
1 NAME Grandma /Ancestor/
1 SEX F
1 FAMS @F2@
0 @F2@ FAM
1 HUSB @I4@
1 WIFE @I5@
1 CHIL @I1@
0 TRLR
";

#[test]
fn test_ancestors_two_generations() {
    let mut genrep = parse_str(GEDCOM_3GEN).unwrap();
    compute_scope(&mut genrep, Some("I3"), "ancestors", Some(2));

    let mut scope = ScopePrefs::default();
    let mut show = ShowPrefs::default();
    let mut simple = SimpleLayoutPrefs::default();
    scope.root = "I3".to_string();
    scope.direction = "ancestors".to_string();

    let (output, _) = SimpleLayout.compute(&genrep, &scope, &show, &simple);

    let i1 = output.get_individual("I1").unwrap().geo.as_ref().unwrap();
    let i3 = output.get_individual("I3").unwrap().geo.as_ref().unwrap();
    let i2 = output.get_individual("I2").unwrap().geo.as_ref().unwrap();

    assert!(i1.line < i3.line, "father above root");
    assert!(i3.line < i2.line, "mother below root");
    assert_eq!(i1.indent, 1);
    assert_eq!(i3.indent, 0);
    assert_eq!(i2.indent, 1);
    assert_eq!(i1.generation, 2);
    assert_eq!(i3.generation, 1);
    assert_eq!(i2.generation, 2);
}

#[test]
fn test_descendants_vert_spacing() {
    let mut genrep = parse_str(GEDCOM).unwrap();
    compute_scope(&mut genrep, Some("I1"), "descendants", Some(2));

    let mut scope = ScopePrefs::default();
    let mut show = ShowPrefs::default();
    let mut simple = SimpleLayoutPrefs::default();
    scope.root = "I1".to_string();
    scope.direction = "descendants".to_string();
    simple.vert_spacing = 1;

    let (result, _) = SimpleLayout.compute(&genrep, &scope, &show, &simple);

    let i1_line = result.get_individual("I1").unwrap().geo.as_ref().unwrap().line;
    let i2_line = result.get_individual("I2").unwrap().geo.as_ref().unwrap().line;
    let i3_line = result.get_individual("I3").unwrap().geo.as_ref().unwrap().line;
    assert_eq!(
        i2_line,
        i1_line + 2,
        "spouse should be 2 lines below root with spacing=1"
    );
    assert_eq!(
        i3_line,
        i2_line + 2,
        "child should be 2 lines below spouse with spacing=1"
    );
}

#[test]
fn test_ancestors_vert_spacing() {
    let mut genrep = parse_str(GEDCOM).unwrap();
    compute_scope(&mut genrep, Some("I3"), "ancestors", Some(2));

    let mut scope = ScopePrefs::default();
    let mut show = ShowPrefs::default();
    let mut simple = SimpleLayoutPrefs::default();
    scope.root = "I3".to_string();
    scope.direction = "ancestors".to_string();
    simple.vert_spacing = 1;

    let (result, _) = SimpleLayout.compute(&genrep, &scope, &show, &simple);

    let father_line = result.get_individual("I1").unwrap().geo.as_ref().unwrap().line;
    let root_line = result.get_individual("I3").unwrap().geo.as_ref().unwrap().line;
    let mother_line = result.get_individual("I2").unwrap().geo.as_ref().unwrap().line;
    assert_eq!(
        root_line,
        father_line + 2,
        "root should be 2 lines below father"
    );
    assert_eq!(
        mother_line,
        root_line + 2,
        "mother should be 2 lines below root"
    );

    let root_geo = result.get_individual("I3").unwrap().geo.as_ref().unwrap();
    assert!(
        root_geo.connectors_above.contains(&(father_line + 1)),
        "gap line between father and root must carry a connector"
    );
}

#[test]
fn test_ancestors_three_generations() {
    let mut genrep = parse_str(GEDCOM_3GEN).unwrap();
    compute_scope(&mut genrep, Some("I3"), "ancestors", Some(3));

    let mut scope = ScopePrefs::default();
    let mut show = ShowPrefs::default();
    let mut simple = SimpleLayoutPrefs::default();
    scope.root = "I3".to_string();
    scope.direction = "ancestors".to_string();

    let (output, _) = SimpleLayout.compute(&genrep, &scope, &show, &simple);

    assert_eq!(output.get_individual("I4").unwrap().geo.as_ref().unwrap().line, 0);
    assert_eq!(output.get_individual("I1").unwrap().geo.as_ref().unwrap().line, 1);
    assert_eq!(output.get_individual("I5").unwrap().geo.as_ref().unwrap().line, 2);
    assert_eq!(output.get_individual("I3").unwrap().geo.as_ref().unwrap().line, 3);
    assert_eq!(output.get_individual("I2").unwrap().geo.as_ref().unwrap().line, 4);
}

// ── Spouse sort order ──

/// GEDCOM with one root who has two spouses married in different years:
/// I2 married in 1900, I3 married in 1850. I3 (earlier) must appear first.
const GEDCOM_TWO_SPOUSES: &str = "\
0 HEAD
1 GEDC
2 VERS 5.5.1
0 @I1@ INDI
1 NAME Root /Person/
1 SEX M
1 FAMS @F1@
1 FAMS @F2@
0 @I2@ INDI
1 NAME Later /Spouse/
1 SEX F
1 FAMS @F1@
0 @I3@ INDI
1 NAME Earlier /Spouse/
1 SEX F
1 FAMS @F2@
0 @F1@ FAM
1 HUSB @I1@
1 WIFE @I2@
1 MARR
2 DATE 5 JUN 1900
0 @F2@ FAM
1 HUSB @I1@
1 WIFE @I3@
1 MARR
2 DATE 10 MAR 1850
0 TRLR
";

#[test]
fn simple_test_spouses_sorted_by_marriage_date() {
    let mut genrep = parse_str(GEDCOM_TWO_SPOUSES).unwrap();
    compute_scope(&mut genrep, Some("I1"), "descendants", Some(2));

    let mut scope = ScopePrefs::default();
    let mut show = ShowPrefs::default();
    let mut simple = SimpleLayoutPrefs::default();
    scope.root = "I1".to_string();
    scope.direction = "descendants".to_string();
    show.last_gen_spouses = true;

    let (result, _) = SimpleLayout.compute(&genrep, &scope, &show, &simple);

    let i1_line = result.get_individual("I1").unwrap().geo.as_ref().unwrap().line;
    let i2_line = result.get_individual("I2").unwrap().geo.as_ref().unwrap().line; // 1900
    let i3_line = result.get_individual("I3").unwrap().geo.as_ref().unwrap().line; // 1850

    // I3 (married 1850) must appear on an earlier line than I2 (married 1900).
    assert!(
        i3_line < i2_line,
        "Earlier spouse (I3, 1850) should appear before later spouse (I2, 1900): \
         I1={i1_line}, I2={i2_line}, I3={i3_line}"
    );
    // Root must be on line 0
    assert_eq!(i1_line, 0, "root must be on line 0");
}
