use genechart::preferences::{merge_arg_pairs, merge_pairs, output_type, output_type_for};
use genechart::genrep::{insert_individual, Genrep, Individual};
use genechart::layout::boxed_couples::spouse_id_from_family_bc;
use genechart::layout::boxes::{instance_key, parents_of, trim_id};
use genechart::layout::common::date_sort_key;
use genechart::layout::fancy::{anc_instance_key, hex_color_fancy};
use genechart::layout::simple::{
    find_marriage_in_genrep, gen_prefix_str, resolve_root_id, LayoutWarning, SimpleLayout,
};
use genechart::parser::merge::{further_prefix, merge_into, prefix_id, AliasMap, MergeWarning};
use genechart::parser::{parse_gedcom, parse_str, ParseWarning};
use genechart::parser::scope::{compute_scope, compute_scope_opts, resolve_root, ScopeWarning};
use genechart::photos::{is_png_extension, is_png_path, parse_index_content, relative_components};
use genechart::preferences::{
    default_true, parse_highlights, split_pref_assignments, ScopePrefs, ShowPrefs,
    SimpleLayoutPrefs,
};
use genechart::prefs_dump::hexify_color_fields;
use genechart::scene::{label_attrs, TextAttr};
use genechart::timestamp::{civil_from_days, format_utc_timestamp};
use genechart::trace::Tracer;

const FAMILY: &str = "\
0 HEAD
1 GEDC
2 VERS 5.5.1
0 @I1@ INDI
1 NAME John /Ancestor/
1 SEX M
1 FAMS @F1@
0 @I2@ INDI
1 NAME Jane /Ancestress/
1 SEX F
1 FAMS @F1@
0 @I3@ INDI
1 NAME Paul /Ancestor/
1 SEX M
1 FAMC @F1@
0 @F1@ FAM
1 HUSB @I1@
1 WIFE @I2@
1 CHIL @I3@
1 MARR
2 DATE 4 APR 1843
2 PLAC London
0 TRLR
";

fn person(id: &str, given: &str, surname: &str) -> Individual<()> {
    Individual {
        id: id.to_string(),
        given: Some(given.to_string()),
        surname: Some(surname.to_string()),
        sex: None,
        birth: None,
        death: None,
        fams: Vec::new(),
        famc: Vec::new(),
        alt_name: None,
        name_heb: None,
        living: None,
        notes: Vec::new(),
        in_scope: false,
        geo: None,
    }
}

fn genrep_of(individuals: Vec<Individual<()>>) -> Genrep {
    let first = individuals.first().map(|i| i.id.clone());
    Genrep { individuals, families: Vec::new(), first_individual_id: first }
}

// ── calendar and timestamps ─────────────────────────────────────────────────

#[test]
fn civil_from_days_epoch() {
    assert_eq!(civil_from_days(0), (1970, 1, 1));
}

#[test]
fn civil_from_days_leap_day() {
    assert_eq!(civil_from_days(11016), (2000, 2, 29));
    assert_eq!(civil_from_days(11017), (2000, 3, 1));
}

#[test]
fn civil_from_days_before_epoch() {
    assert_eq!(civil_from_days(-1), (1969, 12, 31));
    assert_eq!(civil_from_days(-719468), (0, 3, 1));
}

#[test]
fn format_utc_timestamp_epoch() {
    assert_eq!(format_utc_timestamp(0), "1970-01-01 00:00:00.000 UTC");
}

#[test]
fn format_utc_timestamp_known_instant() {
    assert_eq!(format_utc_timestamp(1_700_000_000_123), "2023-11-14 22:13:20.123 UTC");
    assert_eq!(format_utc_timestamp(86_399_999), "1970-01-01 23:59:59.999 UTC");
}

// ── preference text ─────────────────────────────────────────────────────────

#[test]
fn hexify_converts_known_color_fields_only() {
    let input = "  color = 255\nname = 3\nborder = x\nid = 10\n";
    assert_eq!(
        hexify_color_fields(input),
        "  color = 0xFF\nname = 3\nborder = x\nid = 0xA\n"
    );
}

#[test]
fn hexify_negative_and_empty() {
    assert_eq!(hexify_color_fields("dates = -1"), "dates = 0xFFFFFFFFFFFFFFFF\n");
    assert_eq!(hexify_color_fields(""), "");
}

#[test]
fn split_pref_assignments_respects_quotes() {
    let parts = split_pref_assignments("a = 1, b = \"x,y\", c = 'p,q' ,");
    assert_eq!(parts, vec!["a = 1", "b = \"x,y\"", "c = 'p,q'"]);
}

#[test]
fn split_pref_assignments_blank_is_empty() {
    assert!(split_pref_assignments("  ,  , ").is_empty());
}

#[test]
fn parse_highlights_takes_first_token() {
    let ids = parse_highlights("# comment\n\nI1 extra words\n  I2\n   # indented comment\n");
    assert_eq!(ids, vec!["I1".to_string(), "I2".to_string()]);
}

#[test]
fn default_true_is_true() {
    assert!(default_true());
}

// ── photo index ─────────────────────────────────────────────────────────────

#[test]
fn parse_index_basic() {
    let map = parse_index_content("# header\n\nI1 john.jpg\nI2 jane.png extra ignored\n");
    assert_eq!(map.get("I1").map(String::as_str), Some("john.jpg"));
    assert_eq!(map.get("I2").map(String::as_str), Some("jane.png"));
    assert!(map.get("# header").is_none());
}

#[test]
fn parse_index_inline_comments() {
    let map = parse_index_content("I3 a.jpg # note\nI4#x y\nI3 b.jpg\n");
    assert_eq!(map.get("I3").map(String::as_str), Some("b.jpg"));
    assert!(map.get("I4").is_none());
    assert_eq!(map.len(), 1);
}

// ── tracing ─────────────────────────────────────────────────────────────────

#[test]
fn tracer_lowercases_components() {
    let t = Tracer::new(&["PREFS".to_string()]);
    assert!(t.enabled("prefs"));
    assert!(!t.enabled("layout"));
}

#[test]
fn tracer_all_enables_everything() {
    let t = Tracer::new(&["All".to_string()]);
    assert!(t.enabled("prefs"));
    assert!(t.enabled("anything"));
    assert!(!Tracer::disabled().enabled("all"));
}

// ── scene labels ────────────────────────────────────────────────────────────

#[test]
fn label_attrs_adds_highlight() {
    assert_eq!(
        label_attrs(TextAttr::SpouseName, true),
        vec![TextAttr::SpouseName, TextAttr::Highlighted]
    );
    assert_eq!(label_attrs(TextAttr::BirthData, false), vec![TextAttr::BirthData]);
}

// ── layout helpers ──────────────────────────────────────────────────────────

#[test]
fn instance_keys() {
    assert_eq!(instance_key("I1", 0), "I1");
    assert_eq!(instance_key("I1", 2), "I1##2");
    assert_eq!(anc_instance_key("F7", 0), "F7");
    assert_eq!(anc_instance_key("F7", 13), "F7##13");
}

#[test]
fn trim_id_removes_at_and_marks_duplicates() {
    assert_eq!(trim_id("@I1@##2"), "I1-dup-2");
    assert_eq!(trim_id("I5"), "I5");
}

#[test]
fn hex_color_fancy_doubles_nibbles() {
    assert_eq!(hex_color_fancy(0x1A3), "#11AA33");
    assert_eq!(hex_color_fancy(0xFFF123), "#112233");
    assert_eq!(hex_color_fancy(-1), "#FFFFFF");
}

#[test]
fn gen_prefix_is_right_aligned() {
    assert_eq!(gen_prefix_str(1), " 1. ");
    assert_eq!(gen_prefix_str(12), "12. ");
    assert_eq!(gen_prefix_str(123), "123. ");
}

#[test]
fn date_sort_key_lowercase_month() {
    assert_eq!(date_sort_key("4 apr 1843"), (1843, 4, 4));
    assert_eq!(date_sort_key("ABT dec 1900"), (1900, 12, 0));
}

#[test]
fn spouse_of_family_member() {
    let gr = parse_str(FAMILY).unwrap();
    let f1 = gr.get_family("F1").unwrap();
    assert_eq!(spouse_id_from_family_bc("I1", f1).as_deref(), Some("I2"));
    assert_eq!(spouse_id_from_family_bc("I2", f1).as_deref(), Some("I1"));
    assert_eq!(spouse_id_from_family_bc("I9", f1).as_deref(), Some("I1"));
}

#[test]
fn parents_need_scope() {
    let mut gr = parse_str(FAMILY).unwrap();
    assert_eq!(parents_of("I3", &gr), (None, None));
    compute_scope(&mut gr, Some("I1"), "descendants", None);
    assert_eq!(parents_of("I3", &gr), (Some("I1".to_string()), Some("I2".to_string())));
    assert_eq!(parents_of("I1", &gr), (None, None));
    assert_eq!(parents_of("I42", &gr), (None, None));
}

#[test]
fn marriage_found_only_in_scope() {
    let mut gr = parse_str(FAMILY).unwrap();
    assert!(find_marriage_in_genrep("I1", &gr).is_none());
    compute_scope(&mut gr, Some("I1"), "descendants", None);
    let m = find_marriage_in_genrep("I2", &gr).expect("marriage");
    assert_eq!(m.place.as_deref(), Some("London"));
    assert!(find_marriage_in_genrep("I3", &gr).is_none());
}

#[test]
fn resolve_root_id_falls_back_with_warning() {
    let gr = parse_str(FAMILY).unwrap();
    let (root, w) = resolve_root_id(&gr, " I3 ");
    assert_eq!(root.as_deref(), Some("I3"));
    assert!(w.is_none());
    let (root, w) = resolve_root_id(&gr, "I77");
    assert_eq!(root.as_deref(), Some("I1"));
    assert!(matches!(w, Some(LayoutWarning::RootNotFound(ref id)) if id == "I77"));
    let (root, w) = resolve_root_id(&gr, "");
    assert_eq!(root.as_deref(), Some("I1"));
    assert!(w.is_none());
}

#[test]
fn simple_layout_unknown_direction_warns() {
    let mut gr = parse_str(FAMILY).unwrap();
    compute_scope(&mut gr, Some("I1"), "descendants", None);
    let mut scope = ScopePrefs::default();
    scope.root = "I1".to_string();
    scope.direction = "sideways".to_string();
    let (_, warnings) =
        SimpleLayout.compute(&gr, &scope, &ShowPrefs::default(), &SimpleLayoutPrefs::default());
    assert!(warnings
        .iter()
        .any(|w| matches!(w, LayoutWarning::UnknownDirection(d) if d == "sideways")));
}

#[test]
fn simple_layout_missing_root_warns() {
    let mut gr = parse_str(FAMILY).unwrap();
    compute_scope(&mut gr, Some("I1"), "descendants", None);
    let mut scope = ScopePrefs::default();
    scope.root = "I99".to_string();
    scope.direction = "descendants".to_string();
    let (result, warnings) =
        SimpleLayout.compute(&gr, &scope, &ShowPrefs::default(), &SimpleLayoutPrefs::default());
    assert!(warnings
        .iter()
        .any(|w| matches!(w, LayoutWarning::RootNotFound(d) if d == "I99")));
    let i1 = result.get_individual("I1").unwrap().geo.as_ref().unwrap();
    assert_eq!(i1.line, 0);
}

#[test]
fn try_compute_lays_out_what_compute_does() {
    let mut gr = parse_str(FAMILY).unwrap();
    compute_scope(&mut gr, Some("I1"), "descendants", None);
    let mut scope = ScopePrefs::default();
    scope.root = "I1".to_string();
    scope.direction = "descendants".to_string();
    let mut simple = SimpleLayoutPrefs::default();
    simple.vert_spacing = 2;
    let (a, wa) = SimpleLayout.compute(&gr, &scope, &ShowPrefs::default(), &simple);
    let (b, wb) = SimpleLayout.try_compute(&gr, &scope, &ShowPrefs::default(), &simple).unwrap();
    assert_eq!(wa.len(), wb.len());
    assert_eq!(a.individuals.len(), b.individuals.len());
    for (x, y) in a.individuals.iter().zip(b.individuals.iter()) {
        assert_eq!(x.id, y.id);
        assert_eq!(x.geo.as_ref().map(|g| g.line), y.geo.as_ref().map(|g| g.line));
    }
    let i1 = b.get_individual("I1").unwrap().geo.as_ref().unwrap();
    assert_eq!(i1.line, 0);
}

// ── scoping ─────────────────────────────────────────────────────────────────

#[test]
fn scope_warnings() {
    let mut gr = parse_str(FAMILY).unwrap();
    assert!(matches!(
        compute_scope(&mut gr, Some("I9"), "descendants", None),
        Some(ScopeWarning::RootNotFound(ref id)) if id == "I9"
    ));
    assert!(gr.individuals.iter().all(|i| !i.in_scope));
    assert!(matches!(
        compute_scope(&mut gr, Some("I1"), "upwards", None),
        Some(ScopeWarning::UnknownDirection(ref d)) if d == "upwards"
    ));
    assert!(gr.individuals.iter().all(|i| i.in_scope));
    let mut empty = genrep_of(Vec::new());
    assert!(matches!(
        compute_scope(&mut empty, None, "desc", None),
        Some(ScopeWarning::NoIndividuals)
    ));
}

#[test]
fn resolve_root_defaults_to_first() {
    let gr = parse_str(FAMILY).unwrap();
    assert_eq!(resolve_root(&gr, None).ok().as_deref(), Some("I1"));
    assert_eq!(resolve_root(&gr, Some("I2")).ok().as_deref(), Some("I2"));
    assert!(resolve_root(&gr, Some("I8")).is_err());
}

#[test]
fn scope_root_always_in_scope() {
    for dir in ["descendants", "ancestors", "pedigree", "anc", "forest"] {
        for gens in [None, Some(0), Some(1), Some(3)] {
            let mut gr = parse_str(FAMILY).unwrap();
            assert!(compute_scope(&mut gr, Some("I3"), dir, gens).is_none());
            assert!(gr.get_individual("I3").unwrap().in_scope, "{dir} {gens:?}");
        }
    }
}

#[test]
fn scope_descendants_last_generation_spouses() {
    let mut gr = parse_str(FAMILY).unwrap();
    compute_scope_opts(&mut gr, Some("I1"), "descendants", Some(1), false);
    assert!(gr.get_individual("I1").unwrap().in_scope);
    assert!(!gr.get_individual("I2").unwrap().in_scope);
    let mut gr = parse_str(FAMILY).unwrap();
    compute_scope_opts(&mut gr, Some("I1"), "descendants", Some(1), true);
    assert!(gr.get_individual("I2").unwrap().in_scope);
    assert!(!gr.get_individual("I3").unwrap().in_scope);
}

#[test]
fn scope_changes_only_flags() {
    let before = parse_str(FAMILY).unwrap();
    let mut after = parse_str(FAMILY).unwrap();
    compute_scope(&mut after, Some("I3"), "ancestors", None);
    assert_eq!(before.individuals.len(), after.individuals.len());
    for (a, b) in before.individuals.iter().zip(after.individuals.iter()) {
        assert_eq!(a.id, b.id);
        assert_eq!(a.given, b.given);
        assert_eq!(a.fams, b.fams);
        assert_eq!(a.famc, b.famc);
    }
}

// ── merging ─────────────────────────────────────────────────────────────────

#[test]
fn merge_name_mismatch_warning() {
    let mut main = genrep_of(vec![person("I1", "John", "Main")]);
    let further = genrep_of(vec![person("I1", " John ", "Further")]);
    let mut origs = AliasMap::new();
    origs.insert("I1".to_string(), "I7".to_string());
    let warnings = merge_into(&mut main, further, "main.ged", "further.ged", &origs);
    assert_eq!(warnings.len(), 1);
    match &warnings[0] {
        MergeWarning::NameMismatch {
            main_file,
            id,
            main_surname,
            further_file,
            further_id,
            further_surname,
            ..
        } => {
            assert_eq!(main_file, "main.ged");
            assert_eq!(id, "I1");
            assert_eq!(main_surname, "Main");
            assert_eq!(further_file, "further.ged");
            assert_eq!(further_id, "I7");
            assert_eq!(further_surname, "Further");
        }
    }
}

#[test]
fn merge_same_name_no_warning() {
    let mut main = genrep_of(vec![person("I1", "John", "Smith")]);
    let further = genrep_of(vec![person("I1", "John ", " Smith"), person("I2", "Ann", "Lee")]);
    let warnings = merge_into(&mut main, further, "a.ged", "b.ged", &AliasMap::new());
    assert!(warnings.is_empty());
    assert_eq!(main.individuals.len(), 2);
    assert_eq!(main.individuals[0].id, "I1");
    assert_eq!(main.get_individual("I2").unwrap().given.as_deref(), Some("Ann"));
}

#[test]
fn prefix_id_keeps_ids_apart() {
    assert_eq!(prefix_id("I1", 'B'), "IB1");
    assert_ne!(prefix_id("I1", 'B'), prefix_id("I2", 'B'));
    assert_ne!(prefix_id("I1", 'B'), prefix_id("I1", 'C'));
}

// ── the genealogy store ─────────────────────────────────────────────────────

#[test]
fn insert_then_lookup() {
    let mut v = vec![person("I1", "A", "X"), person("I2", "B", "Y")];
    insert_individual(&mut v, person("I1", "C", "Z"));
    assert_eq!(v.len(), 2);
    assert_eq!(v[0].given.as_deref(), Some("C"));
    insert_individual(&mut v, person("I3", "D", "W"));
    assert_eq!(v.len(), 3);
    let g = genrep_of(v);
    assert_eq!(g.get_individual("I3").unwrap().given.as_deref(), Some("D"));
    assert_eq!(g.get_individual("I2").unwrap().given.as_deref(), Some("B"));
}

#[test]
fn further_prefix_letters() {
    assert_eq!(further_prefix(0), Some('B'));
    assert_eq!(further_prefix(1), Some('C'));
    assert_eq!(further_prefix(24), Some('Z'));
    assert_eq!(further_prefix(25), None);
}

fn comps(v: &[&str]) -> Vec<String> {
    v.iter().map(|s| s.to_string()).collect()
}

#[test]
fn png_detection() {
    assert!(is_png_extension(Some("PNG")));
    assert!(is_png_extension(Some("png")));
    assert!(!is_png_extension(Some("jpg")));
    assert!(!is_png_extension(None));
    assert!(is_png_path("photos/I1.PnG"));
    assert!(!is_png_path("photos.png/I1.jpeg"));
    assert!(!is_png_path("README"));
    assert!(is_png_path("a.PNG"));
    assert!(!is_png_path(".png"));
    assert!(!is_png_path("a.png.jpg"));
}

#[test]
fn relative_components_walk_up_then_down() {
    assert_eq!(
        relative_components(&comps(&["/", "home", "u", "photos", "a.jpg"]), &comps(&["/", "home", "u", "out"])),
        comps(&["..", "photos", "a.jpg"])
    );
    assert_eq!(
        relative_components(&comps(&["/", "d", "a.jpg"]), &comps(&["/", "d"])),
        comps(&["a.jpg"])
    );
    assert_eq!(
        relative_components(&comps(&["/", "x", "a.jpg"]), &comps(&["/", "y", "z"])),
        comps(&["..", "..", "x", "a.jpg"])
    );
}

#[test]
fn parse_warnings_reported_once_per_tag() {
    let ged = "0 @I1@ INDI\nnot a gedcom line  \n1 UNKN a\n1 UNKN b\n1 ZZZ c\n0 TRLR\n";
    let (gr, warnings) = parse_gedcom(ged);
    assert!(gr.get_individual("I1").is_some());
    assert_eq!(warnings.len(), 3);
    assert!(matches!(&warnings[0], ParseWarning::UnparsableLine { line: 2, text } if text == "not a gedcom line"));
    assert!(matches!(&warnings[1], ParseWarning::UnknownTag { tag, line: 3 } if tag == "UNKN"));
    assert!(matches!(&warnings[2], ParseWarning::UnknownTag { tag, line: 5 } if tag == "ZZZ"));
}

#[test]
fn ancestors_keep_to_generation_limit() {
    let mut gr = parse_str(FAMILY).unwrap();
    compute_scope(&mut gr, Some("I3"), "ancestors", Some(1));
    assert!(gr.get_individual("I3").unwrap().in_scope);
    assert!(!gr.get_individual("I1").unwrap().in_scope);
    assert!(!gr.get_individual("I2").unwrap().in_scope);
    let mut gr = parse_str(FAMILY).unwrap();
    compute_scope(&mut gr, Some("I3"), "pedigree", Some(2));
    assert!(gr.individuals.iter().all(|i| i.in_scope));
}

#[test]
fn parse_keeps_notes_with_continuations() {
    let ged = "0 @I1@ INDI\n1 NAME Ann /Lee/\n1 NOTE Emigrated 1900\n2 CONT to Canada\n2 CONC , by ship\n1 NOTE Second\n0 @F1@ FAM\n1 NOTE Wed in\n2 CONC  Boston\n0 TRLR\n";
    let gr = parse_str(ged).unwrap();
    let i1 = gr.get_individual("I1").unwrap();
    assert_eq!(i1.notes, vec!["Emigrated 1900\nto Canada, by ship".to_string(), "Second".to_string()]);
    let f1 = gr.get_family("F1").unwrap();
    assert_eq!(f1.notes, vec!["Wed in Boston".to_string()]);
}

#[test]
fn render_text_chart() {
    let mut gr = parse_str(FAMILY).unwrap();
    compute_scope(&mut gr, Some("I1"), "descendants", None);
    let mut scope = ScopePrefs::default();
    scope.root = "I1".to_string();
    scope.direction = "descendants".to_string();
    let mut show = ShowPrefs::default();
    show.generation_num = true;
    show.sex = true;
    let (chart, _) = SimpleLayout.compute(&gr, &scope, &show, &SimpleLayoutPrefs::default());
    let text = genechart::layout::text_chart::render_text(&chart, &show, 3);
    assert_eq!(text, " 1. John Ancestor (M)\n+ Jane Ancestress (F)\n    2. Paul Ancestor (M)\n");
}

#[test]
fn repeated_record_ids_stay_unique() {
    let ged = "0 @I1@ INDI\n1 NAME Ann /Lee/\n0 @I1@ INDI\n1 NAME Bea /Lee/\n0 TRLR\n";
    let gr = parse_str(ged).unwrap();
    assert_eq!(gr.individuals.iter().filter(|i| i.id == "I1").count(), 1);
    assert_eq!(gr.get_individual("I1").unwrap().given.as_deref(), Some("Bea"));
}

#[test]
fn merging_keeps_ids_unique() {
    let mut main = parse_str("0 @I1@ INDI\n1 NAME Ann /Lee/\n0 @I2@ INDI\n1 NAME Bo /Lee/\n0 TRLR\n").unwrap();
    let further = parse_str("0 @I1@ INDI\n1 NAME Ann /Lee/\n0 @I3@ INDI\n1 NAME Cy /Lee/\n0 TRLR\n").unwrap();
    let warnings = merge_into(&mut main, further, "main.ged", "further.ged", &AliasMap::new());
    assert!(warnings.is_empty());
    for id in ["I1", "I2", "I3"] {
        assert_eq!(main.individuals.iter().filter(|i| i.id == id).count(), 1);
    }
    assert_eq!(main.individuals.len(), 3);
}

#[test]
fn civil_from_days_counts_calendar_days() {
    assert_eq!(civil_from_days(0), (1970, 1, 1));
    assert_eq!(civil_from_days(-1), (1969, 12, 31));
    assert_eq!(civil_from_days(11016), (2000, 2, 29));
    assert_eq!(civil_from_days(11017), (2000, 3, 1));
    assert_eq!(civil_from_days(19782), (2024, 2, 29));
    assert_eq!(civil_from_days(-25508), (1900, 3, 1));
    assert_eq!(civil_from_days(-25509), (1900, 2, 28));
}

#[test]
fn output_type_from_flags_and_extension() {
    assert_eq!(output_type(true, true, false, Some("chart.pdf")).as_deref(), Some("text"));
    assert_eq!(output_type(false, true, true, None).as_deref(), Some("svg"));
    assert_eq!(output_type(false, false, true, Some("a.txt")).as_deref(), Some("pdf"));
    assert_eq!(output_type(false, false, false, Some("out/chart.TXT")).as_deref(), Some("text"));
    assert_eq!(output_type(false, false, false, Some("chart.Svg")).as_deref(), Some("svg"));
    assert_eq!(output_type(false, false, false, Some("chart.png")), None);
    assert_eq!(output_type(false, false, false, Some("chart")), None);
    assert_eq!(output_type(false, false, false, None), None);
    assert_eq!(output_type_for(false, false, false, Some("PDF")).as_deref(), Some("pdf"));
}

#[test]
fn merge_files_pair_with_aliases() {
    let m = vec!["a.ged".to_string(), "b.ged".to_string()];
    let al = vec!["a.txt".to_string(), "b.txt".to_string(), "c.txt".to_string()];
    assert_eq!(
        merge_pairs(&m, &al).ok().unwrap(),
        vec![("a.ged".to_string(), "a.txt".to_string()), ("b.ged".to_string(), "b.txt".to_string())]
    );
    assert_eq!(merge_pairs(&al, &m).err(), Some((3, 2)));
    let args = vec!["x.ged".to_string(), "x.txt".to_string(), "y.ged".to_string(), "y.txt".to_string()];
    assert_eq!(
        merge_arg_pairs(&args),
        vec![("x.ged".to_string(), "x.txt".to_string()), ("y.ged".to_string(), "y.txt".to_string())]
    );
}
