use genechart::pref_tree::{find_unknown_keys, merge_toml_tracked, PrefValue};

fn leaf(text: &str, slot: usize) -> PrefValue {
    PrefValue::Leaf { text: text.to_string(), slot }
}

fn table(entries: Vec<(&str, PrefValue)>) -> PrefValue {
    PrefValue::Table(entries.into_iter().map(|(k, v)| (k.to_string(), v)).collect())
}

fn get<'a>(v: &'a PrefValue, path: &[&str]) -> Option<&'a PrefValue> {
    let mut cur = v;
    for key in path {
        match cur {
            PrefValue::Table(es) => match es.iter().find(|(k, _)| k == key) {
                Some((_, c)) => cur = c,
                None => return None,
            },
            PrefValue::Leaf { .. } => return None,
        }
    }
    Some(cur)
}

fn slot_at(v: &PrefValue, path: &[&str]) -> Option<usize> {
    match get(v, path) {
        Some(PrefValue::Leaf { slot, .. }) => Some(*slot),
        _ => None,
    }
}

fn base() -> PrefValue {
    table(vec![
        ("scope", table(vec![("root", leaf("\"I1\"", 0)), ("generations", leaf("3", 1))])),
        ("show", table(vec![("sex", leaf("true", 4))])),
    ])
}

#[test]
fn merge_overrides_and_adds_with_trace() {
    let mut b = base();
    let overlay = table(vec![
        ("scope", table(vec![("generations", leaf("5", 2))])),
        ("layout", table(vec![("type", leaf("\"fan\"", 3))])),
    ]);
    let lines = merge_toml_tracked(&mut b, overlay, "");
    assert_eq!(
        lines,
        vec![
            "PREF OVERRIDE KEY-VALUE scope.generations = 5".to_string(),
            "PREF          KEY-VALUE layout.type = \"fan\"".to_string(),
        ]
    );
    assert_eq!(slot_at(&b, &["scope", "generations"]), Some(2));
    assert_eq!(slot_at(&b, &["scope", "root"]), Some(0));
    assert_eq!(slot_at(&b, &["show", "sex"]), Some(4));
    assert_eq!(slot_at(&b, &["layout", "type"]), Some(3));
}

#[test]
fn merge_later_file_wins() {
    let mut b = base();
    merge_toml_tracked(&mut b, table(vec![("scope", table(vec![("root", leaf("\"I7\"", 10))]))]), "");
    merge_toml_tracked(&mut b, table(vec![("scope", table(vec![("root", leaf("\"I9\"", 11))]))]), "");
    assert_eq!(slot_at(&b, &["scope", "root"]), Some(11));
    assert_eq!(slot_at(&b, &["scope", "generations"]), Some(1));
}

#[test]
fn merge_leaf_replaces_table_without_trace() {
    let mut b = base();
    let lines = merge_toml_tracked(&mut b, table(vec![("show", table(vec![("sex", table(vec![]))]))]), "");
    assert!(lines.is_empty());
    assert!(matches!(get(&b, &["show", "sex"]), Some(PrefValue::Table(es)) if es.is_empty()));
}

#[test]
fn merge_with_prefix_reports_full_keys() {
    let mut b = table(vec![("a", leaf("1", 0))]);
    let lines = merge_toml_tracked(&mut b, table(vec![("a", leaf("2", 1)), ("b", leaf("x", 2))]), "output.style");
    assert_eq!(
        lines,
        vec![
            "PREF OVERRIDE KEY-VALUE output.style.a = 2".to_string(),
            "PREF          KEY-VALUE output.style.b = x".to_string(),
        ]
    );
}

#[test]
fn unknown_keys_are_dotted_paths() {
    let b = base();
    let overlay = table(vec![
        ("scope", table(vec![("generations", leaf("5", 2)), ("depth", leaf("1", 3))])),
        ("layout", table(vec![("type", leaf("\"fan\"", 4))])),
        ("show", leaf("true", 5)),
    ]);
    assert_eq!(
        find_unknown_keys(&b, &overlay, ""),
        vec!["scope.depth".to_string(), "layout".to_string()]
    );
    assert!(find_unknown_keys(&b, &leaf("1", 0), "").is_empty());
}
