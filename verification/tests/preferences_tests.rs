use genechart::pref_text::{load_texts, LoadError, PrefText};
use genechart::pref_tree::{find_unknown_keys, merge_pref_str, PrefNote, PrefValue};

const DEFAULTS: &str = r#"
[scope]
root = ""
generations = 4
direction = "descendants"

[format]
marriage = "⚭ {date:%d %b %Y}, {location}"

[output]
type = "text"
path = ""
noclobber = false
"#;

/// A merged document: the library's tree and the TOML leaf values it refers to.
struct Doc {
    tree: PrefValue,
    leaves: Vec<toml::Value>,
}

impl Doc {
    /// Load through the library: `defaults`, then `files` (named on the command line),
    /// then `--pref` strings.
    fn load_from(defaults: &str, files: &[&str], prefs: &[&str]) -> Result<(Doc, Vec<PrefNote>), LoadError> {
        let fs: Vec<PrefText> = files
            .iter()
            .enumerate()
            .map(|(i, t)| PrefText { name: format!("file{i}"), text: t.to_string(), required: true })
            .collect();
        let ps: Vec<String> = prefs.iter().map(|p| p.to_string()).collect();
        let (tree, notes, leaves) = load_texts(defaults, fs, ps)?;
        Ok((Doc { tree, leaves }, notes))
    }

    fn load(files: &[&str], prefs: &[&str]) -> Result<(Doc, Vec<PrefNote>), LoadError> {
        Doc::load_from(DEFAULTS, files, prefs)
    }

    fn defaults() -> Doc {
        Doc::load(&[], &[]).ok().unwrap().0
    }

    /// A TOML text on its own, as a tree.
    fn parse(text: &str) -> Doc {
        Doc::load_from(text, &[], &[]).ok().unwrap().0
    }

    fn from_tree(&self, v: &PrefValue) -> toml::Value {
        match v {
            PrefValue::Table(es) => toml::Value::Table(
                es.iter().map(|(k, c)| (k.clone(), self.from_tree(c))).collect(),
            ),
            PrefValue::Leaf { slot, .. } => self.leaves[*slot].clone(),
        }
    }

    fn get(&self, section: &str, key: &str) -> toml::Value {
        self.from_tree(&self.tree)[section][key].clone()
    }
}

fn unknown_keys(e: LoadError) -> Vec<String> {
    match e {
        LoadError::UnknownKeys(k) => k,
        _ => panic!("expected unknown keys"),
    }
}

#[test]
fn noclobber_not_flagged_as_unknown() {
    let base = Doc::defaults();
    let overlay = Doc::parse("output.noclobber = true\n").tree;
    let unknown = find_unknown_keys(&base.tree, &overlay, "");
    assert!(unknown.is_empty(), "output.noclobber should be a known key: {unknown:?}");
}

#[test]
fn merge_order() {
    let (d, _) = Doc::load(&["scope.generations = 10\n", "scope.generations = 20\n"], &[]).ok().unwrap();
    assert_eq!(d.get("scope", "generations").as_integer(), Some(20));
}

#[test]
fn cli_override_wins() {
    let (d, _) = Doc::load(&["scope.generations = 7"], &["scope.generations = 99"]).ok().unwrap();
    assert_eq!(d.get("scope", "generations").as_integer(), Some(99));
}

#[test]
fn later_preff_overrides_earlier_preff() {
    let (d, _) = Doc::load(
        &["scope.generations = 42\nscope.direction = \"ancestors\"\n", "scope.generations = 7\n"],
        &[],
    )
    .ok()
    .unwrap();
    assert_eq!(d.get("scope", "generations").as_integer(), Some(7));
    assert_eq!(d.get("scope", "direction").as_str(), Some("ancestors"));
}

#[test]
fn pref_str_with_comma_in_quoted_value() {
    let (d, _) = Doc::load(&[], &[r#"format.marriage = "m. {date}, {location}", output.type = "pdf""#])
        .ok()
        .unwrap();
    assert_eq!(d.get("output", "type").as_str(), Some("pdf"));
    assert!(d.get("format", "marriage").as_str().unwrap().contains(", "));
}

#[test]
fn pref_str_single_assignment_no_comma() {
    let (d, _) = Doc::load(&[], &[r#"output.type = "svg""#]).ok().unwrap();
    assert_eq!(d.get("output", "type").as_str(), Some("svg"));
}

#[test]
fn pref_unknown_key_is_error() {
    let keys = unknown_keys(Doc::load(&[], &["scope.generatins = 5"]).err().expect("unknown key should be an error"));
    assert!(keys.iter().any(|k| k.contains("generatins")), "error should name the bad key: {keys:?}");
    let mut d = Doc::defaults();
    let overlay = Doc::parse("scope.generatins = 5").tree;
    assert!(merge_pref_str(&mut d.tree, overlay).is_err());
    assert_eq!(d.get("scope", "generations").as_integer(), Some(4));
}

#[test]
fn pref_valid_key_is_ok() {
    assert!(Doc::load(&[], &["scope.generations = 5"]).is_ok());
}

#[test]
fn defaults_trace_every_leaf_as_new() {
    let (_, notes) = Doc::load_from("[scope]\nroot = \"\"\ngenerations = 4\n", &[], &[]).ok().unwrap();
    let lines: Vec<String> = notes
        .into_iter()
        .filter_map(|n| match n {
            PrefNote::Trace(t) => Some(t),
            _ => None,
        })
        .collect();
    assert_eq!(
        lines,
        vec![
            "PREF SOURCE <embedded defaults>".to_string(),
            "PREF          KEY-VALUE scope.generations = 4".to_string(),
            "PREF          KEY-VALUE scope.root = \"\"".to_string(),
        ]
    );
}

#[test]
fn pref_overrides_preff() {
    let (d, _) = Doc::load(&["scope.generations = 42\n"], &["scope.generations = 99"]).ok().unwrap();
    assert_eq!(d.get("scope", "generations").as_integer(), Some(99));
}

#[test]
fn load_with_bad_pref_is_error() {
    let err = Doc::load(&[], &["scope.generatins = 5"]).err().expect("bad --pref key should abort load");
    assert_eq!(unknown_keys(err), vec!["scope.generatins".to_string()]);
}

#[test]
fn unknown_file_key_is_a_warning() {
    let (d, notes) = Doc::load(&["scope.depth = 3\n"], &[]).ok().unwrap();
    assert!(notes.iter().any(|n| matches!(n, PrefNote::Unknown { source, key } if source == "file0" && key == "scope.depth")));
    assert_eq!(d.get("scope", "depth").as_integer(), Some(3));
    assert!(matches!(&notes[0], PrefNote::Trace(t) if t == "PREF SOURCE <embedded defaults>"));
}

#[test]
fn trace_shows_strings_escaped() {
    let (_, notes) = Doc::load(&[], &[r#"format.marriage = "say \"hi\" \\ there""#]).ok().unwrap();
    assert!(notes.iter().any(|n| matches!(n, PrefNote::Trace(t)
        if t == r#"PREF OVERRIDE KEY-VALUE format.marriage = "say \"hi\" \\ there""#)));
}

#[test]
fn trace_shows_numbers_and_booleans() {
    let (_, notes) = Doc::load(&["scope.generations = -3\noutput.noclobber = true\n"], &[]).ok().unwrap();
    assert!(notes.iter().any(|n| matches!(n, PrefNote::Trace(t) if t == "PREF OVERRIDE KEY-VALUE scope.generations = -3")));
    assert!(notes.iter().any(|n| matches!(n, PrefNote::Trace(t) if t == "PREF OVERRIDE KEY-VALUE output.noclobber = true")));
}

#[test]
fn unparsable_optional_file_is_skipped_with_a_warning() {
    let files = vec![
        PrefText { name: "broken.toml".to_string(), text: "scope = = 1".to_string(), required: false },
        PrefText { name: "good.toml".to_string(), text: "scope.generations = 9".to_string(), required: false },
    ];
    let (tree, notes, leaves) = load_texts(DEFAULTS, files, vec![]).ok().unwrap();
    let d = Doc { tree, leaves };
    assert_eq!(d.get("scope", "generations").as_integer(), Some(9));
    assert!(notes.iter().any(|n| matches!(n, PrefNote::Unreadable { source, .. } if source == "broken.toml")));
}

#[test]
fn unparsable_required_file_is_an_error() {
    let files = vec![PrefText { name: "broken.toml".to_string(), text: "scope = = 1".to_string(), required: true }];
    let err = load_texts(DEFAULTS, files, vec![]).err().expect("a --preff file must parse");
    assert!(matches!(err, LoadError::File { name, .. } if name == "broken.toml"));
}

#[test]
fn unparsable_pref_is_an_error() {
    let err = Doc::load(&[], &["scope.generations = = 5"]).err().expect("a --pref must parse");
    assert!(matches!(err, LoadError::Pref { pref, .. } if pref == "scope.generations = = 5"));
}

#[test]
fn unparsable_defaults_are_an_error() {
    let err = Doc::load_from("[scope", &[], &[]).err().expect("the defaults must parse");
    assert!(matches!(err, LoadError::Defaults(_)));
}
