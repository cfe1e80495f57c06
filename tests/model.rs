use enumscribe::{
    parse_enum, Alternative, Dict, EnumDecl, Fields, LitKind, MatchTable, ModelError, Value,
    VariantDecl, VariantType,
};

fn dict(attrs: Vec<(&str, Value)>) -> Dict {
    Dict::from_pairs(attrs.into_iter().map(|(k, v)| (k.to_owned(), v)).collect()).unwrap()
}

fn variant(ident: &str, fields: Fields, attrs: Vec<(&str, Value)>) -> VariantDecl {
    VariantDecl { ident: ident.to_owned(), fields, attrs: dict(attrs) }
}

fn text(s: &str) -> Value {
    Value::Str(s.to_owned())
}

fn parse(
    enum_attrs: Vec<(&str, Value)>,
    variants: Vec<VariantDecl>,
) -> Result<enumscribe::Enum, ModelError> {
    parse_enum(EnumDecl { attrs: dict(enum_attrs), variants })
}

#[test]
fn airports_end_to_end() {
    let airports = parse(
        vec![],
        vec![
            variant("Heathrow", Fields::Unit, vec![("str", text("LHR"))]),
            variant("Gatwick", Fields::Unit, vec![("str", text("LGW")), ("case_insensitive", Value::Flag)]),
            variant("Other", Fields::Unnamed(1), vec![("other", Value::Flag)]),
        ],
    )
    .unwrap();
    assert_eq!(airports.scribe(&Alternative::Plain(0)), "LHR");
    assert_eq!(airports.unscribe::<8>("lgw"), Alternative::Plain(1));
    assert_eq!(airports.unscribe::<8>("LGW"), Alternative::Plain(1));
    assert_eq!(airports.unscribe::<8>("LHR"), Alternative::Plain(0));
    assert_eq!(airports.unscribe::<8>("lhr"), Alternative::Other(2, "lhr".to_owned()));
    assert_eq!(airports.unscribe::<8>("XYZ"), Alternative::Other(2, "XYZ".to_owned()));
    assert_eq!(airports.scribe(&Alternative::Other(2, "XYZ".to_owned())), "XYZ");
}

#[test]
fn exact_keys_take_precedence_over_folded_ones() {
    let table = MatchTable::new(
        vec![("BAA".to_owned(), 0)],
        vec![("baa".to_owned(), 1)],
        None,
    );
    assert_eq!(table.upper_capacity(), 3);
    assert_eq!(table.try_unscribe::<3>("BAA"), Some(Alternative::Plain(0)));
    assert_eq!(table.try_unscribe::<3>("baa"), Some(Alternative::Plain(1)));
    assert_eq!(table.try_unscribe::<3>("BaA"), Some(Alternative::Plain(1)));
    assert_eq!(table.try_unscribe::<3>("bab"), None);
    // too long to fold into the buffer, so it cannot match a folded key
    assert_eq!(table.try_unscribe::<3>("baaa"), None);
}

#[test]
fn same_key_twice_is_rejected() {
    let sensitive = parse(
        vec![],
        vec![
            variant("A", Fields::Unit, vec![("str", text("X"))]),
            variant("B", Fields::Unit, vec![("str", text("X"))]),
        ],
    );
    assert!(matches!(sensitive, Err(ModelError::DuplicateName(k)) if k == "X"));
    let insensitive = parse(
        vec![],
        vec![
            variant("A", Fields::Unit, vec![("str", text("X")), ("case_insensitive", Value::Flag)]),
            variant("B", Fields::Unit, vec![("str", text("X")), ("case_insensitive", Value::Flag)]),
        ],
    );
    assert!(matches!(insensitive, Err(ModelError::DuplicateName(k)) if k == "X"));
    let mixed = parse(
        vec![],
        vec![
            variant("A", Fields::Unit, vec![("str", text("X"))]),
            variant("B", Fields::Unit, vec![("str", text("X")), ("case_insensitive", Value::Flag)]),
        ],
    );
    assert!(matches!(mixed, Err(ModelError::DuplicateName(k)) if k == "X"));
    // a default key that repeats an explicit one
    let derived = parse(
        vec![],
        vec![
            variant("A", Fields::Unit, vec![("str", text("B"))]),
            variant("B", Fields::Unit, vec![]),
        ],
    );
    assert!(matches!(derived, Err(ModelError::DuplicateName(k)) if k == "B"));
}

#[test]
fn folded_collisions_are_rejected_when_insensitive() {
    let after = parse(
        vec![],
        vec![
            variant("A", Fields::Unit, vec![("str", text("foo"))]),
            variant("B", Fields::Unit, vec![("str", text("FOO")), ("case_insensitive", Value::Flag)]),
        ],
    );
    assert!(matches!(after, Err(ModelError::DuplicateFoldedName(k)) if k == "FOO"));
    let before = parse(
        vec![],
        vec![
            variant("A", Fields::Unit, vec![("str", text("foo")), ("case_insensitive", Value::Flag)]),
            variant("B", Fields::Unit, vec![("str", text("FOO"))]),
        ],
    );
    assert!(matches!(before, Err(ModelError::DuplicateFoldedName(k)) if k == "FOO"));
    let both_sensitive = parse(
        vec![],
        vec![
            variant("A", Fields::Unit, vec![("str", text("foo"))]),
            variant("B", Fields::Unit, vec![("str", text("FOO"))]),
        ],
    );
    assert!(both_sensitive.is_ok());
}

#[test]
fn two_catch_alls_are_rejected() {
    let r = parse(
        vec![],
        vec![
            variant("A", Fields::Unnamed(1), vec![("other", Value::Flag)]),
            variant("B", Fields::Unnamed(1), vec![("other", Value::Flag)]),
        ],
    );
    assert!(matches!(r, Err(ModelError::MultipleOther)));
}

#[test]
fn catch_all_shape_and_key_are_checked() {
    let with_key = parse(
        vec![],
        vec![variant("A", Fields::Unnamed(1), vec![("other", Value::Flag), ("str", text("a"))])],
    );
    assert!(matches!(with_key, Err(ModelError::OtherWithName(v)) if v == "A"));
    let no_field = parse(vec![], vec![variant("A", Fields::Unit, vec![("other", Value::Flag)])]);
    assert!(matches!(no_field, Err(ModelError::OtherFieldCount(v)) if v == "A"));
    let two_fields = parse(vec![], vec![variant("A", Fields::Unnamed(2), vec![("other", Value::Flag)])]);
    assert!(matches!(two_fields, Err(ModelError::OtherFieldCount(v)) if v == "A"));
    let named = parse(
        vec![],
        vec![variant("A", Fields::Named(vec!["s".to_owned()]), vec![("other", Value::Flag)])],
    )
    .unwrap();
    match &named.variants()[0].v_type {
        VariantType::Other(o) => assert_eq!(o.field_name(), Some("s")),
        _ => panic!("expected a catch-all"),
    }
}

#[test]
fn named_alternatives_have_no_fields() {
    let r = parse(vec![], vec![variant("A", Fields::Unnamed(1), vec![])]);
    assert!(matches!(r, Err(ModelError::NamedWithFields(v)) if v == "A"));
    let ignored = parse(
        vec![],
        vec![
            variant("A", Fields::Unit, vec![]),
            variant("B", Fields::Unnamed(3), vec![("ignore", Value::Flag)]),
        ],
    );
    assert!(ignored.is_ok());
}

#[test]
fn settings_are_checked() {
    let both = parse(
        vec![],
        vec![variant(
            "A",
            Fields::Unit,
            vec![("case_insensitive", Value::Flag), ("case_sensitive", Value::Bool(true))],
        )],
    );
    assert!(matches!(both, Err(ModelError::BothCaseFlags(v)) if v == "A"));
    let unknown = parse(vec![], vec![variant("A", Fields::Unit, vec![("colour", Value::Flag)])]);
    assert!(matches!(unknown, Err(ModelError::UnexpectedKey(k)) if k == "colour"));
    let first_unknown = parse(
        vec![],
        vec![variant(
            "A",
            Fields::Unit,
            vec![("str", text("a")), ("size", Value::Flag), ("ignore", Value::Flag), ("colour", Value::Flag)],
        )],
    );
    assert!(matches!(first_unknown, Err(ModelError::UnexpectedKey(k)) if k == "size"));
    let unknown_global = parse(vec![("rename", text("snake_case"))], vec![variant("A", Fields::Unit, vec![])]);
    assert!(matches!(unknown_global, Err(ModelError::UnexpectedKey(k)) if k == "rename"));
    let not_bool = parse(vec![], vec![variant("A", Fields::Unit, vec![("ignore", text("yes"))])]);
    assert!(matches!(not_bool, Err(ModelError::ExpectedBool(k)) if k == "ignore"));
    let not_string = parse(vec![], vec![variant("A", Fields::Unit, vec![("str", Value::Lit(LitKind::Int))])]);
    assert!(matches!(not_string, Err(ModelError::ExpectedString(k)) if k == "str"));
    let bad_style = parse(vec![("rename_all", text("Title Case"))], vec![variant("A", Fields::Unit, vec![])]);
    assert!(matches!(bad_style, Err(ModelError::InvalidCase(s)) if s == "Title Case"));
    let empty = parse(vec![], vec![]);
    assert!(matches!(empty, Err(ModelError::EmptyEnum)));
    let repeated = Dict::from_pairs(vec![
        ("str".to_owned(), text("a")),
        ("ignore".to_owned(), Value::Flag),
        ("str".to_owned(), text("b")),
    ]);
    assert!(matches!(repeated, Err(ModelError::DuplicateAttributeKey(k)) if k == "str"));
}

#[test]
fn defaults_and_overrides() {
    let m = parse(
        vec![("case_insensitive", Value::Flag), ("rename_all", text("snake_case"))],
        vec![
            variant("FooBaa", Fields::Unit, vec![]),
            variant("BazQux", Fields::Unit, vec![("case_sensitive", Value::Flag)]),
            variant("Lorem", Fields::Unit, vec![("rename", text("UPPERCASE"))]),
            variant("Ipsum", Fields::Unit, vec![("case_insensitive", Value::Bool(false))]),
        ],
    )
    .unwrap();
    assert_eq!(m.scribe_str(0), Some("foo_baa"));
    assert_eq!(m.scribe_str(1), Some("baz_qux"));
    assert_eq!(m.scribe_str(2), Some("LOREM"));
    assert_eq!(m.scribe_str(3), Some("ipsum"));
    assert_eq!(m.try_unscribe::<16>("FOO_BAA"), Some(Alternative::Plain(0)));
    assert_eq!(m.try_unscribe::<16>("BAZ_QUX"), None);
    assert_eq!(m.try_unscribe::<16>("baz_qux"), Some(Alternative::Plain(1)));
    assert_eq!(m.try_unscribe::<16>("lorem"), Some(Alternative::Plain(2)));
    assert_eq!(m.try_unscribe::<16>("IPSUM"), Some(Alternative::Plain(3)));
    assert_eq!(m.name_capacity(), 7);
    assert_eq!(m.name_upper_capacity(), 7);
}

#[test]
fn capacities_count_bytes_of_keys_and_folds() {
    let m = parse(
        vec![],
        vec![
            variant("A", Fields::Unit, vec![("str", text("groß")), ("case_insensitive", Value::Flag)]),
            variant("B", Fields::Unit, vec![("str", text("ab"))]),
            variant("C", Fields::Unit, vec![("ignore", Value::Flag)]),
        ],
    )
    .unwrap();
    assert_eq!(m.name_capacity(), 5);
    assert_eq!(m.name_upper_capacity(), 5);
    assert_eq!(m.named_keys(), vec!["groß", "ab"]);
    assert_eq!(m.try_unscribe::<5>("GROSS"), Some(Alternative::Plain(0)));
    assert_eq!(m.try_unscribe::<5>("Groß"), Some(Alternative::Plain(0)));
    assert_eq!(m.try_unscribe::<5>("ab"), Some(Alternative::Plain(1)));
    assert_eq!(m.try_unscribe::<5>("C"), None);
    match &m.variants()[0].v_type {
        VariantType::Named(n) => {
            assert_eq!(n.name(), "groß");
            assert_eq!(n.name_upper(), "GROSS");
            assert!(n.case_insensitive());
        },
        _ => panic!("expected a named alternative"),
    }
}

#[test]
fn dictionary_reads() {
    let mut d = dict(vec![("a", Value::Flag), ("b", Value::Bool(false)), ("c", text("x"))]);
    assert_eq!(d.remove_bool("a").unwrap(), Some(true));
    assert_eq!(d.remove_bool("b").unwrap(), Some(false));
    assert_eq!(d.remove_bool("a").unwrap(), None);
    assert!(d.remove_bool("c").is_err());
    assert!(d.assert_empty().is_ok());
    let mut e = dict(vec![("c", text("x")), ("d", Value::Ident("y".to_owned()))]);
    assert_eq!(e.remove_string("c").unwrap(), Some("x".to_owned()));
    assert!(matches!(e.remove_string("d"), Err(ModelError::ExpectedString(k)) if k == "d"));
    assert_eq!(Value::Lit(LitKind::Float).kind_name(), "float");
}
