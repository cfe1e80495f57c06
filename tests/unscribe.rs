use enumscribe::{parse_enum, Alternative, Dict, Enum, EnumDecl, Fields, Value, VariantDecl};

const CAP: usize = 32;

fn variant(ident: &str, fields: Fields, attrs: Vec<(&str, Value)>) -> VariantDecl {
    let pairs = attrs.into_iter().map(|(k, v)| (k.to_owned(), v)).collect();
    VariantDecl {
        ident: ident.to_owned(),
        fields,
        attrs: Dict::from_pairs(pairs).unwrap(),
    }
}

fn text(s: &str) -> Value {
    Value::Str(s.to_owned())
}

/// The alternatives shared by the enumerations below: plain ones written
/// with no brackets, `()` and `{}`, with and without explicit keys, and
/// case-insensitive ones.
fn common_variants() -> Vec<VariantDecl> {
    vec![
        variant("V0", Fields::Unit, vec![]),
        variant("V1", Fields::Unit, vec![("str", text("foo"))]),
        variant("V2", Fields::Unnamed(0), vec![]),
        variant("V3", Fields::Unnamed(0), vec![("str", text("BAA"))]),
        variant("V4", Fields::Named(vec![]), vec![]),
        variant("V5", Fields::Named(vec![]), vec![("str", text("BaZ"))]),
        variant("V6", Fields::Unit, vec![("case_insensitive", Value::Flag)]),
        variant("V7", Fields::Unit, vec![("str", text("lorem")), ("case_insensitive", Value::Flag)]),
        variant("V8", Fields::Unnamed(0), vec![("case_insensitive", Value::Flag)]),
        variant("V9", Fields::Unnamed(0), vec![("str", text("IPSUM")), ("case_insensitive", Value::Flag)]),
        variant("V10", Fields::Named(vec![]), vec![("case_insensitive", Value::Flag)]),
        variant("V11", Fields::Named(vec![]), vec![("str", text("DoLoR")), ("case_insensitive", Value::Flag)]),
    ]
}

fn model(with_other: bool) -> Enum {
    let mut variants = common_variants();
    if with_other {
        variants.push(variant("V12", Fields::Unnamed(1), vec![("other", Value::Flag)]));
    }
    let m = parse_enum(EnumDecl { attrs: Dict::new(), variants }).unwrap();
    assert!(m.name_upper_capacity() <= CAP);
    m
}

#[test]
fn test_unscribe() {
    let e0 = model(true);
    assert_eq!(e0.unscribe::<CAP>("v0"), Alternative::Other(12, "v0".to_owned()));
    assert_eq!(e0.unscribe::<CAP>("V0"), Alternative::Plain(0));
    assert_eq!(e0.unscribe::<CAP>("v1"), Alternative::Other(12, "v1".to_owned()));
    assert_eq!(e0.unscribe::<CAP>("V1"), Alternative::Other(12, "V1".to_owned()));
    assert_eq!(e0.unscribe::<CAP>("v2"), Alternative::Other(12, "v2".to_owned()));
    assert_eq!(e0.unscribe::<CAP>("V2"), Alternative::Plain(2));
    assert_eq!(e0.unscribe::<CAP>("v3"), Alternative::Other(12, "v3".to_owned()));
    assert_eq!(e0.unscribe::<CAP>("V3"), Alternative::Other(12, "V3".to_owned()));
    assert_eq!(e0.unscribe::<CAP>("v4"), Alternative::Other(12, "v4".to_owned()));
    assert_eq!(e0.unscribe::<CAP>("V4"), Alternative::Plain(4));
    assert_eq!(e0.unscribe::<CAP>("v5"), Alternative::Other(12, "v5".to_owned()));
    assert_eq!(e0.unscribe::<CAP>("V5"), Alternative::Other(12, "V5".to_owned()));
    assert_eq!(e0.unscribe::<CAP>("v6"), Alternative::Plain(6));
    assert_eq!(e0.unscribe::<CAP>("V6"), Alternative::Plain(6));
    assert_eq!(e0.unscribe::<CAP>("v7"), Alternative::Other(12, "v7".to_owned()));
    assert_eq!(e0.unscribe::<CAP>("V7"), Alternative::Other(12, "V7".to_owned()));
    assert_eq!(e0.unscribe::<CAP>("v8"), Alternative::Plain(8));
    assert_eq!(e0.unscribe::<CAP>("V8"), Alternative::Plain(8));
    assert_eq!(e0.unscribe::<CAP>("v9"), Alternative::Other(12, "v9".to_owned()));
    assert_eq!(e0.unscribe::<CAP>("V9"), Alternative::Other(12, "V9".to_owned()));
    assert_eq!(e0.unscribe::<CAP>("v10"), Alternative::Plain(10));
    assert_eq!(e0.unscribe::<CAP>("V10"), Alternative::Plain(10));
    assert_eq!(e0.unscribe::<CAP>("v11"), Alternative::Other(12, "v11".to_owned()));
    assert_eq!(e0.unscribe::<CAP>("V11"), Alternative::Other(12, "V11".to_owned()));
    assert_eq!(e0.unscribe::<CAP>("foo"), Alternative::Plain(1));
    assert_eq!(e0.unscribe::<CAP>("FOO"), Alternative::Other(12, "FOO".to_owned()));
    assert_eq!(e0.unscribe::<CAP>("FoO"), Alternative::Other(12, "FoO".to_owned()));
    assert_eq!(e0.unscribe::<CAP>("foi"), Alternative::Other(12, "foi".to_owned()));
    assert_eq!(e0.unscribe::<CAP>("fo"), Alternative::Other(12, "fo".to_owned()));
    assert_eq!(e0.unscribe::<CAP>("ffoo"), Alternative::Other(12, "ffoo".to_owned()));
    assert_eq!(e0.unscribe::<CAP>("fooo"), Alternative::Other(12, "fooo".to_owned()));
    assert_eq!(e0.unscribe::<CAP>("baa"), Alternative::Other(12, "baa".to_owned()));
    assert_eq!(e0.unscribe::<CAP>("BAA"), Alternative::Plain(3));
    assert_eq!(e0.unscribe::<CAP>("BaA"), Alternative::Other(12, "BaA".to_owned()));
    assert_eq!(e0.unscribe::<CAP>("bar"), Alternative::Other(12, "bar".to_owned()));
    assert_eq!(e0.unscribe::<CAP>("ba"), Alternative::Other(12, "ba".to_owned()));
    assert_eq!(e0.unscribe::<CAP>("bbaa"), Alternative::Other(12, "bbaa".to_owned()));
    assert_eq!(e0.unscribe::<CAP>("baaa"), Alternative::Other(12, "baaa".to_owned()));
    assert_eq!(e0.unscribe::<CAP>("baz"), Alternative::Other(12, "baz".to_owned()));
    assert_eq!(e0.unscribe::<CAP>("BAZ"), Alternative::Other(12, "BAZ".to_owned()));
    assert_eq!(e0.unscribe::<CAP>("BaZ"), Alternative::Plain(5));
    assert_eq!(e0.unscribe::<CAP>("biz"), Alternative::Other(12, "biz".to_owned()));
    assert_eq!(e0.unscribe::<CAP>("az"), Alternative::Other(12, "az".to_owned()));
    assert_eq!(e0.unscribe::<CAP>("bbaz"), Alternative::Other(12, "bbaz".to_owned()));
    assert_eq!(e0.unscribe::<CAP>("bazz"), Alternative::Other(12, "bazz".to_owned()));
    assert_eq!(e0.unscribe::<CAP>("lorem"), Alternative::Plain(7));
    assert_eq!(e0.unscribe::<CAP>("LOREM"), Alternative::Plain(7));
    assert_eq!(e0.unscribe::<CAP>("LoReM"), Alternative::Plain(7));
    assert_eq!(e0.unscribe::<CAP>("loREM"), Alternative::Plain(7));
    assert_eq!(e0.unscribe::<CAP>("larem"), Alternative::Other(12, "larem".to_owned()));
    assert_eq!(e0.unscribe::<CAP>("lore"), Alternative::Other(12, "lore".to_owned()));
    assert_eq!(e0.unscribe::<CAP>("llorem"), Alternative::Other(12, "llorem".to_owned()));
    assert_eq!(e0.unscribe::<CAP>("loremm"), Alternative::Other(12, "loremm".to_owned()));
    assert_eq!(e0.unscribe::<CAP>("ipsum"), Alternative::Plain(9));
    assert_eq!(e0.unscribe::<CAP>("IPSUM"), Alternative::Plain(9));
    assert_eq!(e0.unscribe::<CAP>("IpSuM"), Alternative::Plain(9));
    assert_eq!(e0.unscribe::<CAP>("ipSUM"), Alternative::Plain(9));
    assert_eq!(e0.unscribe::<CAP>("ipdum"), Alternative::Other(12, "ipdum".to_owned()));
    assert_eq!(e0.unscribe::<CAP>("ipsu"), Alternative::Other(12, "ipsu".to_owned()));
    assert_eq!(e0.unscribe::<CAP>("iipsum"), Alternative::Other(12, "iipsum".to_owned()));
    assert_eq!(e0.unscribe::<CAP>("ipsumm"), Alternative::Other(12, "ipsumm".to_owned()));
    assert_eq!(e0.unscribe::<CAP>("dolor"), Alternative::Plain(11));
    assert_eq!(e0.unscribe::<CAP>("DOLOR"), Alternative::Plain(11));
    assert_eq!(e0.unscribe::<CAP>("DoLoR"), Alternative::Plain(11));
    assert_eq!(e0.unscribe::<CAP>("doLOR"), Alternative::Plain(11));
    assert_eq!(e0.unscribe::<CAP>("doler"), Alternative::Other(12, "doler".to_owned()));
    assert_eq!(e0.unscribe::<CAP>("dolo"), Alternative::Other(12, "dolo".to_owned()));
    assert_eq!(e0.unscribe::<CAP>("ddolor"), Alternative::Other(12, "ddolor".to_owned()));
    assert_eq!(e0.unscribe::<CAP>("dolorr"), Alternative::Other(12, "dolorr".to_owned()));
    assert_eq!(e0.unscribe::<CAP>(""), Alternative::Other(12, "".to_owned()));
    assert_eq!(e0.unscribe::<CAP>("\0"), Alternative::Other(12, "\0".to_owned()));
}

#[test]
fn test_try_unscribe() {
    let e0 = model(false);
    assert_eq!(e0.try_unscribe::<CAP>("v0"), None);
    assert_eq!(e0.try_unscribe::<CAP>("V0"), Some(Alternative::Plain(0)));
    assert_eq!(e0.try_unscribe::<CAP>("v1"), None);
    assert_eq!(e0.try_unscribe::<CAP>("V1"), None);
    assert_eq!(e0.try_unscribe::<CAP>("v2"), None);
    assert_eq!(e0.try_unscribe::<CAP>("V2"), Some(Alternative::Plain(2)));
    assert_eq!(e0.try_unscribe::<CAP>("v3"), None);
    assert_eq!(e0.try_unscribe::<CAP>("V3"), None);
    assert_eq!(e0.try_unscribe::<CAP>("v4"), None);
    assert_eq!(e0.try_unscribe::<CAP>("V4"), Some(Alternative::Plain(4)));
    assert_eq!(e0.try_unscribe::<CAP>("v5"), None);
    assert_eq!(e0.try_unscribe::<CAP>("V5"), None);
    assert_eq!(e0.try_unscribe::<CAP>("v6"), Some(Alternative::Plain(6)));
    assert_eq!(e0.try_unscribe::<CAP>("V6"), Some(Alternative::Plain(6)));
    assert_eq!(e0.try_unscribe::<CAP>("v7"), None);
    assert_eq!(e0.try_unscribe::<CAP>("V7"), None);
    assert_eq!(e0.try_unscribe::<CAP>("v8"), Some(Alternative::Plain(8)));
    assert_eq!(e0.try_unscribe::<CAP>("V8"), Some(Alternative::Plain(8)));
    assert_eq!(e0.try_unscribe::<CAP>("v9"), None);
    assert_eq!(e0.try_unscribe::<CAP>("V9"), None);
    assert_eq!(e0.try_unscribe::<CAP>("v10"), Some(Alternative::Plain(10)));
    assert_eq!(e0.try_unscribe::<CAP>("V10"), Some(Alternative::Plain(10)));
    assert_eq!(e0.try_unscribe::<CAP>("v11"), None);
    assert_eq!(e0.try_unscribe::<CAP>("V11"), None);
    assert_eq!(e0.try_unscribe::<CAP>("foo"), Some(Alternative::Plain(1)));
    assert_eq!(e0.try_unscribe::<CAP>("FOO"), None);
    assert_eq!(e0.try_unscribe::<CAP>("FoO"), None);
    assert_eq!(e0.try_unscribe::<CAP>("foi"), None);
    assert_eq!(e0.try_unscribe::<CAP>("fo"), None);
    assert_eq!(e0.try_unscribe::<CAP>("ffoo"), None);
    assert_eq!(e0.try_unscribe::<CAP>("fooo"), None);
    assert_eq!(e0.try_unscribe::<CAP>("baa"), None);
    assert_eq!(e0.try_unscribe::<CAP>("BAA"), Some(Alternative::Plain(3)));
    assert_eq!(e0.try_unscribe::<CAP>("BaA"), None);
    assert_eq!(e0.try_unscribe::<CAP>("bar"), None);
    assert_eq!(e0.try_unscribe::<CAP>("ba"), None);
    assert_eq!(e0.try_unscribe::<CAP>("bbaa"), None);
    assert_eq!(e0.try_unscribe::<CAP>("baaa"), None);
    assert_eq!(e0.try_unscribe::<CAP>("baz"), None);
    assert_eq!(e0.try_unscribe::<CAP>("BAZ"), None);
    assert_eq!(e0.try_unscribe::<CAP>("BaZ"), Some(Alternative::Plain(5)));
    assert_eq!(e0.try_unscribe::<CAP>("biz"), None);
    assert_eq!(e0.try_unscribe::<CAP>("az"), None);
    assert_eq!(e0.try_unscribe::<CAP>("bbaz"), None);
    assert_eq!(e0.try_unscribe::<CAP>("bazz"), None);
    assert_eq!(e0.try_unscribe::<CAP>("lorem"), Some(Alternative::Plain(7)));
    assert_eq!(e0.try_unscribe::<CAP>("LOREM"), Some(Alternative::Plain(7)));
    assert_eq!(e0.try_unscribe::<CAP>("LoReM"), Some(Alternative::Plain(7)));
    assert_eq!(e0.try_unscribe::<CAP>("loREM"), Some(Alternative::Plain(7)));
    assert_eq!(e0.try_unscribe::<CAP>("larem"), None);
    assert_eq!(e0.try_unscribe::<CAP>("lore"), None);
    assert_eq!(e0.try_unscribe::<CAP>("llorem"), None);
    assert_eq!(e0.try_unscribe::<CAP>("loremm"), None);
    assert_eq!(e0.try_unscribe::<CAP>("ipsum"), Some(Alternative::Plain(9)));
    assert_eq!(e0.try_unscribe::<CAP>("IPSUM"), Some(Alternative::Plain(9)));
    assert_eq!(e0.try_unscribe::<CAP>("IpSuM"), Some(Alternative::Plain(9)));
    assert_eq!(e0.try_unscribe::<CAP>("ipSUM"), Some(Alternative::Plain(9)));
    assert_eq!(e0.try_unscribe::<CAP>("ipdum"), None);
    assert_eq!(e0.try_unscribe::<CAP>("ipsu"), None);
    assert_eq!(e0.try_unscribe::<CAP>("iipsum"), None);
    assert_eq!(e0.try_unscribe::<CAP>("ipsumm"), None);
    assert_eq!(e0.try_unscribe::<CAP>("dolor"), Some(Alternative::Plain(11)));
    assert_eq!(e0.try_unscribe::<CAP>("DOLOR"), Some(Alternative::Plain(11)));
    assert_eq!(e0.try_unscribe::<CAP>("DoLoR"), Some(Alternative::Plain(11)));
    assert_eq!(e0.try_unscribe::<CAP>("doLOR"), Some(Alternative::Plain(11)));
    assert_eq!(e0.try_unscribe::<CAP>("doler"), None);
    assert_eq!(e0.try_unscribe::<CAP>("dolo"), None);
    assert_eq!(e0.try_unscribe::<CAP>("ddolor"), None);
    assert_eq!(e0.try_unscribe::<CAP>("dolorr"), None);
    assert_eq!(e0.try_unscribe::<CAP>(""), None);
    assert_eq!(e0.try_unscribe::<CAP>("\0"), None);

    let e1 = model(true);
    assert_eq!(e1.try_unscribe::<CAP>("v0"), Some(Alternative::Other(12, "v0".to_owned())));
    assert_eq!(e1.try_unscribe::<CAP>("V0"), Some(Alternative::Plain(0)));
    assert_eq!(e1.try_unscribe::<CAP>("v1"), Some(Alternative::Other(12, "v1".to_owned())));
    assert_eq!(e1.try_unscribe::<CAP>("V1"), Some(Alternative::Other(12, "V1".to_owned())));
    assert_eq!(e1.try_unscribe::<CAP>("v2"), Some(Alternative::Other(12, "v2".to_owned())));
    assert_eq!(e1.try_unscribe::<CAP>("V2"), Some(Alternative::Plain(2)));
    assert_eq!(e1.try_unscribe::<CAP>("v3"), Some(Alternative::Other(12, "v3".to_owned())));
    assert_eq!(e1.try_unscribe::<CAP>("V3"), Some(Alternative::Other(12, "V3".to_owned())));
    assert_eq!(e1.try_unscribe::<CAP>("v4"), Some(Alternative::Other(12, "v4".to_owned())));
    assert_eq!(e1.try_unscribe::<CAP>("V4"), Some(Alternative::Plain(4)));
    assert_eq!(e1.try_unscribe::<CAP>("v5"), Some(Alternative::Other(12, "v5".to_owned())));
    assert_eq!(e1.try_unscribe::<CAP>("V5"), Some(Alternative::Other(12, "V5".to_owned())));
    assert_eq!(e1.try_unscribe::<CAP>("v6"), Some(Alternative::Plain(6)));
    assert_eq!(e1.try_unscribe::<CAP>("V6"), Some(Alternative::Plain(6)));
    assert_eq!(e1.try_unscribe::<CAP>("v7"), Some(Alternative::Other(12, "v7".to_owned())));
    assert_eq!(e1.try_unscribe::<CAP>("V7"), Some(Alternative::Other(12, "V7".to_owned())));
    assert_eq!(e1.try_unscribe::<CAP>("v8"), Some(Alternative::Plain(8)));
    assert_eq!(e1.try_unscribe::<CAP>("V8"), Some(Alternative::Plain(8)));
    assert_eq!(e1.try_unscribe::<CAP>("v9"), Some(Alternative::Other(12, "v9".to_owned())));
    assert_eq!(e1.try_unscribe::<CAP>("V9"), Some(Alternative::Other(12, "V9".to_owned())));
    assert_eq!(e1.try_unscribe::<CAP>("v10"), Some(Alternative::Plain(10)));
    assert_eq!(e1.try_unscribe::<CAP>("V10"), Some(Alternative::Plain(10)));
    assert_eq!(e1.try_unscribe::<CAP>("v11"), Some(Alternative::Other(12, "v11".to_owned())));
    assert_eq!(e1.try_unscribe::<CAP>("V11"), Some(Alternative::Other(12, "V11".to_owned())));
    assert_eq!(e1.try_unscribe::<CAP>("foo"), Some(Alternative::Plain(1)));
    assert_eq!(e1.try_unscribe::<CAP>("FOO"), Some(Alternative::Other(12, "FOO".to_owned())));
    assert_eq!(e1.try_unscribe::<CAP>("FoO"), Some(Alternative::Other(12, "FoO".to_owned())));
    assert_eq!(e1.try_unscribe::<CAP>("foi"), Some(Alternative::Other(12, "foi".to_owned())));
    assert_eq!(e1.try_unscribe::<CAP>("fo"), Some(Alternative::Other(12, "fo".to_owned())));
    assert_eq!(e1.try_unscribe::<CAP>("ffoo"), Some(Alternative::Other(12, "ffoo".to_owned())));
    assert_eq!(e1.try_unscribe::<CAP>("fooo"), Some(Alternative::Other(12, "fooo".to_owned())));
    assert_eq!(e1.try_unscribe::<CAP>("baa"), Some(Alternative::Other(12, "baa".to_owned())));
    assert_eq!(e1.try_unscribe::<CAP>("BAA"), Some(Alternative::Plain(3)));
    assert_eq!(e1.try_unscribe::<CAP>("BaA"), Some(Alternative::Other(12, "BaA".to_owned())));
    assert_eq!(e1.try_unscribe::<CAP>("bar"), Some(Alternative::Other(12, "bar".to_owned())));
    assert_eq!(e1.try_unscribe::<CAP>("ba"), Some(Alternative::Other(12, "ba".to_owned())));
    assert_eq!(e1.try_unscribe::<CAP>("bbaa"), Some(Alternative::Other(12, "bbaa".to_owned())));
    assert_eq!(e1.try_unscribe::<CAP>("baaa"), Some(Alternative::Other(12, "baaa".to_owned())));
    assert_eq!(e1.try_unscribe::<CAP>("baz"), Some(Alternative::Other(12, "baz".to_owned())));
    assert_eq!(e1.try_unscribe::<CAP>("BAZ"), Some(Alternative::Other(12, "BAZ".to_owned())));
    assert_eq!(e1.try_unscribe::<CAP>("BaZ"), Some(Alternative::Plain(5)));
    assert_eq!(e1.try_unscribe::<CAP>("biz"), Some(Alternative::Other(12, "biz".to_owned())));
    assert_eq!(e1.try_unscribe::<CAP>("az"), Some(Alternative::Other(12, "az".to_owned())));
    assert_eq!(e1.try_unscribe::<CAP>("bbaz"), Some(Alternative::Other(12, "bbaz".to_owned())));
    assert_eq!(e1.try_unscribe::<CAP>("bazz"), Some(Alternative::Other(12, "bazz".to_owned())));
    assert_eq!(e1.try_unscribe::<CAP>("lorem"), Some(Alternative::Plain(7)));
    assert_eq!(e1.try_unscribe::<CAP>("LOREM"), Some(Alternative::Plain(7)));
    assert_eq!(e1.try_unscribe::<CAP>("LoReM"), Some(Alternative::Plain(7)));
    assert_eq!(e1.try_unscribe::<CAP>("loREM"), Some(Alternative::Plain(7)));
    assert_eq!(e1.try_unscribe::<CAP>("larem"), Some(Alternative::Other(12, "larem".to_owned())));
    assert_eq!(e1.try_unscribe::<CAP>("lore"), Some(Alternative::Other(12, "lore".to_owned())));
    assert_eq!(e1.try_unscribe::<CAP>("llorem"), Some(Alternative::Other(12, "llorem".to_owned())));
    assert_eq!(e1.try_unscribe::<CAP>("loremm"), Some(Alternative::Other(12, "loremm".to_owned())));
    assert_eq!(e1.try_unscribe::<CAP>("ipsum"), Some(Alternative::Plain(9)));
    assert_eq!(e1.try_unscribe::<CAP>("IPSUM"), Some(Alternative::Plain(9)));
    assert_eq!(e1.try_unscribe::<CAP>("IpSuM"), Some(Alternative::Plain(9)));
    assert_eq!(e1.try_unscribe::<CAP>("ipSUM"), Some(Alternative::Plain(9)));
    assert_eq!(e1.try_unscribe::<CAP>("ipdum"), Some(Alternative::Other(12, "ipdum".to_owned())));
    assert_eq!(e1.try_unscribe::<CAP>("ipsu"), Some(Alternative::Other(12, "ipsu".to_owned())));
    assert_eq!(e1.try_unscribe::<CAP>("iipsum"), Some(Alternative::Other(12, "iipsum".to_owned())));
    assert_eq!(e1.try_unscribe::<CAP>("ipsumm"), Some(Alternative::Other(12, "ipsumm".to_owned())));
    assert_eq!(e1.try_unscribe::<CAP>("dolor"), Some(Alternative::Plain(11)));
    assert_eq!(e1.try_unscribe::<CAP>("DOLOR"), Some(Alternative::Plain(11)));
    assert_eq!(e1.try_unscribe::<CAP>("DoLoR"), Some(Alternative::Plain(11)));
    assert_eq!(e1.try_unscribe::<CAP>("doLOR"), Some(Alternative::Plain(11)));
    assert_eq!(e1.try_unscribe::<CAP>("doler"), Some(Alternative::Other(12, "doler".to_owned())));
    assert_eq!(e1.try_unscribe::<CAP>("dolo"), Some(Alternative::Other(12, "dolo".to_owned())));
    assert_eq!(e1.try_unscribe::<CAP>("ddolor"), Some(Alternative::Other(12, "ddolor".to_owned())));
    assert_eq!(e1.try_unscribe::<CAP>("dolorr"), Some(Alternative::Other(12, "dolorr".to_owned())));
    assert_eq!(e1.try_unscribe::<CAP>(""), Some(Alternative::Other(12, "".to_owned())));
    assert_eq!(e1.try_unscribe::<CAP>("\0"), Some(Alternative::Other(12, "\0".to_owned())));
}
