use querystrong::Error;
use querystrong::IndexPath;
use querystrong::IndexPathState;
use querystrong::Indexer;
use querystrong::QueryStrong;
use querystrong::Value;

fn path(s: &str) -> IndexPath {
    IndexPath::parse(s).unwrap()
}

#[test]
fn parse_key() {
    assert_eq!(
        IndexPath::parse("a[b][]").unwrap().indexers(),
        &vec![Indexer::key("a"), Indexer::key("b"), Indexer::Empty]
    );

    assert_eq!(
        IndexPath::parse("a[0][b]").unwrap().indexers(),
        &vec![Indexer::key("a"), Indexer::number(0), Indexer::key("b")]
    );

    assert_eq!(
        IndexPath::parse("a[b][c]").unwrap().indexers(),
        &vec![Indexer::key("a"), Indexer::key("b"), Indexer::key("c")]
    );
}

#[test]
fn more_nested_k_v() {
    let mut q = QueryStrong::new();
    q.append_str("a[b][c]", "value").unwrap();
    assert_eq!(q.get_str("a[b][c]"), Some("value"));
    assert!(matches!(q.get("a"), Some(Value::Mapping(_))));
    assert!(matches!(
        q.get("a").unwrap().get(&path("b")),
        Some(Value::Mapping(_))
    ));
    assert!(matches!(
        q.get("a[b]").unwrap().get(&path("c")),
        Some(Value::String(_))
    ));
    assert!(matches!(q.get("a[b][c]"), Some(Value::String(_))));
    assert!(matches!(
        q.get("a").unwrap().get(&path("b[c]")),
        Some(Value::String(_))
    ));
    assert_eq!(q.to_string(), "a[b][c]=value");
}

#[test]
fn list_access() {
    let q = QueryStrong::parse("a[]=1&a[]=2&a[]=3").unwrap();
    assert_eq!(q.get("a").unwrap().get_str(&path("1")), Some("2"));
    assert_eq!(q.get_str("a[1]"), Some("2"));

    let q = QueryStrong::parse("a[1]=2").unwrap();
    assert_eq!(q.get("a").unwrap().get(&path("0")), Some(&Value::Empty));
    assert_eq!(q.get("a").unwrap().get_str(&path("1")), Some("2"));
    assert_eq!(q.get_str("a[1]"), Some("2"));

    let q = QueryStrong::parse("a[2]=3&a[1]=2").unwrap();
    assert_eq!(q.get("a").unwrap().get(&path("0")), Some(&Value::Empty));
    assert_eq!(q.get("a").unwrap().get_str(&path("1")), Some("2"));
    assert_eq!(q.get_str("a[1]"), Some("2"));
    assert_eq!(q.get("a").unwrap().get_str(&path("2")), Some("3"));
    assert_eq!(q.get_str("a[2]"), Some("3"));
}

#[test]
fn deeply_nested() {
    let mut q = QueryStrong::new();
    q.append_str("one[two][three][]", "1").unwrap();
    q.append_str("one[two][three][]", "2").unwrap();
    q.append_str("one[two][three][]", "3").unwrap();

    assert_eq!(
        r#"{"one": {"two": {"three": ["1", "2", "3"]}}}"#,
        q.debug_string()
    );

    assert_eq!(
        "one[two][three][]=1&one[two][three][]=2&one[two][three][]=3",
        q.to_string()
    );
}

#[test]
fn parse_k_v() {
    let q = QueryStrong::parse("a=b").unwrap();
    assert!(q.get("a").unwrap().is_string());
    assert_eq!(q.get_str("a").unwrap(), "b");
    assert_eq!(q.get("a"), Some(&Value::from_encoded("b")));
    assert_eq!(q.get("other"), None);
    assert_eq!(q.get_str("a"), Some("b"));

    assert!(q.is_map());
}

#[test]
fn parse_list() {
    let q = QueryStrong::parse("a=1&a=2&b=string&c").unwrap();

    assert_eq!(
        q.get_slice("a"),
        Some(&[Value::from_encoded("1"), Value::from_encoded("2")][..])
    );
    assert_eq!(q.get_str("a[0]"), Some("1"));
    assert_eq!(
        q.get("a"),
        Some(&Value::List(vec![
            Value::from_encoded("1"),
            Value::from_encoded("2")
        ]))
    );

    assert_eq!(q.get_str("a[0]"), Some("1"));
    assert_eq!(q.get_str("a[1]"), Some("2"));
    assert_eq!(q.get_str("a[2]"), None);
    assert!(q.get("a").unwrap().is_list());

    assert!(q.get_slice("b").is_none());
    assert_eq!(q.get_str("b"), Some("string"));
    assert!(q.get("b").unwrap().is_string());

    assert!(q.get("a[a]").is_none());
    assert!(q.get("a[0][1]").is_none());
    assert!(q.get("b[1][2]").is_none());
    assert!(q.get("c[0]").is_none());
    assert!(q.get("other").is_none());

    assert_eq!(q.get("c"), Some(&Value::Empty));

    assert_eq!("a[]=1&a[]=2&b=string&c", q.to_string());
}

#[test]
fn parse_list_with_no_values_and_duplicates() {
    // at the top level this is a map
    let q = QueryStrong::parse("a&b&a").unwrap();
    assert_eq!(q.get("a"), Some(&Value::Empty));
    assert_eq!(q.to_string(), "a&b");

    // below the top level, this is a list until there's a value
    let mut q = QueryStrong::parse("top[nested]=a&top[nested]=b&top[nested]=a").unwrap();
    assert_eq!(
        q.to_string(),
        "top[nested][]=a&top[nested][]=b&top[nested][]=a"
    );

    // we now transform the list into a map
    q.append_str("top[nested][c]", "d").unwrap();
    assert_eq!(
        q.to_string(),
        "top[nested][a]&top[nested][b]&top[nested][c]=d"
    );
}

#[test]
fn nested_list() {
    let mut q = QueryStrong::new();
    q.append_str("a[]", "1").unwrap();
    q.append_str("a[]", "2").unwrap();
    assert_eq!(
        q.get("a"),
        Some(&Value::List(vec![
            Value::from_encoded("1"),
            Value::from_encoded("2")
        ]))
    );
    assert_eq!(q.to_string(), "a[]=1&a[]=2");
}

#[test]
fn going_from_a_list_to_a_map() {
    let q = QueryStrong::parse("a[]=x&a[]=y&a[z]=map").unwrap();
    assert_eq!(
        q.debug_string(),
        r#"{"a": {"x": (), "y": (), "z": "map"}}"#
    );
    assert_eq!("a[x]&a[y]&a[z]=map", q.to_string());
}

#[test]
fn encoding() {
    let mut q = QueryStrong::new();
    q.append(&IndexPath::single(Indexer::key("a[b]")), Value::from_encoded("&b"))
        .unwrap();
    assert_eq!("a%5Bb%5D=%26b", q.to_string());

    let q = QueryStrong::parse("a%5B%5D=0%26b%3D2").unwrap();
    assert_eq!(q.debug_string(), r#"{"a[]": "0&b=2"}"#);
    assert_eq!(
        q.get_path(&IndexPath::single(Indexer::key("a[]")))
            .unwrap()
            .as_str(),
        Some("0&b=2")
    );
    assert_eq!(q.to_string(), "a%5B%5D=0%26b%3D2");
    assert_eq!(q.get_str("a%5B%5D"), Some("0&b=2"));
}

#[test]
fn round_trip_reparses_equal() {
    let inputs = [
        "a[b][c]=value",
        "a[]=1&a[]=2&b=string&c",
        "a&b",
        "one[two][three][]=1&one[two][three][]=2",
        "a%5B%5D=0%26b%3D2",
        "a=",
        "a_b=x-y&c-d&e_f=1",
        "",
    ];
    for s in inputs {
        let q = QueryStrong::parse(s).unwrap();
        let rendered = q.to_string();
        let q2 = QueryStrong::parse(&rendered).unwrap();
        assert_eq!(q, q2);
        assert_eq!(q2.to_string(), rendered);
    }
}

#[test]
fn append_empty_is_noop() {
    let mut q = QueryStrong::parse("a=1&b=2").unwrap();
    let before = q.to_string();
    q.append(&IndexPath::empty(), Value::Empty).unwrap();
    assert_eq!(q.to_string(), before);

    // a repeated bare flag is idempotent
    let mut q = QueryStrong::parse("a&b").unwrap();
    let before = q.to_string();
    q.append_str("a", "").unwrap();
    assert_eq!(q.debug_string(), r#"{"a": "", "b": ()}"#);
    // appending the bare flag itself, not an empty string
    let mut q = QueryStrong::parse("a&b").unwrap();
    q.append(&path("a"), Value::Empty).unwrap();
    assert_eq!(q.to_string(), before);
}

#[test]
fn serialization_sorts_keys() {
    let q = QueryStrong::parse("b=2&a=1&c=3").unwrap();
    assert_eq!(q.to_string(), "a=1&b=2&c=3");

    let q = QueryStrong::parse("zz[y]=1&zz[x]=2&aa=0").unwrap();
    assert_eq!(q.to_string(), "aa=0&zz[x]=2&zz[y]=1");
}

#[test]
fn list_hole_filling() {
    let q = QueryStrong::parse("a[2]=3&a[1]=2").unwrap();
    assert_eq!(q.get("a[0]"), Some(&Value::Empty));
    assert_eq!(q.get_str("a[1]"), Some("2"));
    assert_eq!(q.get_str("a[2]"), Some("3"));
    assert_eq!(q.get("a").unwrap().len(), 3);
}

#[test]
fn scalar_to_list_promotion() {
    let q = QueryStrong::parse("a=1&a=2").unwrap();
    assert!(q.get("a").unwrap().is_list());
    assert_eq!(q.get_str("a[0]"), Some("1"));
    assert_eq!(q.get_str("a[1]"), Some("2"));
    assert_eq!(q.to_string(), "a[]=1&a[]=2");
}

#[test]
fn bare_flag_semantics() {
    let q = QueryStrong::parse("a&b&a").unwrap();
    assert_eq!(q.get("a"), Some(&Value::Empty));
    assert_eq!(q.get("b"), Some(&Value::Empty));
    assert_eq!(q.to_string(), "a&b");
}

#[test]
fn empty_value_is_empty_string_not_flag() {
    let q = QueryStrong::parse("a=").unwrap();
    assert_eq!(q.get_str("a"), Some(""));
    assert!(q.get("a").unwrap().is_string());
    assert_eq!(q.to_string(), "a=");
}

#[test]
fn malformed_path_rejected() {
    assert!(matches!(
        IndexPath::parse("a]b"),
        Err(Error::CouldNotParseIndexer(
            Some(']'),
            IndexPathState::Start,
            _
        ))
    ));
    assert!(matches!(
        IndexPath::parse("a[[b]"),
        Err(Error::CouldNotParseIndexer(
            Some('['),
            IndexPathState::BracketOpen,
            _
        ))
    ));
    assert!(matches!(
        IndexPath::parse("a["),
        Err(Error::CouldNotParseIndexer(
            None,
            IndexPathState::BracketOpen,
            _
        ))
    ));
    assert!(QueryStrong::parse("a]b=1").is_err());
}

#[test]
fn append_conflicts_error() {
    // a scalar refuses a keyed, valued write
    let err = QueryStrong::parse("a=1&a[b]=2").unwrap_err();
    assert!(matches!(err, Error::CouldNotAppend(_, _, _)));

    // a list with a non-string element refuses the map coercion
    let mut q = QueryStrong::new();
    q.append(&path("a[]"), Value::new_map()).unwrap();
    let err = q.append_str("a[x]", "y").unwrap_err();
    assert!(matches!(err, Error::CouldNotConvertToMap(_)));

    // a failed append leaves the document as it was
    let mut q = QueryStrong::parse("a=1").unwrap();
    let before = q.to_string();
    assert!(q.append_str("a[b]", "2").is_err());
    assert_eq!(q.to_string(), before);
}

#[test]
fn decode_applies_once_at_construction() {
    // the wrappers really decode and encode rather than pass through
    assert_eq!(Value::from_encoded("%41").as_str(), Some("A"));
    let mut q = QueryStrong::new();
    q.append_str("k", "a b").unwrap();
    assert_eq!(q.to_string(), "k=a%20b");
}

#[test]
fn number_classification() {
    // digits become list indices, anything else a key
    let p = IndexPath::parse("a[10]").unwrap();
    assert_eq!(
        p.indexers(),
        &vec![Indexer::key("a"), Indexer::number(10)]
    );
    // an optional leading plus sign is accepted, as integer parsing allows
    let p = IndexPath::parse("a[+7]").unwrap();
    assert_eq!(p.indexers(), &vec![Indexer::key("a"), Indexer::number(7)]);
    // a lone sign, or a sign without digits, stays a key
    let p = IndexPath::parse("a[+]").unwrap();
    assert_eq!(p.indexers(), &vec![Indexer::key("a"), Indexer::key("+")]);
    // digits too large for an index stay a key
    let p = IndexPath::parse("a[99999999999999999999999999]").unwrap();
    assert_eq!(
        p.indexers(),
        &vec![Indexer::key("a"), Indexer::key("99999999999999999999999999")]
    );
}

#[test]
fn underscore_and_dash_stay_unescaped() {
    let mut q = QueryStrong::new();
    q.append_str("a_b", "x-y").unwrap();
    assert_eq!(q.to_string(), "a_b=x-y");
    let q2 = QueryStrong::parse(&q.to_string()).unwrap();
    assert_eq!(q, q2);

    // every other non-alphanumeric is still escaped
    let mut q = QueryStrong::new();
    q.append_str("k", "a b").unwrap();
    assert_eq!(q.to_string(), "k=a%20b");
}

#[test]
fn string_len_counts_bytes() {
    // a two-byte character counts as two, as byte length does
    let v = Value::from_encoded("%C3%A9");
    assert_eq!(v.as_str().map(|s| s.chars().count()), Some(1));
    assert_eq!(v.len(), 2);
    assert_eq!(Value::from_encoded("abc").len(), 3);
}

#[test]
fn path_renders_in_bracket_notation() {
    assert_eq!(IndexPath::parse("a[b][]").unwrap().to_string(), "a[b][]");
    assert_eq!(IndexPath::parse("a[10]").unwrap().to_string(), "a[10]");
    assert_eq!(
        IndexPath::single(Indexer::key("a[b]")).to_string(),
        "a%5Bb%5D"
    );
    assert_eq!(IndexPath::empty().to_string(), "");
}
