use thisconfig::{
    merge_tables, Config, ConfigBuilder, ConfigError, Environment, Event, Loader, Step, Table, Value,
};

fn from_toml(v: toml::Value) -> Value {
    match v {
        toml::Value::String(s) => Value::String(s),
        toml::Value::Integer(i) => Value::Integer(i),
        toml::Value::Float(f) => Value::Float(f.to_bits()),
        toml::Value::Boolean(b) => Value::Boolean(b),
        toml::Value::Datetime(d) => Value::Datetime(d.to_string()),
        toml::Value::Array(a) => Value::Array(a.into_iter().map(from_toml).collect()),
        toml::Value::Table(t) => Value::Table(table_from_toml(t)),
    }
}

fn table_from_toml(t: toml::Table) -> Table {
    let mut out = Table::new();
    for (k, v) in t {
        out.insert(&k, from_toml(v));
    }
    out
}

fn parse(text: &str) -> Result<Table, String> {
    toml::from_str::<toml::Table>(text).map(table_from_toml).map_err(|e| e.to_string())
}

/// Runs a loader against an in-memory set of files.
fn run(mut loader: Loader, files: &[(&str, &str)]) -> Result<Config, ConfigError> {
    let find = |p: &str| files.iter().find(|(q, _)| *q == p).map(|(_, t)| t.to_string());
    let mut step = loader.start();
    loop {
        step = match step {
            Step::ReadSource { path } => match find(&path) {
                Some(t) => loader.resume(Event::SourceText(t)),
                None => loader.resume(Event::SourceMissing),
            },
            Step::ReadFiles { paths } => {
                let reads = paths
                    .into_iter()
                    .map(|p| {
                        let o = find(&p).ok_or_else(|| "No such file or directory".to_string());
                        (p, o)
                    })
                    .collect();
                loader.resume(Event::FilesRead(reads))
            },
            Step::Parse { text } => match parse(&text) {
                Ok(t) => loader.resume(Event::Parsed(t)),
                Err(m) => loader.resume(Event::ParseFailed(m)),
            },
            Step::Done(c) => return Ok(c),
            Step::Failed(e) => return Err(e),
        };
    }
}

fn build(builder: ConfigBuilder, env: Environment, files: &[(&str, &str)]) -> Result<Config, ConfigError> {
    run(builder.build(env)?, files)
}

fn section<'a>(c: &'a Config, key: &str) -> &'a Table {
    match c.section(key) {
        Some(Value::Table(t)) => t,
        other => panic!("no table under {key}: {other:?}"),
    }
}

fn string(v: Option<&Value>) -> &str {
    match v {
        Some(Value::String(s)) => s,
        other => panic!("not a string: {other:?}"),
    }
}

fn integer(v: Option<&Value>) -> i64 {
    match v {
        Some(Value::Integer(i)) => *i,
        other => panic!("not an integer: {other:?}"),
    }
}

#[test]
fn test_builder_add_file() {
    let config = build(
        Config::builder().add_file("/cfg/a.toml"),
        Environment::new(),
        &[("/cfg/a.toml", "[test]\nname = \"builder\"\nport = 9000")],
    )
    .expect("failed to build config");
    let test = section(&config, "test");
    assert_eq!(string(test.get("name")), "builder");
    assert_eq!(integer(test.get("port")), 9000);
}

#[test]
fn test_builder_add_required_file_missing() {
    let result = build(
        Config::builder().add_required_file("/nonexistent/path/config.toml"),
        Environment::new(),
        &[],
    );
    assert!(result.is_err());
    if let Err(e) = result {
        assert!(matches!(e, ConfigError::FileNotFound(_)));
    }
}

#[test]
fn test_builder_merge_order() {
    let config = build(
        ConfigBuilder::default().add_file("/one.toml").add_file("/two.toml"),
        Environment::new(),
        &[
            ("/one.toml", "[test]\nname = \"first\"\nport = 8080"),
            ("/two.toml", "[test]\nname = \"second\""),
        ],
    )
    .expect("failed to build config");
    let test = section(&config, "test");
    assert_eq!(string(test.get("name")), "second");
    assert_eq!(integer(test.get("port")), 8080);
}

#[test]
fn test_builder_add_toml_str() {
    let toml_str = r#"
[test]
name = "toml_str"
port = 9999
"#;
    let config = build(Config::builder().add_toml_str(toml_str), Environment::new(), &[])
        .expect("failed to build config");
    let test = section(&config, "test");
    assert_eq!(string(test.get("name")), "toml_str");
    assert_eq!(integer(test.get("port")), 9999);
}

#[test]
fn test_builder_deep_merge() {
    let config = build(
        Config::builder().add_file("/1.toml").add_file("/2.toml"),
        Environment::new(),
        &[
            ("/1.toml", "\n[test]\nname = \"app\"\nport = 8080\n\n[test.nested]\nkey1 = \"value1\"\n"),
            ("/2.toml", "\n[test]\nport = 9000\n\n[test.nested]\nkey2 = \"value2\"\n"),
        ],
    )
    .expect("failed to build config");
    assert!(config.section("test").is_some());
    let test = section(&config, "test");
    assert_eq!(string(test.get("name")), "app");
    assert_eq!(integer(test.get("port")), 9000);
    let nested = match test.get("nested") {
        Some(Value::Table(t)) => t,
        other => panic!("{other:?}"),
    };
    assert_eq!(string(nested.get("key1")), "value1");
    assert_eq!(string(nested.get("key2")), "value2");
}

#[test]
fn end_to_end_two_inline_sources() {
    let config = build(
        Config::builder()
            .add_toml_str("[app]\nname=\"first\"\nport=8080")
            .add_toml_str("[app]\nname=\"second\""),
        Environment::new(),
        &[],
    )
    .unwrap();
    let mut expected = Table::new();
    expected.insert("name", Value::String("second".to_string()));
    expected.insert("port", Value::Integer(8080));
    assert_eq!(config.section("app"), Some(&Value::Table(expected)));
}

#[test]
fn optional_missing_file_is_skipped() {
    let inline = "[db]\nhost = \"localhost\"";
    let config = build(
        Config::builder().add_file("/does/not/exist.toml").add_toml_str(inline),
        Environment::new(),
        &[],
    )
    .unwrap();
    assert_eq!(config.table_ref(), &parse(inline).unwrap());
}

#[test]
fn no_sources_is_an_error() {
    let result = Config::builder().build(Environment::new());
    assert!(matches!(result, Err(ConfigError::NoSourcesConfigured)));
}

#[test]
fn malformed_text_fails_even_after_optional_skip() {
    let result = build(
        Config::builder().add_file("/missing.toml").add_toml_str("[broken"),
        Environment::new(),
        &[],
    );
    assert!(matches!(result, Err(ConfigError::DeserializeError { .. })));
}

#[test]
fn unreadable_source_is_a_read_error() {
    let mut loader = Config::builder().add_file("/locked.toml").build(Environment::new()).unwrap();
    assert!(matches!(loader.start(), Step::ReadSource { .. }));
    let step = loader.resume(Event::SourceUnreadable("permission denied".to_string()));
    assert!(matches!(step, Step::Failed(ConfigError::ReadError { .. })));
}

#[test]
fn missing_variable_aborts_the_build() {
    let result = build(
        Config::builder().add_toml_str("[s]\nk = \"ok\"").add_toml_str("[s]\nv = \"${NOPE}\""),
        Environment::new(),
        &[],
    );
    match result {
        Err(ConfigError::InterpolationError { message }) => {
            assert_eq!(message, "environment variable 'NOPE' not found")
        },
        other => panic!("{other:?}"),
    }
}

#[test]
fn environment_and_files_reach_the_table() {
    let env = Environment::new().with_var("DB_HOST", "db.internal");
    let config = build(
        Config::builder().add_toml_str(
            "[db]\nhost = \"${DB_HOST}\"\nuser = \"${DB_USER:admin}\"\npassword = \"file:/run/pw\"",
        ),
        env,
        &[("/run/pw", "s3cret")],
    )
    .unwrap();
    let db = section(&config, "db");
    assert_eq!(string(db.get("host")), "db.internal");
    assert_eq!(string(db.get("user")), "admin");
    assert_eq!(string(db.get("password")), "s3cret");
}

#[test]
fn last_source_defining_a_leaf_wins() {
    let config = build(
        Config::builder().add_toml_str("x = 1\ny = 1").add_toml_str("x = 2").add_toml_str("x = 3\nz = 3"),
        Environment::new(),
        &[],
    )
    .unwrap();
    assert_eq!(config.section("x"), Some(&Value::Integer(3)));
    assert_eq!(config.section("y"), Some(&Value::Integer(1)));
    assert_eq!(config.section("z"), Some(&Value::Integer(3)));
}

#[test]
fn deep_merge_keeps_siblings() {
    let mut a_inner = Table::new();
    a_inner.insert("b", Value::Integer(1));
    a_inner.insert("c", Value::Integer(2));
    let mut a = Table::new();
    a.insert("a", Value::Table(a_inner));
    let mut b_inner = Table::new();
    b_inner.insert("c", Value::Integer(3));
    b_inner.insert("d", Value::Integer(4));
    let mut b = Table::new();
    b.insert("a", Value::Table(b_inner));
    merge_tables(&mut a, b);
    let mut expected_inner = Table::new();
    expected_inner.insert("b", Value::Integer(1));
    expected_inner.insert("c", Value::Integer(3));
    expected_inner.insert("d", Value::Integer(4));
    let mut expected = Table::new();
    expected.insert("a", Value::Table(expected_inner));
    assert_eq!(a, expected);
}

#[test]
fn table_replaces_leaf_and_leaf_replaces_table() {
    let mut base = Table::new();
    base.insert("s", Value::Integer(1));
    let mut t = Table::new();
    t.insert("k", Value::Boolean(true));
    base.insert("t", Value::Table(t));
    let mut over = Table::new();
    let mut s_table = Table::new();
    s_table.insert("inner", Value::Integer(5));
    over.insert("s", Value::Table(s_table));
    over.insert("t", Value::Array(vec![Value::Integer(7)]));
    merge_tables(&mut base, over);
    assert!(matches!(base.get("s"), Some(Value::Table(_))));
    assert_eq!(base.get("t"), Some(&Value::Array(vec![Value::Integer(7)])));
}

#[test]
fn arrays_are_replaced_not_joined() {
    let config = build(
        Config::builder().add_toml_str("xs = [1, 2]").add_toml_str("xs = [3]"),
        Environment::new(),
        &[],
    )
    .unwrap();
    assert_eq!(config.section("xs"), Some(&Value::Array(vec![Value::Integer(3)])));
}

#[test]
fn insert_keeps_position_of_existing_key() {
    let mut t = Table::new();
    t.insert("a", Value::Integer(1));
    t.insert("b", Value::Integer(2));
    t.insert("a", Value::Integer(3));
    assert_eq!(t.entries.len(), 2);
    assert_eq!(t.entries[0].0, "a");
    assert_eq!(t.entries[0].1, Value::Integer(3));
    assert_eq!(t.get("missing"), None);
}

#[test]
fn config_test_get_missing_key() {
    let config = build(Config::builder().add_file("/cfg.toml"), Environment::new(), &[("/cfg.toml", "[other]\nvalue = 1")])
        .expect("failed to load config");
    assert!(config.section("test").is_none());
}
