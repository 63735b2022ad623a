use thisconfig::interpolation::escape_toml_string;
use thisconfig::{expand_env_variables, Environment, FileContents, Interpolator};

fn no_files() -> FileContents {
    FileContents::new()
}

#[test]
fn test_env_with_fallback() {
    let env = Environment::new().with_var("MY_VAR", "hello");
    let result = Interpolator::interpolate("value: ${MY_VAR:fallback}", &env, &no_files()).unwrap();
    assert_eq!(result, "value: hello");
}

#[test]
fn test_env_fallback_used() {
    let env = Environment::new();
    let result = Interpolator::interpolate("value: ${MISSING_VAR:default}", &env, &no_files()).unwrap();
    assert_eq!(result, "value: default");
}

#[test]
fn test_env_braced_exists() {
    let env = Environment::new().with_var("BRACED_VAR", "world");
    let result = Interpolator::interpolate("hello ${BRACED_VAR}", &env, &no_files()).unwrap();
    assert_eq!(result, "hello world");
}

#[test]
fn test_env_braced_missing_errors() {
    let env = Environment::new();
    let result = Interpolator::interpolate("${MISSING_VAR}", &env, &no_files());
    assert!(result.is_err());
}

#[test]
fn test_dollar_without_braces_is_literal() {
    let env = Environment::new().with_var("PLAIN_VAR", "should_not_appear");
    let result = Interpolator::interpolate("hello $PLAIN_VAR", &env, &no_files()).unwrap();
    assert_eq!(result, "hello $PLAIN_VAR");
}

#[test]
fn test_file_with_fallback() {
    let result =
        Interpolator::interpolate("data: file:/no/existe:mi_default", &Environment::new(), &no_files())
            .unwrap();
    assert_eq!(result, "data: mi_default");
}

#[test]
fn test_file_simple() {
    let path = "/tmp/thisconfig-test/contenido.txt";
    let files = FileContents::new().with(path, Ok("contenido".to_string()));
    let result =
        Interpolator::interpolate(&format!("data: file:{path}"), &Environment::new(), &files).unwrap();
    assert_eq!(result, "data: contenido");
}

#[test]
fn test_file_missing_errors() {
    let result = Interpolator::interpolate("file:/ruta/inexistente", &Environment::new(), &no_files());
    assert!(result.is_err());
}

#[test]
fn test_expand_with_braces_syntax() {
    let env = Environment::new().with_var("TEST_VAR", "test_value");
    let result = expand_env_variables("${TEST_VAR}", &env).expect("failed to expand");
    assert_eq!(result, "test_value");
}

#[test]
fn test_expand_with_default_value() {
    let result =
        expand_env_variables("${NONEXISTENT:default_val}", &Environment::new()).expect("failed to expand");
    assert_eq!(result, "default_val");
}

#[test]
fn test_expand_missing_var_no_default() {
    let result = expand_env_variables("${MISSING_VAR}", &Environment::new());
    assert!(result.is_err());
}

#[test]
fn empty_default_is_a_value() {
    let result = Interpolator::interpolate("x = \"${UNSET_VAR:}\"", &Environment::new(), &no_files());
    assert_eq!(result, Ok("x = \"\"".to_string()));
}

#[test]
fn set_variable_wins_over_default() {
    let env = Environment::new().with_var("PORT", "9090");
    let result = Interpolator::interpolate("port = ${PORT:8080}", &env, &no_files());
    assert_eq!(result, Ok("port = 9090".to_string()));
}

#[test]
fn missing_variable_error_names_it() {
    let result = Interpolator::interpolate("a = ${FIRST}\nb = ${SECOND}", &Environment::new(), &no_files());
    assert_eq!(result, Err("environment variable 'FIRST' not found".to_string()));
    let env = Environment::new().with_var("FIRST", "1");
    let result = Interpolator::interpolate("a = ${FIRST}\nb = ${SECOND}", &env, &no_files());
    assert_eq!(result, Err("environment variable 'SECOND' not found".to_string()));
}

#[test]
fn repeated_reference_is_replaced_everywhere() {
    let env = Environment::new().with_var("HOST", "db");
    let result = Interpolator::interpolate("${HOST}:${HOST}", &env, &no_files());
    assert_eq!(result, Ok("db:db".to_string()));
}

#[test]
fn later_setting_hides_earlier() {
    let env = Environment::new().with_var("K", "one").with_var("K", "two");
    assert_eq!(expand_env_variables("${K}", &env), Ok("two".to_string()));
}

#[test]
fn unreadable_file_error_carries_path_and_reason() {
    let files = FileContents::new().with("/etc/secret", Err("permission denied".to_string()));
    let result = Interpolator::interpolate("key = file:/etc/secret", &Environment::new(), &files);
    assert_eq!(
        result,
        Err("Failed to read file '/etc/secret': permission denied".to_string())
    );
}

#[test]
fn readable_file_wins_over_default() {
    let files = FileContents::new().with("/run/token", Ok("hello".to_string()));
    let result =
        Interpolator::interpolate("token = \"file:/run/token:none\"", &Environment::new(), &files);
    assert_eq!(result, Ok("token = \"hello\"".to_string()));
}

#[test]
fn environment_value_may_hold_a_file_reference() {
    let env = Environment::new().with_var("SECRET", "file:/run/key");
    let files = FileContents::new().with("/run/key", Ok("abc".to_string()));
    let result = Interpolator::interpolate("k = \"${SECRET}\"", &env, &files);
    assert_eq!(result, Ok("k = \"abc\"".to_string()));
}

#[test]
fn pending_reads_lists_fallback_files_first() {
    let env = Environment::new();
    let text = "a = \"file:/x:d\"\nb = \"file:/y\"";
    let first = Interpolator::pending_reads(text, &env, &FileContents::new());
    assert_eq!(first, vec!["/x".to_string()]);
    let files = FileContents::new().with("/x", Err("missing".to_string()));
    let second = Interpolator::pending_reads(text, &env, &files);
    assert_eq!(second, vec!["/y".to_string()]);
    let files = files.with("/y", Ok("v".to_string()));
    assert!(Interpolator::pending_reads(text, &env, &files).is_empty());
    assert_eq!(
        Interpolator::interpolate(text, &env, &files),
        Ok("a = \"d\"\nb = \"v\"".to_string())
    );
}

#[test]
fn escaping_plain_text_keeps_it() {
    assert_eq!(escape_toml_string("hello"), "hello");
}

#[test]
fn escaping_changes_a_backslash() {
    assert_ne!(escape_toml_string("a\\b"), "a\\b");
}

#[test]
fn phases_separately() {
    let env = Environment::new().with_var("V", "1");
    assert_eq!(
        Interpolator::interpolate_env_variables("x=${V} y=${W:2}", &env),
        Ok("x=1 y=2".to_string())
    );
    assert_eq!(
        Interpolator::interpolate_files("p=file:/a:b", &FileContents::new()),
        Ok("p=b".to_string())
    );
}

#[test]
fn escaping_quotes_backslashes_and_controls() {
    assert_eq!(escape_toml_string("a\"b"), "a\\\"b");
    assert_eq!(escape_toml_string("a\\b"), "a\\\\b");
    assert_eq!(escape_toml_string("line1\nline2"), "line1\\nline2");
    assert_eq!(escape_toml_string("\t\r\u{8}\u{c}"), "\\t\\r\\b\\f");
    assert_eq!(escape_toml_string("\u{1}\u{1f}\u{7f}"), "\\u0001\\u001F\\u007F");
    assert_eq!(escape_toml_string("caf\u{e9} \u{1F600}"), "caf\u{e9} \u{1F600}");
    assert_eq!(escape_toml_string(""), "");
}

#[test]
fn escaped_text_parses_back_as_a_basic_string() {
    let text = "quote \" back \\ nl \n tab \t bell \u{7} del \u{7f} plain";
    let doc = format!("v = \"{}\"", escape_toml_string(text));
    let parsed: toml::Table = toml::from_str(&doc).unwrap();
    assert_eq!(parsed["v"].as_str(), Some(text));
}

#[test]
fn long_quote_runs_escape_without_failing() {
    let text = "\"".repeat(300);
    assert_eq!(escape_toml_string(&text), "\\\"".repeat(300));
}

#[test]
fn file_text_is_escaped_when_substituted() {
    let files = FileContents::new().with("/run/multi", Ok("a\"b\nc".to_string()));
    let result = Interpolator::interpolate("k = \"file:/run/multi\"", &Environment::new(), &files);
    assert_eq!(result, Ok("k = \"a\\\"b\\nc\"".to_string()));
}
