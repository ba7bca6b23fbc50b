use okf::syntax::{check_syntax, extract_fenced_code_blocks, Language};

#[test]
fn test_python_syntax_checking() {
    assert!(check_syntax("python", "def add(a, b):\n    return a + b\n").is_ok());
    assert!(check_syntax("py", "x = {'a': 1, 'b': [2, 3]}\n").is_ok());

    let err = check_syntax("python", "def broken(\n").unwrap_err();
    assert_eq!(err.language, "python");
    assert!(err.line.is_some());
}

#[test]
fn test_javascript_and_typescript_syntax_checking() {
    assert!(check_syntax("javascript", "const fn = (x) => x * 2;\nexport default fn;").is_ok());
    assert!(check_syntax("js", "function calculate(total) { return total * 0.2; }").is_ok());
    assert!(
        check_syntax(
            "typescript",
            "interface User { id: number; name: string; }\nconst u: User = { id: 1, name: 'Alice' };"
        )
        .is_ok()
    );
    assert!(
        check_syntax(
            "ts",
            "type ID = string | number;\nexport const id: ID = 42;"
        )
        .is_ok()
    );

    let js_err = check_syntax("javascript", "const a = ;").unwrap_err();
    assert_eq!(js_err.language, "javascript");

    let ts_err = check_syntax("typescript", "interface { invalid }").unwrap_err();
    assert_eq!(ts_err.language, "typescript");
}

#[test]
fn test_rust_syntax_checking() {
    assert!(check_syntax("rust", "pub fn compute(val: i32) -> i32 {\n    val * 2\n}").is_ok());
    assert!(check_syntax("rust", "let mut x = vec![1, 2, 3];\nx.push(4);").is_ok());

    let err = check_syntax("rust", "fn invalid( { ").unwrap_err();
    assert_eq!(err.language, "rust");
}

#[test]
fn test_sql_syntax_checking() {
    assert!(
        check_syntax(
            "sql",
            "SELECT id, name, count(*) FROM users WHERE active = 1 GROUP BY id, name;"
        )
        .is_ok()
    );
    assert!(
        check_syntax(
            "sql",
            "CREATE TABLE metrics (id INT PRIMARY KEY, value FLOAT);"
        )
        .is_ok()
    );

    let err = check_syntax("sql", "SELECT * FROM (").unwrap_err();
    assert_eq!(err.language, "sql");
}

#[test]
fn test_is_supported_tracks_parser_features() {
    // Every parser is built in.
    assert!(Language::Python.is_supported());
    assert!(Language::JavaScript.is_supported());
    assert!(Language::TypeScript.is_supported());
    assert!(Language::Rust.is_supported());
    assert!(Language::Sql.is_supported());

    assert!(Language::Json.is_supported());
    assert!(Language::Yaml.is_supported());
    assert!(Language::Bash.is_supported());
    assert!(!Language::Unknown.is_supported());
}

#[test]
fn test_unsupported_languages_are_accepted_unchecked() {
    assert!(check_syntax("cobol", "PROCEDURE DIVISION.").is_ok());
    assert!(check_syntax("", "anything at all").is_ok());

    for (lang, broken) in [
        (Language::Python, "def broken(\n"),
        (Language::JavaScript, "const a = ;"),
        (Language::TypeScript, "interface { invalid }"),
        (Language::Rust, "fn invalid( { "),
        (Language::Sql, "SELECT * FROM ("),
    ] {
        let result = check_syntax(lang.as_str(), broken);
        assert_eq!(result.is_err(), lang.is_supported(), "{lang:?}: {result:?}");
    }
}

#[test]
fn test_json_and_yaml_syntax_checking() {
    assert!(check_syntax("json", "{\"key\": [1, 2, 3], \"active\": true}").is_ok());
    let json_err = check_syntax("json", "{\"key\": [1, 2, 3, ]}").unwrap_err();
    assert_eq!(json_err.language, "json");

    assert!(check_syntax("yaml", "key:\n  nested: value\n  list:\n    - 1\n    - 2\n").is_ok());
    let yaml_err = check_syntax("yaml", "key: [unclosed\n").unwrap_err();
    assert_eq!(yaml_err.language, "yaml");
}

#[test]
fn test_bash_syntax_checking() {
    assert!(
        check_syntax(
            "bash",
            "#!/bin/bash\nif [ \"$1\" = \"test\" ]; then\n    echo ok\nfi\n"
        )
        .is_ok()
    );
    assert!(check_syntax("sh", "for item in a b c; do\n    echo \"$item\"\ndone").is_ok());

    let err = check_syntax("bash", "echo \"unclosed string").unwrap_err();
    assert_eq!(err.language, "bash");
}

#[test]
fn test_extract_fenced_code_blocks() {
    let markdown = r#"
# Heading

Some text before.

```python
x = 1
y = 2
```

Middle text.

~~~typescript
interface Config {
    debug: boolean;
}
~~~

```
no language tag
```
"#;

    let blocks = extract_fenced_code_blocks(markdown);
    assert_eq!(blocks.len(), 3);
    assert_eq!(blocks[0].language.as_deref(), Some("python"));
    assert_eq!(blocks[0].code.trim(), "x = 1\ny = 2");
    assert_eq!(blocks[1].language.as_deref(), Some("typescript"));
    assert_eq!(blocks[2].language, None);
}
