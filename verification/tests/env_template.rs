use enject::env_template::{parse, parse_line, resolve, templatize, EnvLine};
use enject::error::EnjectError;
use enject::string_map::StringMap;

fn make_local(pairs: &[(&str, &str)]) -> StringMap {
    let mut m = StringMap::new();
    for (k, v) in pairs {
        m.insert(k.to_string(), v.to_string());
    }
    m
}

#[test]
fn test_plain_value_passthrough() {
    let lines = parse("PORT=3000").unwrap();
    assert_eq!(
        lines[0],
        EnvLine::Plain {
            key: "PORT".into(),
            value: "3000".into()
        }
    );
}

#[test]
fn test_ev_ref_parsed_correctly() {
    let lines = parse("DATABASE_URL=en://database_url").unwrap();
    assert_eq!(
        lines[0],
        EnvLine::LocalRef {
            key: "DATABASE_URL".into(),
            secret_name: "database_url".into()
        }
    );
}

#[test]
fn test_global_ref_parsed_correctly() {
    let lines = parse("API_KEY=en://global/shared_key").unwrap();
    assert_eq!(
        lines[0],
        EnvLine::GlobalRef {
            key: "API_KEY".into(),
            secret_name: "shared_key".into()
        }
    );
}

#[test]
fn test_comment_is_passthrough() {
    let lines = parse("# this is a comment").unwrap();
    assert_eq!(lines[0], EnvLine::Passthrough("# this is a comment".into()));
}

#[test]
fn test_blank_line_is_passthrough() {
    // A single newline produces one blank line
    let lines = parse("\n").unwrap();
    assert_eq!(lines[0], EnvLine::Passthrough("".into()));
}

#[test]
fn test_empty_content_produces_no_lines() {
    let lines = parse("").unwrap();
    assert!(lines.is_empty());
}

#[test]
fn test_malformed_line_no_equals_returns_err() {
    let result = parse("MISSING_EQUALS");
    assert!(result.is_err());
}

#[test]
fn test_empty_key_returns_err() {
    let result = parse("=value");
    assert!(result.is_err());
}

#[test]
fn test_empty_ev_ref_returns_err() {
    let result = parse("KEY=en://");
    assert!(result.is_err());
}

#[test]
fn test_resolve_local_ref() {
    let lines = parse("DB=en://database_url").unwrap();
    let local = make_local(&[("database_url", "postgres://localhost/db")]);
    let resolved = resolve(&lines, &local, &StringMap::new()).unwrap();
    assert_eq!(
        resolved.get("DB"),
        Some(&"postgres://localhost/db".to_string())
    );
}

#[test]
fn test_resolve_plain_value() {
    let lines = parse("PORT=3000").unwrap();
    let resolved = resolve(&lines, &StringMap::new(), &StringMap::new()).unwrap();
    assert_eq!(resolved.get("PORT"), Some(&"3000".to_string()));
}

#[test]
fn test_unknown_ev_ref_returns_err() {
    let lines = parse("DB=en://missing_secret").unwrap();
    let result = resolve(&lines, &StringMap::new(), &StringMap::new());
    assert!(result.is_err());
}

#[test]
fn test_resolve_global_ref() {
    let lines = parse("KEY=en://global/shared").unwrap();
    let global = make_local(&[("shared", "global-value")]);
    let resolved = resolve(&lines, &StringMap::new(), &global).unwrap();
    assert_eq!(resolved.get("KEY"), Some(&"global-value".to_string()));
}

#[test]
fn test_mixed_content() {
    let content = "# comment\nPORT=8080\nDB=en://db_url\n";
    let lines = parse(content).unwrap();
    let local = make_local(&[("db_url", "postgres://localhost")]);
    let resolved = resolve(&lines, &local, &StringMap::new()).unwrap();

    assert_eq!(resolved.get("PORT"), Some(&"8080".to_string()));
    assert_eq!(resolved.get("DB"), Some(&"postgres://localhost".to_string()));
    assert!(!resolved.contains("# comment"));
}

#[test]
fn test_legacy_ev_ref_parsed_correctly() {
    let lines = parse("DATABASE_URL=ev://database_url").unwrap();
    assert_eq!(
        lines[0],
        EnvLine::LocalRef {
            key: "DATABASE_URL".into(),
            secret_name: "database_url".into()
        }
    );
}

#[test]
fn test_legacy_global_ev_ref_parsed_correctly() {
    let lines = parse("API_KEY=ev://global/shared_key").unwrap();
    assert_eq!(
        lines[0],
        EnvLine::GlobalRef {
            key: "API_KEY".into(),
            secret_name: "shared_key".into()
        }
    );
}

#[test]
fn test_empty_legacy_ev_ref_returns_err() {
    let result = parse("KEY=ev://");
    assert!(result.is_err());
}

#[test]
fn test_resolve_legacy_ev_ref() {
    let lines = parse("DB=ev://database_url").unwrap();
    let local = make_local(&[("database_url", "postgres://localhost/db")]);
    let resolved = resolve(&lines, &local, &StringMap::new()).unwrap();
    assert_eq!(
        resolved.get("DB"),
        Some(&"postgres://localhost/db".to_string())
    );
}

#[test]
fn test_value_with_equals_sign() {
    // Values that contain '=' must be preserved correctly
    let lines = parse("URL=http://host?foo=bar").unwrap();
    assert_eq!(
        lines[0],
        EnvLine::Plain {
            key: "URL".into(),
            value: "http://host?foo=bar".into()
        }
    );
}

#[test]
fn test_parse_line_reports_legacy_prefix() {
    let (line, legacy) = parse_line("DB=ev://db_url").unwrap();
    assert!(legacy);
    assert_eq!(
        line,
        EnvLine::LocalRef {
            key: "DB".into(),
            secret_name: "db_url".into()
        }
    );
    let (line, legacy) = parse_line("DB=en://db_url").unwrap();
    assert!(!legacy);
    assert_eq!(
        line,
        EnvLine::LocalRef {
            key: "DB".into(),
            secret_name: "db_url".into()
        }
    );
}

#[test]
fn test_missing_global_secret_names_scope() {
    let lines = parse("KEY=en://global/absent").unwrap();
    let result = resolve(&lines, &StringMap::new(), &StringMap::new());
    match result {
        Err(EnjectError::SecretNotFound(name)) => assert_eq!(name, "global/absent"),
        other => panic!("expected SecretNotFound, got {:?}", other),
    }
}

#[test]
fn test_missing_local_secret_names_secret() {
    let lines = parse("DB=en://absent").unwrap();
    let result = resolve(&lines, &StringMap::new(), &StringMap::new());
    match result {
        Err(EnjectError::SecretNotFound(name)) => assert_eq!(name, "absent"),
        other => panic!("expected SecretNotFound, got {:?}", other),
    }
}

#[test]
fn test_resolution_is_all_or_nothing() {
    // One unresolved reference fails the whole template, even though
    // other lines would resolve.
    let lines = parse("PORT=8080\nDB=en://missing").unwrap();
    let result = resolve(&lines, &StringMap::new(), &StringMap::new());
    assert!(result.is_err());
}

#[test]
fn test_templatize_rewrites_plain_lines() {
    let lines = parse("# keep\nPORT=8080\nDB=en://db_url\nKEY=en://global/shared").unwrap();
    let rewritten = templatize(&lines);
    assert_eq!(
        rewritten,
        vec![
            "# keep".to_string(),
            "PORT=en://PORT".to_string(),
            "DB=en://db_url".to_string(),
            "KEY=en://global/shared".to_string(),
        ]
    );
}

#[test]
fn test_templatize_parse_idempotent() {
    // An already-templatized file survives a print/parse round trip.
    let text = "# comment\nDB=en://db_url\nKEY=en://global/shared";
    let lines = parse(text).unwrap();
    let printed = templatize(&lines).join("\n");
    assert_eq!(printed, text);
    let reparsed = parse(&printed).unwrap();
    assert_eq!(lines, reparsed);
}
