use rme_raster::quality::{
    analyze_complexity, detect_issues, generate_cache_key, hash_content, path_is_excluded,
    AnalysisResult, Issue,
};

#[test]
fn test_complexity_simple() {
    let source = "def foo():\n    if x:\n        return 1".to_string();
    let complexity = analyze_complexity(source).unwrap();
    assert_eq!(complexity, 2); // Base 1 + if 1
}

#[test]
fn test_detect_bare_except() {
    let source = "try:\n    pass\nexcept:\n    pass";
    let issues = detect_issues(source, "test.py");
    assert_eq!(issues.len(), 1);
    assert_eq!(issues[0].rule_id, "E722");
}

#[test]
fn complexity_counts_substrings_without_overlap() {
    // "elif" holds "if" too; "else" once; "iff" holds one "if".
    let source = "if a:\n    pass\nelif b:\n    pass\nelse:\n    iff()".to_string();
    assert_eq!(analyze_complexity(source), Some(1 + 3 + 1 + 1));
    assert_eq!(analyze_complexity(String::new()), Some(1));
    assert_eq!(analyze_complexity("ifif".to_string()), Some(3));
}

#[test]
fn detect_issue_fields_and_columns() {
    let source = "x = 1\r\n  except:  \r\ndef f(a=[]):\n    print(a)\n# print(a)\n";
    let issues = detect_issues(source, "m.py");
    assert_eq!(issues.len(), 3);
    assert_eq!(
        (issues[0].line, issues[0].column, issues[0].severity.as_str(), issues[0].rule_id.as_str()),
        (2, 2, "warning", "E722")
    );
    assert_eq!(issues[0].message, "Bare 'except:' clause - specify exception type");
    assert_eq!(
        (issues[1].line, issues[1].column, issues[1].severity.as_str(), issues[1].rule_id.as_str()),
        (3, 7, "error", "B006")
    );
    assert_eq!(issues[1].message, "Mutable default argument");
    assert_eq!(
        (issues[2].line, issues[2].column, issues[2].severity.as_str(), issues[2].rule_id.as_str()),
        (4, 4, "info", "T201")
    );
    assert_eq!(issues[2].message, "Use logging instead of print()");
}

#[test]
fn detect_column_is_a_byte_offset() {
    let issues = detect_issues("é = print(1)", "u.py");
    assert_eq!(issues.len(), 1);
    assert_eq!(issues[0].column, 5);
}

#[test]
fn detect_one_line_with_several_issues() {
    let issues = detect_issues("def g(x=[]): print(x)", "g.py");
    let rules: Vec<&str> = issues.iter().map(|i| i.rule_id.as_str()).collect();
    assert_eq!(rules, vec!["B006", "T201"]);
    assert!(detect_issues("", "e.py").is_empty());
    assert!(detect_issues("except: pass", "e.py").is_empty());
}

#[test]
fn cache_key_is_sha256_prefix() {
    let key = generate_cache_key("src/main.py".to_string(), "abc123".to_string());
    assert_eq!(key, "4469cd8586312412");
    let key = generate_cache_key("é.py".to_string(), "x".to_string());
    assert_eq!(key, "b76944330a3aed14");
}

#[test]
fn constructors_keep_fields() {
    let issue = Issue::new(3, 4, "info".to_string(), "m".to_string(), "T201".to_string());
    assert_eq!((issue.line, issue.column), (3, 4));
    assert_eq!(issue.rule_id, "T201");
    let result = AnalysisResult::new("a.py".to_string(), vec![issue], 5, 9);
    assert_eq!(result.file, "a.py");
    assert_eq!(result.issues.len(), 1);
    assert_eq!((result.complexity, result.duration_ms), (5, 9));
}

#[test]
fn content_hash_is_sha256_hex() {
    assert_eq!(
        hash_content(b""),
        "e3b0c44298fc1c149afbf4c8996fb92427ae41e4649b934ca495991b7852b855"
    );
    assert_eq!(hash_content(b"abc").len(), 64);
}

#[test]
fn exclusion_patterns_match_substrings() {
    let patterns = vec!["venv".to_string(), "/build/".to_string()];
    assert!(path_is_excluded("proj/.venv/lib/x.py", &patterns));
    assert!(path_is_excluded("a/build/b.py", &patterns));
    assert!(!path_is_excluded("a/builder/b.py", &patterns));
    assert!(!path_is_excluded("a.py", &[].to_vec()));
    assert!(path_is_excluded("a.py", &vec![String::new()]));
}
