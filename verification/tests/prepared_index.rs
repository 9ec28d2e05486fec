use nitera::policy::model::{PathPattern, Policy};
use nitera::policy::path::resolve_runtime_path_with_home;
use nitera::policy::prepared::{prepare, PreparedPath, PreparedPolicy};
use nitera::{Decision, NiteraRequest, Operation};

const HOME: Option<&str> = Some("/home/tester");

#[test]
fn indexed_candidates_agree_with_a_full_scan() {
    let base = "/base";
    let mut patterns = Vec::new();
    for i in 0..128 {
        for suffix in ["/**", "/*/x", "/exact", "/**/last"] {
            patterns.push(PathPattern(format!("./groups/id{i}{suffix}")));
        }
    }
    patterns.extend(
        [
            "/**/private",
            "/**/a/**/last",
            "/",
            "/literal*.txt",
            "/é/東京/**",
        ]
        .into_iter()
        .map(|pattern| PathPattern(pattern.into())),
    );
    let index = prepare(&patterns, base, HOME);
    assert!(index.uses_index());
    let scan: Vec<_> = patterns
        .iter()
        .map(|pattern| PreparedPath::new(pattern, base, HOME))
        .collect();
    let mut paths = vec![
        "/".to_owned(),
        "/private".into(),
        "/a/b/last".into(),
        "/literal*.txt".into(),
        "/literal.txt".into(),
        "/é/東京/file".into(),
        "/é/東京外/file".into(),
    ];
    for i in 0..132 {
        for suffix in [
            "",
            "/",
            "/x",
            "/a/x",
            "/a/last",
            "/exact",
            "/exact/more",
            "-other",
            "/é",
            "/private",
        ] {
            paths.push(format!("/base/groups/id{i}{suffix}"));
        }
    }
    for path in paths {
        assert_eq!(
            index.matches(&path),
            scan.iter().any(|pattern| pattern.matches(&path)),
            "{path:?}"
        );
    }
}

#[test]
fn broad_and_irregular_sets_keep_the_scan() {
    let base = "/base";
    let broad: Vec<_> = (0..128)
        .map(|i| PathPattern(format!("/**/file{i}")))
        .collect();
    assert!(!prepare(&broad, base, HOME).uses_index());
    let irregular: Vec<_> = (1..=128)
        .map(|i| PathPattern(format!("/{}/**", "a".repeat(i))))
        .collect();
    assert!(!prepare(&irregular, base, HOME).uses_index());
}

#[test]
fn indexed_process_scopes_preserve_command_decisions() {
    let base = "/base";
    let mut source = Policy::default();
    source.process.scope = (0..128)
        .map(|i| PathPattern(format!("./group{i}/**")))
        .collect();
    source.process.scope.push(PathPattern("/**/shared".into()));
    source.process.allow = vec!["git".into(), "sh".into(), "blocked".into()];
    source.process.ask = vec!["sh".into()];
    source.process.deny = vec!["blocked".into()];
    let prepared = PreparedPolicy::new(source.clone(), base, HOME);
    assert!(prepared.scope().uses_index());
    for i in 0..132 {
        for command in ["git", "sh", "blocked", "unknown"] {
            let request =
                NiteraRequest::process(command, &["--version"], &format!("./group{i}/cwd"));
            assert_eq!(
                prepared.evaluate(&request, HOME),
                source.evaluate(&request, base, HOME),
                "{request:?}"
            );
        }
    }
    let request = NiteraRequest::process("git", &["status"], "/outside/shared");
    assert_eq!(prepared.evaluate(&request, HOME), Decision::Allow);
    assert_eq!(
        prepared.evaluate(&request, HOME),
        source.evaluate(&request, base, HOME)
    );
}

#[test]
fn indexed_policy_preserves_precedence_and_unanchored_denies() {
    let base = "/base";
    let mut text = String::from("[filesystem]\n");
    for i in 0..128 {
        text.push_str(&format!("allow read ./group{i}/**\nask read ./group{i}/review/**\ndeny read ./group{i}/secret/**\n"));
    }
    text.push_str("allow read /**\nask read /**/confirm\ndeny read /**/forbidden\n");
    let source = nitera::policy::parse(&text).unwrap();
    let prepared = PreparedPolicy::new(source.clone(), base, HOME);
    let (deny, ask, allow) = prepared.read_sets();
    assert!(deny.uses_index());
    assert!(ask.uses_index());
    assert!(allow.uses_index());
    for i in 0..132 {
        for suffix in [
            "",
            "/file",
            "/secret/data",
            "/review/data",
            "/review/forbidden",
            "/confirm",
            "/secret/../review/file",
            "/é",
        ] {
            let request =
                NiteraRequest::filesystem(Operation::Read, &format!("./group{i}{suffix}"));
            assert_eq!(
                prepared.evaluate(&request, HOME),
                source.evaluate(&request, base, HOME),
                "{request:?}"
            );
        }
    }
}

fn sequences(alphabet: &[&str], depth: usize) -> Vec<String> {
    let mut all = vec![String::new()];
    let mut level = vec![String::new()];
    for _ in 0..depth {
        level = level
            .iter()
            .flat_map(|prefix| alphabet.iter().map(move |part| format!("{prefix}/{part}")))
            .collect();
        all.extend(level.iter().cloned());
    }
    all
}

#[test]
fn prepared_paths_agree_with_original_recursive_matcher() {
    // Exhaust the small component alphabet, including adjacent/middle **,
    // root/empty paths, literal embedded stars and Unicode components.
    let paths = sequences(&["a", "b", "é", "x.txt"], 3);
    let patterns = sequences(&["a", "b", "é", "*", "**", "*.txt"], 3);
    let base = "/base";
    for text in patterns {
        let plain = PathPattern(text);
        let prepared = PreparedPath::new(&plain, base, HOME);
        for path in &paths {
            let resolved = resolve_runtime_path_with_home(path, base, HOME.unwrap());
            assert_eq!(
                prepared.matches(&resolved),
                plain.matches_from(path, base, HOME),
                "pattern={:?}, path={path:?}",
                plain.0
            );
        }
    }
}

#[test]
fn anchored_glob_suffixes_preserve_recursive_matching() {
    let base = "/";
    let patterns = [
        "/**/a",
        "/**/*",
        "/**/a/b",
        "/**/*/b",
        "/a/*/**/b",
        "/**/a/**/b",
        "/**/a/**/a/b",
        "/**/*/**/*",
        "/**/**/b",
        "/a/*/b",
        "/**/é/*",
        "/**/*.txt",
        "/**/a/**/b/**/c",
    ];
    let mut paths = vec![String::from("/")];
    let mut level = vec![String::new()];
    for _ in 0..5 {
        level = level
            .iter()
            .flat_map(|prefix| {
                ["a", "b", "c", "é"]
                    .into_iter()
                    .map(move |part| format!("{prefix}/{part}"))
            })
            .collect();
        paths.extend(level.iter().cloned());
    }
    for text in patterns {
        let plain = PathPattern(text.into());
        let prepared = PreparedPath::new(&plain, base, HOME);
        for path in &paths {
            assert_eq!(
                prepared.matches(path),
                plain.matches_from(path, base, HOME),
                "pattern={text:?}, path={path:?}",
            );
        }
    }
}
