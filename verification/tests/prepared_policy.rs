use nitera::Nitera;
use nitera::policy::matcher::host_matches;
use nitera::policy::parse;
use nitera::{CreateKind, Decision, NiteraRequest, Operation, Resource, Target};

const ROOT: &str = "/tmp/nitera-prepared";

fn comparison_text() -> String {
    let mut text = String::from("[filesystem]\n");
    for operation in ["read", "write", "delete", "create"] {
        text.push_str(&format!("allow {operation} ./app/**, ./literal/*.txt, ~/nitera-prepared/**\nask {operation} ./app/*/review/**\ndeny {operation} ./app/**/secret, ./app/blocked/**\n"));
    }
    text.push_str("[process]\nallow scope ./app/**, ~/nitera-prepared/**\nallow command git, sh, cargo\nask command sh\ndeny command cargo\n[network]\nallow host *, *.example.com\nask host *.review.example.com\ndeny host blocked.example.com\n");
    text
}

#[test]
fn prepared_policy_agrees_with_public_evaluator() {
    let text = comparison_text();
    for home in [Some("/home/tester"), None] {
        let policy = parse(&text).unwrap();
        let nitera = Nitera::new(parse(&text).unwrap(), ROOT, home);
        let mut paths: Vec<String> = [
            "",
            ".",
            "./app",
            "./app/",
            "./application/file",
            "./app/x/file",
            "./app/x/review/file",
            "./app/review/file",
            "./app/x/secret",
            "./app/secret",
            "./app/blocked/file",
            "./app/../outside",
            "./app/x/../ok",
            "./literal/*.txt",
            "./literal/x.txt",
            "~/nitera-prepared/file",
            "/",
        ]
        .iter()
        .map(|p| p.to_string())
        .collect();
        paths.push(format!("{ROOT}/app/absolute"));
        paths.push(format!("{ROOT}/app/é/東京"));
        for path in &paths {
            let mut requests = Vec::new();
            for operation in [
                Operation::Read,
                Operation::Write,
                Operation::Delete,
                Operation::Create,
                Operation::Execute,
                Operation::Connect,
            ] {
                requests.push(NiteraRequest::filesystem(operation, path));
            }
            for kind in [CreateKind::File, CreateKind::Directory] {
                requests.push(NiteraRequest::create(path, kind));
            }
            for command in ["git", "sh", "cargo", "unknown"] {
                requests.push(NiteraRequest::process(command, &["--version"], path));
            }
            for request in requests {
                assert_eq!(
                    nitera.check(&request, home),
                    policy.evaluate(&request, ROOT, home),
                    "{request:?}"
                );
            }
        }
        for host in [
            "example.com",
            "api.example.com",
            "review.example.com",
            "x.review.example.com",
            "blocked.example.com",
            "é.example.com",
            "example.com.",
        ] {
            let request = NiteraRequest::network(host, 443);
            assert_eq!(
                nitera.check(&request, home),
                policy.evaluate(&request, ROOT, home)
            );
        }
        let mismatched = NiteraRequest {
            resource: Resource::Network,
            operation: Operation::Read,
            target: Target::Path(format!("{ROOT}/app/file")),
        };
        assert_eq!(nitera.check(&mismatched, home), Decision::Deny);
        assert_eq!(policy.evaluate(&mismatched, ROOT, home), Decision::Deny);
    }
}

#[test]
fn host_suffix_matching_preserves_original_edge_cases() {
    for pattern in [
        "*",
        "*.",
        "*.example.com",
        "*..example.com",
        "*.é",
        "example.com",
        "",
    ] {
        for host in [
            "",
            ".",
            "example.com",
            ".example.com",
            "x.example.com",
            "notexample.com",
            "x..example.com",
            "x.é",
            "example.com.",
        ] {
            let expected = if pattern == "*" {
                true
            } else if let Some(suffix) = pattern.strip_prefix("*.") {
                host.ends_with(&format!(".{suffix}"))
            } else {
                pattern == host
            };
            assert_eq!(
                host_matches(pattern, host),
                expected,
                "{pattern:?} / {host:?}"
            );
        }
    }
}

#[test]
fn home_changes_keep_prepared_policy_in_step() {
    let text = "[filesystem]\nallow read ~/allowed/**, ./local/**\n[process]\nallow scope ~/allowed/**\nallow command git\n";
    let policy = parse(text).unwrap();
    let home_a = format!("{ROOT}/home-a");
    let home_b = format!("{ROOT}/home-b");
    for initial in [Some(home_a.as_str()), None] {
        let nitera = Nitera::new(parse(text).unwrap(), ROOT, initial);
        for home in [initial, Some(home_b.as_str()), None, initial] {
            for path in [
                "~/allowed/file".to_string(),
                format!("{ROOT}/home-a/allowed/file"),
                format!("{ROOT}/home-b/allowed/file"),
                format!("{ROOT}/local/file"),
            ] {
                for request in [
                    NiteraRequest::filesystem(Operation::Read, &path),
                    NiteraRequest::process("git", &["status"], &path),
                ] {
                    assert_eq!(
                        nitera.check(&request, home),
                        policy.evaluate(&request, ROOT, home),
                        "{request:?}, HOME={home:?}"
                    );
                }
            }
        }
    }
}

#[test]
fn stale_home_deny_is_never_bypassed_by_a_broad_allow() {
    for filler_count in [0, 128] {
        let mut text = String::from("[filesystem]\ndeny read ~/private/**\nallow read /**\n");
        for i in 0..filler_count {
            text.push_str(&format!("deny read /indexed-other-{i}/**\n"));
        }
        let restored = format!("{ROOT}/restored-home");
        let old_home = format!("{ROOT}/old-home");
        for initial in [Some(old_home.as_str()), None] {
            let nitera = Nitera::new(parse(&text).unwrap(), ROOT, initial);
            let private = format!("{restored}/private/secret");
            assert_eq!(
                nitera.check(
                    &NiteraRequest::filesystem(Operation::Read, &private),
                    Some(restored.as_str())
                ),
                Decision::Deny,
            );
            assert_eq!(
                nitera.check(
                    &NiteraRequest::filesystem(Operation::Read, &format!("{ROOT}/public")),
                    None
                ),
                Decision::Deny,
            );
        }
    }
}
