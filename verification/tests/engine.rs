use nitera::engine::request::usize_decimal_chars;
use nitera::nitera::{authorization, is_policy_file_name, policy_directory};
use nitera::policy::path::{
    expand_home_with, normalize_path, normalize_pattern, resolve_runtime_path_with_home,
};
use nitera::policy::prepared::{prepare, PreparedPath};
use nitera::policy::{parse, HostPattern, PathPattern};
use nitera::{
    ApprovalDecision, ApprovalHandler, CreateKind, Decision, Nitera, NiteraOperationError,
    NiteraRequest, Operation, Resource, Target,
};

const HOME: Option<&str> = Some("/home/tester");

struct Always(ApprovalDecision);

impl ApprovalHandler for Always {
    fn approve(&self, _request: &NiteraRequest) -> ApprovalDecision {
        self.0
    }
}

#[test]
fn requests_describe_themselves() {
    assert_eq!(
        NiteraRequest::filesystem(Operation::Read, "/home/user/project/playground/test.txt")
            .describe(),
        "read /home/user/project/playground/test.txt"
    );
    assert_eq!(NiteraRequest::filesystem(Operation::Write, "/a").describe(), "write /a");
    assert_eq!(NiteraRequest::filesystem(Operation::Delete, "/a").describe(), "delete /a");
    assert_eq!(
        NiteraRequest::create("/tmp/x.txt", CreateKind::File).describe(),
        "Create file /tmp/x.txt"
    );
    assert_eq!(
        NiteraRequest::create("/tmp/logs", CreateKind::Directory).describe(),
        "Create directory /tmp/logs"
    );
    assert_eq!(
        NiteraRequest::process("cargo", &["test"], "/home/user/project").describe(),
        "run `cargo test` in /home/user/project"
    );
    assert_eq!(
        NiteraRequest::process("ls", &[], "/tmp").describe(),
        "run `ls` in /tmp"
    );
    assert_eq!(
        NiteraRequest::process("git", &["commit", "-m", "x y"], "/r").describe(),
        "run `git commit -m x y` in /r"
    );
    assert_eq!(
        NiteraRequest::network("127.0.0.1", 8080).describe(),
        "connect to 127.0.0.1:8080"
    );
    assert_eq!(NiteraRequest::network("h", 0).describe(), "connect to h:0");
    assert_eq!(NiteraRequest::network("h", 65535).describe(), "connect to h:65535");
}

#[test]
fn mismatched_request_describes_its_parts() {
    let request = NiteraRequest {
        resource: Resource::Filesystem,
        operation: Operation::Read,
        target: Target::Network { host: "h".to_string(), port: 1 },
    };
    assert_eq!(request.describe(), "Read on Network { host: \"h\", port: 1 }");
}

#[test]
fn duplicate_keeps_every_field() {
    let request = NiteraRequest::process("git", &["status"], "/r");
    let copy = request.duplicate();
    assert_eq!(copy, request);
}

#[test]
fn decimal_digits() {
    let text = |n: usize| usize_decimal_chars(n).into_iter().collect::<String>();
    assert_eq!(text(0), "0");
    assert_eq!(text(7), "7");
    assert_eq!(text(10), "10");
    assert_eq!(text(443), "443");
    assert_eq!(text(1_000_000), "1000000");
}

#[test]
fn authorization_follows_the_decision() {
    let request = NiteraRequest::filesystem(Operation::Read, "/a");
    assert!(authorization(Decision::Allow, None, &request).is_ok());
    assert!(authorization(Decision::Allow, Some(ApprovalDecision::Denied), &request).is_ok());
    for approval in [None, Some(ApprovalDecision::Approved), Some(ApprovalDecision::Denied)] {
        assert!(matches!(
            authorization(Decision::Deny, approval, &request),
            Err(NiteraOperationError::Denied)
        ));
    }
    assert!(authorization(Decision::Ask, Some(ApprovalDecision::Approved), &request).is_ok());
    assert!(matches!(
        authorization(Decision::Ask, Some(ApprovalDecision::Denied), &request),
        Err(NiteraOperationError::Denied)
    ));
    match authorization(Decision::Ask, None, &request) {
        Err(NiteraOperationError::Ask(returned)) => assert_eq!(returned, request),
        other => panic!("unexpected {other:?}"),
    }
}

#[test]
fn authorize_consults_the_handler_only_for_ask() {
    let text = "[filesystem]\nallow read /allowed/**\nask read /asked/**\ndeny read /denied/**\nallow read /denied/**\n";
    let plain = Nitera::new(parse(text).unwrap(), "/", HOME);
    let approving = Nitera::new(parse(text).unwrap(), "/", HOME)
        .with_approval_handler(Always(ApprovalDecision::Approved));
    let refusing = Nitera::new(parse(text).unwrap(), "/", HOME)
        .with_approval_handler(Always(ApprovalDecision::Denied));
    let allowed = NiteraRequest::filesystem(Operation::Read, "/allowed/file");
    let asked = NiteraRequest::filesystem(Operation::Read, "/asked/file");
    let denied = NiteraRequest::filesystem(Operation::Read, "/denied/file");

    assert!(plain.authorize(&allowed, HOME).is_ok());
    assert!(refusing.authorize(&allowed, HOME).is_ok());
    assert!(matches!(approving.authorize(&denied, HOME), Err(NiteraOperationError::Denied)));
    assert!(matches!(plain.authorize(&denied, HOME), Err(NiteraOperationError::Denied)));
    assert!(approving.authorize(&asked, HOME).is_ok());
    assert!(matches!(refusing.authorize(&asked, HOME), Err(NiteraOperationError::Denied)));
    match plain.authorize(&asked, HOME) {
        Err(NiteraOperationError::Ask(returned)) => assert_eq!(returned, asked),
        other => panic!("unexpected {other:?}"),
    }
}

#[test]
fn engine_keeps_its_root() {
    let nitera = Nitera::new(parse("").unwrap(), "/srv/app", HOME);
    assert_eq!(nitera.root(), "/srv/app");
    assert!(!nitera.has_approval_handler());
    let nitera = nitera.with_approval_handler(Always(ApprovalDecision::Approved));
    assert_eq!(nitera.root(), "/srv/app");
    assert!(nitera.has_approval_handler());
}

#[test]
fn policy_file_names() {
    assert!(is_policy_file_name(".nitera"));
    assert!(is_policy_file_name("policy.nitera"));
    assert!(is_policy_file_name("..nitera"));
    assert!(is_policy_file_name("a.b.nitera"));
    assert!(!is_policy_file_name("nitera"));
    assert!(!is_policy_file_name("policy.txt"));
    assert!(!is_policy_file_name("policy.nitera.bak"));
    assert!(!is_policy_file_name(".nitera.bak"));
    assert!(!is_policy_file_name(""));
    assert!(!is_policy_file_name(".."));
    assert!(!is_policy_file_name("policy.NITERA"));
}

#[test]
fn policy_directory_of_a_bare_file_name_is_current() {
    assert_eq!(policy_directory(None), ".");
    assert_eq!(policy_directory(Some("")), ".");
    assert_eq!(policy_directory(Some("/etc/app")), "/etc/app");
    assert_eq!(policy_directory(Some("conf")), "conf");
}

#[test]
fn parse_error_describes_line_and_message() {
    let err = parse("[filesystem]\nallow read /a\n\ninvalid read /b\n").unwrap_err();
    assert_eq!(err.line, 4);
    assert_eq!(err.message, "unknown action: invalid");
    assert_eq!(err.describe(), "line 4: unknown action: invalid");
}

#[test]
fn appended_comment_lines_change_nothing() {
    let good = "[filesystem]\nallow read /a/**";
    let bad = "[nope]";
    for comment in ["", "   ", "# note", "  # allow read /**", "\t"] {
        assert_eq!(parse(&format!("{good}\n{comment}")), parse(good));
        assert_eq!(parse(&format!("{bad}\n{comment}")), parse(bad));
    }
}

#[test]
fn first_failing_line_decides() {
    let err = parse("[filesystem]\nallow read\n[oops]\ndeny host x\n").unwrap_err();
    assert_eq!(err.line, 2);
    assert_eq!(err.message, "missing filesystem path");
}

#[test]
fn subtree_pattern_covers_its_root_and_descendants() {
    let pattern = PathPattern("./app/**".to_string());
    for path in ["./app", "./app/x", "./app/x/y/z", "/srv/app"] {
        assert!(pattern.matches_from(path, "/srv", HOME), "{path}");
    }
    for path in ["./application", "/srv", "/srv/other/app"] {
        assert!(!pattern.matches_from(path, "/srv", HOME), "{path}");
    }
}

#[test]
fn star_matches_exactly_one_segment() {
    let pattern = PathPattern("/data/*".to_string());
    assert!(pattern.matches_from("/data/file", "/", HOME));
    assert!(!pattern.matches_from("/data", "/", HOME));
    assert!(!pattern.matches_from("/data/a/b", "/", HOME));
    let literal = PathPattern("/data/*.txt".to_string());
    assert!(literal.matches_from("/data/*.txt", "/", HOME));
    assert!(!literal.matches_from("/data/a.txt", "/", HOME));
}

#[test]
fn wildcard_hosts_cover_subdomains_only() {
    let pattern = HostPattern("*.example.com".to_string());
    assert!(pattern.matches("api.example.com"));
    assert!(pattern.matches("a.b.example.com"));
    assert!(!pattern.matches("example.com"));
    assert!(!pattern.matches("notexample.com"));
    assert!(HostPattern("*".to_string()).matches(""));
}

#[test]
fn checks_fail_closed_without_home() {
    let text = "[filesystem]\nallow read /**\n[process]\nallow scope /**\nallow command git\n[network]\nallow host *\n";
    let policy = parse(text).unwrap();
    let read = NiteraRequest::filesystem(Operation::Read, "/etc/hosts");
    let run = NiteraRequest::process("git", &["status"], "/repo");
    let connect = NiteraRequest::network("example.com", 443);
    assert_eq!(policy.evaluate(&read, "/", None), Decision::Deny);
    assert_eq!(policy.evaluate(&run, "/", None), Decision::Deny);
    assert_eq!(policy.evaluate(&connect, "/", None), Decision::Allow);
    assert_eq!(policy.evaluate(&read, "/", HOME), Decision::Allow);
    assert_eq!(policy.evaluate(&run, "/", HOME), Decision::Allow);
}

#[test]
fn create_rules_are_their_own_list() {
    let policy = parse("[filesystem]\nallow write /w/**\nallow create /c/**\n").unwrap();
    assert_eq!(
        policy.evaluate(&NiteraRequest::create("/c/file", CreateKind::File), "/", HOME),
        Decision::Allow
    );
    assert_eq!(
        policy.evaluate(&NiteraRequest::create("/c/dir", CreateKind::Directory), "/", HOME),
        Decision::Allow
    );
    assert_eq!(
        policy.evaluate(&NiteraRequest::create("/w/file", CreateKind::File), "/", HOME),
        Decision::Deny
    );
    assert_eq!(
        policy.evaluate(&NiteraRequest::filesystem(Operation::Create, "/c/file"), "/", HOME),
        Decision::Deny
    );
}

#[test]
fn normalization_is_stable() {
    for path in ["/a/./b/../c//d", "/..", "/", "a/../../b/.", "", "./x/", "/a/b/../../.."] {
        let once = normalize_path(path);
        assert_eq!(normalize_path(&once), once, "{path}");
        assert!(!once.split('/').any(|c| c == "." || c == ".."), "{path}");
    }
    assert_eq!(normalize_path("/a/./b/../c//d"), "/a/c/d");
    assert_eq!(normalize_path("/.."), "/");
    assert_eq!(normalize_path("a/../../b/."), "b");
}

#[test]
fn resolution_against_a_rooted_base() {
    assert_eq!(
        resolve_runtime_path_with_home("../x/./y", "/srv/app", "/home/u"),
        "/srv/x/y"
    );
    assert_eq!(resolve_runtime_path_with_home("~/notes", "/srv", "/home/u"), "/home/u/notes");
    assert_eq!(resolve_runtime_path_with_home("~", "/srv", "/home/u"), "/home/u");
    assert_eq!(resolve_runtime_path_with_home("/etc/./hosts", "/srv", "/home/u"), "/etc/hosts");
    assert_eq!(resolve_runtime_path_with_home("", "/srv", "/home/u"), "/srv");
    assert_eq!(expand_home_with("~user/x", "/home/u"), "~user/x");
}

#[test]
fn prepared_sets_agree_with_single_patterns() {
    let patterns: Vec<PathPattern> = ["/a/**", "/b/*/c", "./rel/**", "~/h/*"]
        .iter()
        .map(|p| PathPattern(p.to_string()))
        .collect();
    let set = prepare(&patterns, "/base", HOME);
    for path in ["/a", "/a/x", "/b/x/c", "/b/c", "/base/rel/q", "/home/tester/h/f", "/home/tester/h"] {
        let any = patterns.iter().any(|p| p.matches_from(path, "/base", HOME));
        assert_eq!(set.matches(path), any, "{path}");
        let single = patterns
            .iter()
            .any(|p| PreparedPath::new(p, "/base", HOME).matches(path));
        assert_eq!(single, any, "{path}");
    }
}

#[test]
fn joined_policy_texts_append_every_list() {
    let s1 = "[filesystem]\nallow read /a/**\ndeny write /w\n[process]\nallow scope /p/**\nallow command git\n[network]\ndeny host x.com";
    let s2 = "# second file\n\n[network]\nallow host *.y.com\n[filesystem]\nallow read /b/**, /c\nask create /n/**\n[process]\nallow command cargo\ndeny command rm";
    let p1 = parse(s1).unwrap();
    let p2 = parse(s2).unwrap();
    let p = parse(&format!("{s1}\n{s2}")).unwrap();
    let cat = |a: &Vec<PathPattern>, b: &Vec<PathPattern>| [a.clone(), b.clone()].concat();
    assert_eq!(p.filesystem.allow.read, cat(&p1.filesystem.allow.read, &p2.filesystem.allow.read));
    assert_eq!(p.filesystem.deny.write, cat(&p1.filesystem.deny.write, &p2.filesystem.deny.write));
    assert_eq!(p.filesystem.ask.create, cat(&p1.filesystem.ask.create, &p2.filesystem.ask.create));
    assert_eq!(p.process.scope, cat(&p1.process.scope, &p2.process.scope));
    assert_eq!(p.process.allow, [p1.process.allow.clone(), p2.process.allow.clone()].concat());
    assert_eq!(p.process.deny, [p1.process.deny.clone(), p2.process.deny.clone()].concat());
    assert_eq!(p.network.deny, [p1.network.deny.clone(), p2.network.deny.clone()].concat());
    assert_eq!(p.network.allow, [p1.network.allow.clone(), p2.network.allow.clone()].concat());
}

#[test]
fn rejected_rules_leave_earlier_rules_alone() {
    for text in [
        "[process]\nallow command git\nask scope ./a",
        "[process]\nallow command git\ndeny scope ./a",
    ] {
        let err = parse(text).unwrap_err();
        assert_eq!(err.line, 3);
        assert_eq!(err.message, "scope can only use allow");
    }
}

#[test]
fn index_decision_counts_prefix_lengths_in_bytes() {
    let mut names = Vec::new();
    for len in [10, 12, 14] {
        for accented in 0..=len {
            let name: String = std::iter::repeat('é')
                .take(accented)
                .chain(std::iter::repeat('a').take(len - accented))
                .collect();
            names.push(name);
        }
    }
    let mut patterns = Vec::new();
    while patterns.len() < 80 {
        for name in &names {
            patterns.push(PathPattern(format!("/{name}/**")));
        }
    }
    let set = prepare(&patterns, "/", HOME);
    assert!(!set.uses_index());
    assert!(set.matches("/ééaaaaaaaa/x"));
    assert!(!set.matches("/zz"));

    let ascii: Vec<PathPattern> = (0..80).map(|i| PathPattern(format!("/d{}/**", i % 12))).collect();
    let set = prepare(&ascii, "/", HOME);
    assert!(set.uses_index());
    assert!(set.matches("/d3/file"));
}

struct OnlyThis(String);

impl ApprovalHandler for OnlyThis {
    fn approve(&self, request: &NiteraRequest) -> ApprovalDecision {
        if request.describe() == self.0 {
            ApprovalDecision::Approved
        } else {
            ApprovalDecision::Denied
        }
    }
}

#[test]
fn handler_is_asked_about_the_evaluated_request() {
    let text = "[filesystem]\nask read /asked/**\n";
    let nitera = Nitera::new(parse(text).unwrap(), "/", HOME)
        .with_approval_handler(OnlyThis("read /asked/yes".to_string()));
    let yes = NiteraRequest::filesystem(Operation::Read, "/asked/yes");
    let no = NiteraRequest::filesystem(Operation::Read, "/asked/no");
    assert!(nitera.authorize(&yes, HOME).is_ok());
    assert!(matches!(nitera.authorize(&no, HOME), Err(NiteraOperationError::Denied)));
}

#[test]
fn normalized_patterns_are_stable_and_home_can_be_spelled_out() {
    for pattern in ["./a/../b/**", "/x/./y/*", "~/p/**", "/**/..", "", "/"] {
        let once = normalize_pattern(pattern, "/base", HOME).unwrap();
        assert!(once.starts_with('/'));
        for other in ["/", "/elsewhere", "relative"] {
            assert_eq!(normalize_pattern(&once, other, HOME).unwrap(), once, "{pattern}");
        }
    }
    assert_eq!(
        normalize_pattern("~/x/**", "/base", HOME),
        normalize_pattern("/home/tester/x/**", "/base", HOME)
    );
    assert_eq!(normalize_pattern("~/", "/b", HOME), normalize_pattern("/home/tester/", "/b", HOME));
    assert_eq!(normalize_pattern("~/x", "/b", None), None);
}
