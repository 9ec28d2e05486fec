use nitera::policy::path::{
    expand_home_with, normalize_path, normalize_pattern, resolve_runtime_path_with_home,
};

const HOME: &str = "/home/tester";

#[test]
fn removes_current_directory() {
    let result = normalize_path("/home/user/./projects/app");

    assert_eq!(result, "/home/user/projects/app");
}

#[test]
fn resolves_parent_directory() {
    let result = normalize_path("/home/user/projects/app/../secret");

    assert_eq!(result, "/home/user/projects/secret");
}

#[test]
fn resolves_multiple_parent_directories() {
    let result = normalize_path("/home/user/projects/app/../../etc/passwd");

    assert_eq!(result, "/home/user/etc/passwd");
}

#[test]
fn traversal_cannot_escape_root() {
    let result = normalize_path("/../../etc/passwd");

    assert_eq!(result, "/etc/passwd");
}

#[test]
fn expands_home() {
    let result = expand_home_with("~/projects/file.txt", HOME);

    assert_eq!(result, format!("{HOME}/projects/file.txt"));
}

#[test]
fn relative_path_uses_base() {
    let result = resolve_runtime_path_with_home("./playground/test.txt", "/home/user/project", HOME);

    assert_eq!(result, "/home/user/project/playground/test.txt");
}

#[test]
fn absolute_path_ignores_base() {
    let result = resolve_runtime_path_with_home("/playground/test.txt", "/home/user/project", HOME);

    assert_eq!(result, "/playground/test.txt");
}

#[test]
fn relative_pattern_uses_base() {
    let result = normalize_pattern("./playground/**", "/home/user/project", Some(HOME)).unwrap();

    assert_eq!(result, "/home/user/project/playground/**");
}

#[test]
fn absolute_pattern_ignores_base() {
    let result = normalize_pattern("/playground/**", "/home/user/project", Some(HOME)).unwrap();

    assert_eq!(result, "/playground/**");
}

#[test]
fn pattern_parent_directory_is_normalized() {
    let result = normalize_pattern("/home/user/projects/../other/**", "/ignored", Some(HOME)).unwrap();

    assert_eq!(result, "/home/user/other/**");
}

#[test]
fn normalize_keeps_relative_paths_relative() {
    assert_eq!(normalize_path("a/./b/../c"), "a/c");
    assert_eq!(normalize_path("../a"), "a");
    assert_eq!(normalize_path("a/.."), "");
    assert_eq!(normalize_path("/"), "/");
    assert_eq!(normalize_path("//a//b/"), "/a/b");
}

#[test]
fn home_expansion_forms() {
    assert_eq!(expand_home_with("~", HOME), HOME);
    assert_eq!(expand_home_with("~/", HOME), HOME);
    assert_eq!(expand_home_with("~/.", HOME), HOME);
    assert_eq!(expand_home_with("~user/x", HOME), "~user/x");
    assert_eq!(expand_home_with("./~", HOME), "./~");
    assert_eq!(expand_home_with("~//etc", HOME), "/etc");
}

#[test]
fn tilde_resolves_against_home_not_base() {
    let result = resolve_runtime_path_with_home("~/notes/../todo.txt", "/base", HOME);
    assert_eq!(result, "/home/tester/todo.txt");
}

#[test]
fn pattern_dot_dot_never_removes_a_recursive_wildcard() {
    let result = normalize_pattern("/a/**/../b", "/", Some(HOME)).unwrap();
    assert_eq!(result, "/a/**/b");
}

#[test]
fn pattern_without_home_cannot_be_normalized() {
    assert_eq!(normalize_pattern("/plain/**", "/base", None), None);
}

#[test]
fn pattern_home_expansion() {
    let result = normalize_pattern("~/projects/**", "/base", Some(HOME)).unwrap();
    assert_eq!(result, "/home/tester/projects/**");
}
