use ast_indexer::text::contains_string;
use ast_indexer::walker::{
    extension_allowed, file_extension, is_ignored_dir, normalize_scope,
    parse_extensions, parse_ignore_dirs, relative_path, scan_root, split_path,
};

#[test]
fn default_ignores_are_always_skipped() {
    let none: Vec<String> = Vec::new();
    for name in [
        ".git", "node_modules", "vendor", "dist", "build", "out", "target", "__pycache__",
        ".venv", "venv", "site-packages", ".m2", ".gradle", ".idea", ".vscode", "coverage",
        "_build", ".next", ".nuxt", ".svelte-kit",
    ] {
        assert!(is_ignored_dir(name, &none), "{}", name);
    }
    assert!(!is_ignored_dir("src", &none));
    assert!(!is_ignored_dir("Target", &none));
    assert!(!is_ignored_dir("", &none));
}

#[test]
fn extra_ignores_are_added_to_the_defaults() {
    let extra = parse_ignore_dirs(" generated , ,tmp,");
    assert_eq!(extra, vec!["generated", "tmp"]);
    assert!(is_ignored_dir("generated", &extra));
    assert!(is_ignored_dir("tmp", &extra));
    assert!(is_ignored_dir(".git", &extra));
    assert!(!is_ignored_dir("src", &extra));
    assert!(contains_string(&extra, "tmp"));
    assert!(!contains_string(&extra, "tm"));
}

#[test]
fn ignore_list_of_blanks_is_empty() {
    assert_eq!(parse_ignore_dirs(""), Vec::<String>::new());
    assert_eq!(parse_ignore_dirs(" , ,"), Vec::<String>::new());
}

#[test]
fn extension_list_is_trimmed_and_dots_are_stripped() {
    assert_eq!(parse_extensions(".py, rs ,..go"), vec!["py", "rs", "go"]);
    assert_eq!(parse_extensions("py"), vec!["py"]);
    assert_eq!(parse_extensions(""), vec![""]);
}

#[test]
fn every_extension_is_allowed_without_a_list() {
    let none: Vec<String> = Vec::new();
    assert!(extension_allowed("py", &none));
    assert!(extension_allowed("", &none));
    let some = parse_extensions("py,rs");
    assert!(extension_allowed("py", &some));
    assert!(extension_allowed("rs", &some));
    assert!(!extension_allowed("go", &some));
}

#[test]
fn scope_is_normalized() {
    assert_eq!(normalize_scope("  ./src/core/ "), "src/core");
    assert_eq!(normalize_scope("././src"), "src");
    assert_eq!(normalize_scope("/src//"), "src");
    assert_eq!(normalize_scope("./"), "");
    assert_eq!(normalize_scope(""), "");
    assert_eq!(normalize_scope("src"), "src");
    assert_eq!(normalize_scope(".hidden/x"), ".hidden/x");
}

#[test]
fn scan_root_is_the_project_or_the_scope_below_it() {
    assert_eq!(scan_root("/proj", None), "/proj");
    assert_eq!(scan_root("/proj", Some("./src/")), "/proj/src");
    assert_eq!(scan_root("/proj/", Some("src")), "/proj/src");
    assert_eq!(scan_root("/proj", Some(" ./ ")), "/proj");
    assert_eq!(scan_root("", Some("src")), "src");
}

#[test]
fn reported_paths_are_relative_with_forward_slashes() {
    assert_eq!(relative_path("/proj/src/a.py", "/proj"), "src/a.py");
    assert_eq!(relative_path("/proj/src/a.py", "/proj/"), "src/a.py");
    assert_eq!(relative_path("/project/src/a.py", "/proj"), "/project/src/a.py");
    assert_eq!(relative_path("/other/a.py", "/proj"), "/other/a.py");
    assert_eq!(relative_path("src\\win\\a.py", ""), "src/win/a.py");
    assert_eq!(relative_path("/proj", "/proj"), "");
    assert_eq!(relative_path("/proj//src/a.py", "/proj"), "src/a.py");
}

#[test]
fn extension_is_lower_case_and_after_the_last_dot() {
    assert_eq!(file_extension("src/a.py"), "py");
    assert_eq!(file_extension("src/A.PY"), "py");
    assert_eq!(file_extension("src/archive.tar.GZ"), "gz");
    assert_eq!(file_extension("src/Makefile"), "");
    assert_eq!(file_extension("src/.bashrc"), "");
    assert_eq!(file_extension("src.d/file"), "");
    assert_eq!(file_extension("a."), "");
    assert_eq!(file_extension(""), "");
}

#[test]
fn path_splits_into_directory_and_file_name() {
    assert_eq!(split_path("src/core/a.py"), ("src/core".to_string(), "a.py".to_string()));
    assert_eq!(split_path("a.py"), ("".to_string(), "a.py".to_string()));
    assert_eq!(split_path(""), ("".to_string(), "".to_string()));
    assert_eq!(split_path("/a.py"), ("".to_string(), "a.py".to_string()));
}
