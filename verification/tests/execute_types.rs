use syslua_lib::execute::cmd::get_shell;
use syslua_lib::execute::fetch::url_to_filename;
use syslua_lib::execute::types::{
    BindResult, BuildResult, DagResult, ExecuteConfig, ExecuteError, FailedDependency,
};
use syslua_lib::hash::ObjectHash;
use syslua_lib::strmap::StrMap;

#[test]
fn dag_result_success_with_realized_build() {
    let mut result = DagResult::new();
    result.realized.insert(
        "abc123".to_string(),
        BuildResult { store_path: "/store/obj/test".to_string(), outputs: StrMap::new(), action_results: vec![] },
    );
    assert!(result.is_success());
    assert_eq!(result.build_total(), 1);
    assert_eq!(result.bind_total(), 0);
    assert_eq!(result.total(), 1);
}

#[test]
fn dag_result_success_with_applied_bind() {
    let mut result = DagResult::new();
    result.applied.insert("def456".to_string(), BindResult { outputs: StrMap::new(), action_results: vec![] });
    assert!(result.is_success());
    assert_eq!(result.build_total(), 0);
    assert_eq!(result.bind_total(), 1);
    assert_eq!(result.total(), 1);
}

#[test]
fn dag_result_failure_with_build_failed() {
    let result = DagResult {
        build_failed: Some((
            ObjectHash("abc123".to_string()),
            ExecuteError::CmdFailed { cmd: "make".to_string(), code: Some(1) },
        )),
        ..DagResult::new()
    };
    assert!(!result.is_success());
    assert_eq!(result.build_total(), 1);
    assert_eq!(result.total(), 1);
}

#[test]
fn dag_result_failure_with_bind_failed() {
    let result = DagResult {
        bind_failed: Some((
            ObjectHash("def456".to_string()),
            ExecuteError::CmdFailed { cmd: "ln -s".to_string(), code: Some(1) },
        )),
        ..DagResult::new()
    };
    assert!(!result.is_success());
    assert_eq!(result.bind_total(), 1);
    assert_eq!(result.total(), 1);
}

#[test]
fn dag_result_failure_with_build_skipped() {
    let mut result = DagResult::new();
    result.build_skipped.insert("child".to_string(), FailedDependency::Build(ObjectHash("parent".to_string())));
    assert!(!result.is_success());
    assert_eq!(result.build_total(), 1);
    assert_eq!(result.total(), 1);
}

#[test]
fn dag_result_failure_with_bind_skipped_due_to_build() {
    let mut result = DagResult::new();
    result.bind_skipped.insert("mybind".to_string(), FailedDependency::Build(ObjectHash("parent".to_string())));
    assert!(!result.is_success());
    assert_eq!(result.bind_total(), 1);
    assert_eq!(result.total(), 1);
}

#[test]
fn dag_result_failure_with_bind_skipped_due_to_bind() {
    let mut result = DagResult::new();
    result.bind_skipped.insert("mybind".to_string(), FailedDependency::Bind(ObjectHash("parentbind".to_string())));
    assert!(!result.is_success());
    assert_eq!(result.bind_total(), 1);
    assert_eq!(result.total(), 1);
}

#[test]
fn failed_dependency_display() {
    let build_dep = FailedDependency::Build(ObjectHash("abc123".to_string()));
    let bind_dep = FailedDependency::Bind(ObjectHash("def456".to_string()));

    assert_eq!(build_dep.to_string(), "build:abc123");
    assert_eq!(bind_dep.to_string(), "bind:def456");
}

#[test]
fn execute_config_default_parallelism() {
    let config = ExecuteConfig::with_available_parallelism(None);
    assert!(config.parallelism >= 1);
    assert!(!config.system);
}

#[test]
fn execute_config_falls_back_to_four() {
    let config = ExecuteConfig::with_available_parallelism(None);
    assert_eq!(config.parallelism, 4);
}

#[test]
fn get_shell_with_override() {
    let (shell, arg) = get_shell(Some("/usr/bin/bash"));
    assert_eq!(shell, "/usr/bin/bash");
    assert_eq!(arg, "-c");
}

#[test]
fn get_shell_default() {
    let (shell, arg) = get_shell(None);
    assert_eq!(shell, "/bin/sh");
    assert_eq!(arg, "-c");
}

#[test]
fn url_to_filename_simple() {
    assert_eq!(url_to_filename("https://example.com/file.tar.gz"), "file.tar.gz");
}

#[test]
fn url_to_filename_with_query() {
    assert_eq!(url_to_filename("https://example.com/file.tar.gz?token=abc"), "file.tar.gz");
}

#[test]
fn url_to_filename_sanitizes_special_chars() {
    assert_eq!(url_to_filename("https://example.com/file name.tar.gz"), "file_name.tar.gz");
}

#[test]
fn url_to_filename_fallback_for_empty() {
    let result = url_to_filename("https://example.com/");
    assert!(result.starts_with("download_"));
    assert_eq!(result.len(), "download_".len() + 16);
}

#[test]
fn url_to_filename_version_in_path() {
    assert_eq!(
        url_to_filename("https://github.com/user/repo/releases/download/v1.0.0/app-linux-x64.tar.gz"),
        "app-linux-x64.tar.gz"
    );
}

#[test]
fn url_to_filename_dot_dot_falls_back() {
    let a = url_to_filename("https://example.com/..");
    let b = url_to_filename("https://example.org/..");
    assert!(a.starts_with("download_"));
    assert_ne!(a, b);
}
