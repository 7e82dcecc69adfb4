use syslua_lib::build::execute::CacheDecision;
use syslua_lib::execute::action_run::ActionRun;
use syslua_lib::execute::cmd::{command_environment, command_outcome, get_shell};
use syslua_lib::execute::fetch::{cached_file_usable, download_location, http_status_failure, sha256_hex, verify_download};
use syslua_lib::execute::types::ExecuteError;
use syslua_lib::strmap::StrMap;

const HELLO_SHA256: &str = "2cf24dba5fb0a30e26e83b2ac5b9e29e1b161e5c1fa7425e73043362938b9824";

#[test]
fn command_environment_is_isolated() {
    let (env, tmp) = command_environment("/store/build/abc", None);
    assert_eq!(tmp, "/store/build/abc/tmp");
    assert_eq!(env.get("PATH").unwrap(), "/path-not-set");
    assert_eq!(env.get("HOME").unwrap(), "/homeless-shelter");
    for k in ["TMPDIR", "TMP", "TEMP", "TEMPDIR"] {
        assert_eq!(env.get(k).unwrap(), "/store/build/abc/tmp");
    }
    assert_eq!(env.get("out").unwrap(), "/store/build/abc");
    assert_eq!(env.get("LANG").unwrap(), "C");
    assert_eq!(env.get("LC_ALL").unwrap(), "C");
    assert_eq!(env.get("SOURCE_DATE_EPOCH").unwrap(), "315532800");
    assert_eq!(env.len(), 10);
}

#[test]
fn command_environment_user_variables_win() {
    let mut user = StrMap::new();
    user.insert("PATH".to_string(), "/usr/bin".to_string());
    user.insert("FOO".to_string(), "bar".to_string());
    let (env, _) = command_environment("/out", Some(&user));
    assert_eq!(env.get("PATH").unwrap(), "/usr/bin");
    assert_eq!(env.get("FOO").unwrap(), "bar");
    assert_eq!(env.get("HOME").unwrap(), "/homeless-shelter");
    assert_eq!(env.len(), 11);
}

#[test]
fn command_outcome_trims_output_of_a_success() {
    assert_eq!(command_outcome("echo hi", true, Some(0), "  hi there \n").unwrap(), "hi there");
}

#[test]
fn command_outcome_reports_a_failure() {
    match command_outcome("exit 3", false, Some(3), "ignored") {
        Err(ExecuteError::CmdFailed { cmd, code }) => {
            assert_eq!(cmd, "exit 3");
            assert_eq!(code, Some(3));
        },
        _ => panic!("expected a command failure"),
    }
}

#[test]
fn shell_is_sh_unless_overridden() {
    assert_eq!(get_shell(None), ("/bin/sh".to_string(), "-c".to_string()));
    assert_eq!(get_shell(Some("/bin/bash")), ("/bin/bash".to_string(), "-c".to_string()));
}

#[test]
fn sha256_hex_of_known_bytes() {
    assert_eq!(sha256_hex(b"hello"), HELLO_SHA256);
}

#[test]
fn verify_download_accepts_the_expected_hash() {
    assert!(verify_download("https://x/y", HELLO_SHA256, b"hello").is_ok());
}

#[test]
fn verify_download_reports_a_mismatch() {
    match verify_download("https://x/y", "00", b"hello") {
        Err(ExecuteError::HashMismatch { url, expected, actual }) => {
            assert_eq!(url, "https://x/y");
            assert_eq!(expected, "00");
            assert_eq!(actual, HELLO_SHA256);
        },
        _ => panic!("expected a hash mismatch"),
    }
}

#[test]
fn downloads_are_kept_under_the_output_directory() {
    let (dir, path) = download_location("/store/build/h", "https://example.com/files/tool-1.0.tar.gz?sig=1");
    assert_eq!(dir, "/store/build/h/downloads");
    assert_eq!(path, "/store/build/h/downloads/tool-1.0.tar.gz");
}

#[test]
fn kept_download_is_reused_only_with_the_expected_hash() {
    assert!(cached_file_usable(Some(HELLO_SHA256), HELLO_SHA256));
    assert!(!cached_file_usable(Some("00"), HELLO_SHA256));
    assert!(!cached_file_usable(None, HELLO_SHA256));
}

#[test]
fn http_failure_names_the_status() {
    match http_status_failure("https://x/y", "404 Not Found") {
        ExecuteError::FetchFailed { url, message } => {
            assert_eq!(url, "https://x/y");
            assert_eq!(message, "HTTP 404 Not Found");
        },
        _ => panic!("expected a fetch failure"),
    }
}

#[test]
fn action_run_goes_in_order_and_stops_at_the_first_failure() {
    let mut run = ActionRun::new(3);
    assert_eq!(run.next_action(), Some(0));
    assert!(run.record(Ok("a".to_string())));
    assert_eq!(run.next_action(), Some(1));
    assert!(run.record(Err(ExecuteError::CmdFailed { cmd: "false".to_string(), code: Some(1) })));
    assert_eq!(run.next_action(), None);
    assert!(!run.record(Ok("late".to_string())));
    match run.finish() {
        Some(Err(ExecuteError::CmdFailed { cmd, code })) => {
            assert_eq!(cmd, "false");
            assert_eq!(code, Some(1));
        },
        other => panic!("unexpected {:?}", other.map(|r| r.map(|v| v.len()))),
    }
}

#[test]
fn action_run_collects_every_output() {
    let mut run = ActionRun::new(2);
    run.record(Ok("x".to_string()));
    run.record(Ok("y".to_string()));
    let results = run.finish().unwrap().unwrap();
    let outputs: Vec<String> = results.into_iter().map(|r| r.output).collect();
    assert_eq!(outputs, vec!["x".to_string(), "y".to_string()]);
}

#[test]
fn a_reused_build_runs_no_action() {
    let run = ActionRun::for_build(CacheDecision::Reuse, 5);
    assert_eq!(run.next_action(), None);
    assert_eq!(run.finish().unwrap().unwrap().len(), 0);
    let fresh = ActionRun::for_build(CacheDecision::RemoveAndBuild, 2);
    assert_eq!(fresh.next_action(), Some(0));
    assert!(fresh.finish().is_none());
}
