use std::io;

use lib::error::{Context, JuteError};

#[test]
fn a_failed_command_exits_with_that_commands_own_status() {
    let error = JuteError::CommandFailed {
        command: "cargo test".to_string(),
        code: 101,
    };

    assert_eq!(error.exit_code(), 101);
    assert_eq!(
        error.to_string(),
        "Command \"cargo test\" failed with status code 101"
    );
}

#[test]
fn every_other_failure_exits_with_one() {
    let error = JuteError::NoProjectRoot {
        cwd: String::from("/tmp/nowhere"),
    };

    assert_eq!(error.exit_code(), 1);
    assert_eq!(
        error.to_string(),
        "no .jute folder found in /tmp/nowhere or any parent"
    );
}

#[test]
fn a_failed_download_replays_curls_output_and_exits_with_one() {
    let error = JuteError::DownloadFailed {
        url: "https://example.com/jute-linux-x86_64".to_string(),
        code: Some(22),
        stdout: "".to_string(),
        stderr: "curl: (22) The requested URL returned error: 404\n".to_string(),
    };

    assert_eq!(error.exit_code(), 1);
    assert_eq!(
        error.to_string(),
        "failed to download https://example.com/jute-linux-x86_64\n\
         --- curl stdout ---\n\
         --- curl stderr ---\n\
         curl: (22) The requested URL returned error: 404\n\
         curl failed with exit code 22"
    );
}

#[test]
fn curl_output_without_trailing_newlines_still_renders_separated_sections() {
    let error = JuteError::DownloadFailed {
        url: "https://example.com/jute-linux-x86_64".to_string(),
        code: Some(56),
        stdout: "partial body".to_string(),
        stderr: "connection reset".to_string(),
    };

    assert_eq!(
        error.to_string(),
        "failed to download https://example.com/jute-linux-x86_64\n\
         --- curl stdout ---\n\
         partial body\n\
         --- curl stderr ---\n\
         connection reset\n\
         curl failed with exit code 56"
    );
}

#[test]
fn a_signal_killed_download_reports_the_signal_instead_of_an_exit_code() {
    let error = JuteError::DownloadFailed {
        url: "https://example.com/jute-linux-x86_64".to_string(),
        code: None,
        stdout: "".to_string(),
        stderr: "".to_string(),
    };

    assert_eq!(error.exit_code(), 1);
    assert_eq!(
        error.to_string(),
        "failed to download https://example.com/jute-linux-x86_64\n\
         --- curl stdout ---\n\
         --- curl stderr ---\n\
         curl was terminated by a signal"
    );
}

#[test]
fn io_errors_are_labelled_with_what_jute_was_doing() {
    let failed: Result<(), io::Error> =
        Err(io::Error::new(io::ErrorKind::PermissionDenied, "denied"));

    let error = failed.context("failed to write /x/.jute/run").unwrap_err();

    assert_eq!(error.to_string(), "failed to write /x/.jute/run: denied");
    assert_eq!(error.exit_code(), 1);
}

#[test]
fn with_context_labels_lazily() {
    let succeeded: Result<u8, io::Error> = Ok(1);

    let result = succeeded.with_context(|| -> &'static str {
        panic!("must not be called when there is no error")
    });

    assert_eq!(result.unwrap(), 1);
}

#[test]
fn only_an_io_error_of_the_broken_pipe_kind_is_a_broken_pipe() {
    let broken: Result<(), io::Error> = Err(io::Error::from(io::ErrorKind::BrokenPipe));
    let missing: Result<(), io::Error> = Err(io::Error::from(io::ErrorKind::NotFound));

    assert!(broken.context("writing").unwrap_err().is_broken_pipe());
    assert!(!missing.context("reading").unwrap_err().is_broken_pipe());
    assert!(!JuteError::TaskNotFound {
        name: "build".to_string()
    }
    .is_broken_pipe());
}

#[test]
fn a_labelled_io_error_keeps_the_error_it_was_given() {
    let failed: Result<(), io::Error> = Err(io::Error::new(io::ErrorKind::Other, "denied"));

    match failed.context("failed to write /x").unwrap_err() {
        JuteError::Io { doing, source, .. } => {
            assert_eq!(doing, "failed to write /x");
            assert_eq!(source.kind(), io::ErrorKind::Other);
            assert_eq!(source.to_string(), "denied");
        }
        other => panic!("expected an io error, got {other:?}"),
    }
}
