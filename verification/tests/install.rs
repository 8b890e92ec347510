use lib::install::{
    binaries_to_download, binary_file_name, curl_args, download_result, release_url,
    supported_platforms, temp_file_name, CURL,
};

#[test]
fn binaries_are_named_after_their_platform() {
    assert_eq!(binary_file_name("macos", "aarch64"), "jute-macos-aarch64");
    assert_eq!(binary_file_name("linux", "x86_64"), "jute-linux-x86_64");
}

#[test]
fn every_supported_platform_is_listed() {
    let names: Vec<String> = supported_platforms()
        .into_iter()
        .map(|(os, arch)| binary_file_name(os, arch))
        .collect();

    assert_eq!(
        names,
        vec!["jute-macos-aarch64", "jute-linux-x86_64", "jute-linux-aarch64"]
    );
}

#[test]
fn every_other_platform_is_downloaded_in_order() {
    assert_eq!(
        binaries_to_download("jute-linux-x86_64"),
        vec!["jute-macos-aarch64", "jute-linux-aarch64"]
    );
    assert_eq!(
        binaries_to_download("jute-macos-aarch64"),
        vec!["jute-linux-x86_64", "jute-linux-aarch64"]
    );
}

#[test]
fn an_unsupported_platform_downloads_every_binary() {
    assert_eq!(
        binaries_to_download("jute-windows-x86_64"),
        vec!["jute-macos-aarch64", "jute-linux-x86_64", "jute-linux-aarch64"]
    );
}

#[test]
fn binaries_are_downloaded_from_the_release_of_this_version() {
    assert_eq!(
        release_url("0.3.1", "jute-linux-aarch64"),
        "https://github.com/sgrowe/jute/releases/download/v0.3.1/jute-linux-aarch64"
    );
}

#[test]
fn a_binary_is_written_to_a_hidden_file_named_after_the_process() {
    assert_eq!(
        temp_file_name("jute-linux-x86_64", 4242),
        ".jute-linux-x86_64.tmp.4242"
    );
    assert_eq!(temp_file_name("jute-macos-aarch64", 0), ".jute-macos-aarch64.tmp.0");
}

#[test]
fn curl_is_asked_to_fail_quietly_and_retry() {
    assert_eq!(CURL, "curl");
    assert_eq!(
        curl_args("/p/.jute/bin/.jute-linux-x86_64.tmp.7", "https://example.com/jute"),
        vec![
            "--fail",
            "--location",
            "--no-progress-meter",
            "--retry",
            "5",
            "--max-time",
            "300",
            "--output",
            "/p/.jute/bin/.jute-linux-x86_64.tmp.7",
            "https://example.com/jute",
        ]
    );
}

#[test]
fn a_failed_download_replays_what_curl_wrote() {
    let error = download_result(
        "https://github.com/sgrowe/jute/releases/download/v1.0.0/jute-macos-aarch64",
        false,
        Some(22),
        b"",
        b"curl: (22) The requested URL returned error: 404\n",
    )
    .unwrap_err();

    assert_eq!(
        error.to_string(),
        "failed to download https://github.com/sgrowe/jute/releases/download/v1.0.0/jute-macos-aarch64\n\
         --- curl stdout ---\n\
         --- curl stderr ---\n\
         curl: (22) The requested URL returned error: 404\n\
         curl failed with exit code 22"
    );
    assert_eq!(error.exit_code(), 1);
}

#[test]
fn a_signal_killed_curl_is_reported_without_an_exit_code() {
    let error = download_result("https://example.com/jute", false, None, b"", b"").unwrap_err();

    assert_eq!(
        error.to_string(),
        "failed to download https://example.com/jute\n\
         --- curl stdout ---\n\
         --- curl stderr ---\n\
         curl was terminated by a signal"
    );
}

#[test]
fn curl_output_that_is_not_utf8_is_replayed_with_replacement_characters() {
    let error =
        download_result("https://example.com/jute", false, Some(6), b"a\xffb", b"").unwrap_err();

    assert_eq!(
        error.to_string(),
        "failed to download https://example.com/jute\n\
         --- curl stdout ---\n\
         a\u{fffd}b\n\
         --- curl stderr ---\n\
         curl failed with exit code 6"
    );
}

#[test]
fn a_successful_download_is_ok() {
    assert!(download_result("https://example.com/jute", true, Some(0), b"", b"").is_ok());
}
