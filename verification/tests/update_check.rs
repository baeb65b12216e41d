use strata::markdown::markdown_to_pango;
use strata::release::{
    metadata, release_page_url, request_error_message, ReleaseAsset, ReleaseResponse,
    RequestError,
};
use strata::version::is_newer;

/// Builds a release the way the GitHub API's JSON describes it: `body` may be
/// missing or null, `assets` may be missing.
fn response_from_json(json: &str) -> ReleaseResponse {
    let value: serde_json::Value = serde_json::from_str(json).expect("release fixture should deserialize");
    let text = |key: &str| value[key].as_str().expect("a string field").to_owned();
    let assets = match value["assets"].as_array() {
        Some(items) => items
            .iter()
            .map(|item| ReleaseAsset {
                name: item["name"].as_str().unwrap().to_owned(),
                browser_download_url: item["browser_download_url"].as_str().unwrap().to_owned(),
            })
            .collect(),
        None => Vec::new(),
    };
    ReleaseResponse {
        tag_name: text("tag_name"),
        html_url: text("html_url"),
        body: value["body"].as_str().map(str::to_owned),
        assets,
    }
}

#[test]
fn newer_patch_version_is_detected() {
    assert!(is_newer("0.2.1", "0.2.0"));
}

#[test]
fn newer_minor_version_is_detected() {
    assert!(is_newer("0.3.0", "0.2.9"));
}

#[test]
fn equal_version_is_not_newer() {
    assert!(!is_newer("0.2.0", "0.2.0"));
}

#[test]
fn older_version_is_not_newer() {
    assert!(!is_newer("0.1.9", "0.2.0"));
}

#[test]
fn missing_or_malformed_segments_fall_back_to_zero() {
    assert!(!is_newer("0.2", "0.2.0"));
    assert!(!is_newer("0.2.x", "0.2.1"));
}

#[test]
fn release_body_is_retained() {
    let response = response_from_json(
        r###"{"tag_name":"v1.2.3","html_url":"https://example.test/release","body":"## Changes\n\n- Fast"}"###,
    );
    let release = metadata(&response);
    assert_eq!(release.version, "1.2.3");
    assert_eq!(release.notes, "## Changes\n\n- Fast");
}

#[test]
fn missing_release_body_becomes_empty_notes() {
    let response =
        response_from_json(r#"{"tag_name":"v1.2.3","html_url":"https://example.test/release"}"#);
    assert!(metadata(&response).notes.is_empty());
}

#[test]
fn null_release_body_becomes_empty_notes() {
    let response = response_from_json(
        r#"{"tag_name":"v1.2.3","html_url":"https://example.test/release","body":null}"#,
    );
    assert!(metadata(&response).notes.is_empty());
}

#[test]
fn rate_limit_failures_have_a_distinct_message() {
    assert_eq!(
        request_error_message(&RequestError::StatusCode(429)),
        "GitHub API rate limit reached"
    );
}

#[test]
fn other_api_failures_include_the_status() {
    assert_eq!(
        request_error_message(&RequestError::StatusCode(500)),
        "GitHub API returned HTTP 500"
    );
}

#[test]
fn release_markdown_renders_supported_formatting() {
    let markup =
        markdown_to_pango("## Changes\n\n- **Fast** and `safe`\n- [Details](https://example.test)");
    assert!(markup.contains("<span size=\"large\"><b>Changes</b></span>"));
    assert!(markup.contains("•  <b>Fast</b> and <tt>safe</tt>"));
    assert!(markup.contains("<a href=\"https://example.test\">Details</a>"));
}

#[test]
fn release_markdown_keeps_html_inert_and_does_not_load_images() {
    let markup = markdown_to_pango(
        "<script>alert('no')</script>\n\n![tracking](https://example.test/pixel.png)",
    );
    assert!(!markup.contains("<script>"));
    assert!(markup.contains("&lt;script&gt;"));
    assert!(!markup.contains("href=\"https://example.test/pixel.png"));
    assert!(markup.contains("[Image: tracking]"));
}

#[test]
fn release_markdown_does_not_activate_non_web_links() {
    assert_eq!(
        markdown_to_pango("[Run](javascript:alert('no'))"),
        "<u>Run</u>"
    );
}

#[test]
fn empty_release_markdown_is_empty_markup() {
    assert!(markdown_to_pango("  \n").is_empty());
}

#[test]
fn current_release_fallback_uses_exact_version_tag() {
    assert_eq!(
        release_page_url("1.2.3"),
        "https://github.com/lgse/strata/releases/tag/v1.2.3"
    );
}
