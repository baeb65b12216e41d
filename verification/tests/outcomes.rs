use strata::release::{
    archive_name, fetch_exact_release, fetch_latest_release, latest_release_api_url, metadata,
    request_error_message, tagged_release_api_url, ReleaseAsset, ReleaseMetadata,
    ReleaseNotes, ReleaseResponse, RequestError, UpdateCheck,
};

fn release(tag: &str, assets: Vec<ReleaseAsset>) -> ReleaseResponse {
    ReleaseResponse {
        tag_name: tag.to_owned(),
        html_url: "https://example.test/release".to_owned(),
        body: Some("**New**".to_owned()),
        assets,
    }
}

fn asset(name: &str, url: &str) -> ReleaseAsset {
    ReleaseAsset { name: name.to_owned(), browser_download_url: url.to_owned() }
}

#[test]
fn archive_names_follow_the_convention() {
    assert_eq!(
        archive_name("1.2.3", "x86_64"),
        "strata-1.2.3-x86_64-unknown-linux-gnu.tar.gz"
    );
}

#[test]
fn api_addresses() {
    assert_eq!(
        latest_release_api_url(),
        "https://api.github.com/repos/lgse/strata/releases/latest"
    );
    assert_eq!(
        tagged_release_api_url("0.4.0"),
        "https://api.github.com/repos/lgse/strata/releases/tags/v0.4.0"
    );
}

#[test]
fn metadata_strips_every_leading_v() {
    let found = metadata(&release("vv2.0.0", vec![]));
    assert_eq!(
        found,
        ReleaseMetadata {
            version: "2.0.0".to_owned(),
            url: "https://example.test/release".to_owned(),
            notes: "**New**".to_owned(),
            notes_markup: "<b>New</b>".to_owned(),
        }
    );
}

#[test]
fn newer_release_offers_its_archive() {
    let assets = vec![
        asset("strata-1.0.0-aarch64-unknown-linux-gnu.tar.gz", "https://dl.test/arm"),
        asset("strata-1.0.0-x86_64-unknown-linux-gnu.tar.gz", "https://dl.test/x86"),
        asset("strata-1.0.0-x86_64-unknown-linux-gnu.tar.gz", "https://dl.test/second"),
    ];
    match fetch_latest_release("0.9.0", "x86_64", Ok(release("v1.0.0", assets))) {
        UpdateCheck::Available { release, download_url } => {
            assert_eq!(release.version, "1.0.0");
            assert_eq!(download_url, Some("https://dl.test/x86".to_owned()));
        }
        other => panic!("unexpected outcome {other:?}"),
    }
}

#[test]
fn newer_release_without_archive_has_no_download() {
    let outcome = fetch_latest_release("0.9.0", "riscv64", Ok(release("v1.0.0", vec![])));
    assert!(matches!(outcome, UpdateCheck::Available { download_url: None, .. }));
}

#[test]
fn same_or_older_release_is_up_to_date() {
    assert_eq!(
        fetch_latest_release("1.0.0", "x86_64", Ok(release("v1.0.0", vec![]))),
        UpdateCheck::UpToDate
    );
    assert_eq!(
        fetch_latest_release("1.0.1", "x86_64", Ok(release("v1.0.0", vec![]))),
        UpdateCheck::UpToDate
    );
}

#[test]
fn failed_request_is_reported() {
    assert_eq!(
        fetch_latest_release("1.0.0", "x86_64", Err(RequestError::StatusCode(403))),
        UpdateCheck::Failed("GitHub API rate limit reached".to_owned())
    );
    assert_eq!(
        request_error_message(&RequestError::Other("timed out".to_owned())),
        "Network request failed: timed out"
    );
    assert_eq!(
        request_error_message(&RequestError::StatusCode(0)),
        "GitHub API returned HTTP 0"
    );
    assert_eq!(
        request_error_message(&RequestError::StatusCode(65535)),
        "GitHub API returned HTTP 65535"
    );
}

#[test]
fn release_notes_outcomes() {
    assert!(matches!(
        fetch_exact_release("1.0.0", Ok(release("v1.0.0", vec![]))),
        ReleaseNotes::Found(ReleaseMetadata { .. })
    ));
    assert_eq!(
        fetch_exact_release("1.0.0", Err(RequestError::StatusCode(404))),
        ReleaseNotes::Unavailable {
            url: "https://github.com/lgse/strata/releases/tag/v1.0.0".to_owned()
        }
    );
    assert_eq!(
        fetch_exact_release("1.0.0", Err(RequestError::StatusCode(502))),
        ReleaseNotes::Failed {
            message: "GitHub API returned HTTP 502".to_owned(),
            url: "https://github.com/lgse/strata/releases/tag/v1.0.0".to_owned()
        }
    );
}
