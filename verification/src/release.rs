use vstd::prelude::*;

use crate::markdown::{markdown_events, markdown_to_pango, pango_markup};
use crate::text::{chars_of, decimal, digit_char, push_decimal};
use crate::version::{
    all_digits, digit_value, digits_value, is_digit, is_newer, parse_u64_spec, unsigned_digits,
    version_newer,
};

verus! {

/// What the update check reports of one published release.
#[derive(Clone, Debug, PartialEq, Eq)]
pub struct ReleaseMetadata {
    /// The release's tag without its leading `v`s.
    pub version: String,
    /// The release's page.
    pub url: String,
    /// The release notes as written, in Markdown.
    pub notes: String,
    /// The release notes as Pango markup.
    pub notes_markup: String,
}

/// The outcome of looking for a newer release.
#[derive(Clone, Debug, PartialEq, Eq)]
pub enum UpdateCheck {
    UpToDate,
    Available { release: ReleaseMetadata, download_url: Option<String> },
    Failed(String),
}

/// The outcome of looking for the notes of one release.
#[derive(Clone, Debug, PartialEq, Eq)]
pub enum ReleaseNotes {
    Found(ReleaseMetadata),
    Unavailable { url: String },
    Failed { message: String, url: String },
}

/// One downloadable file of a release, as the GitHub API describes it.
#[derive(Clone, Debug, PartialEq, Eq)]
pub struct ReleaseAsset {
    pub name: String,
    pub browser_download_url: String,
}

/// A release as the GitHub API describes it.
#[derive(Clone, Debug, PartialEq, Eq)]
pub struct ReleaseResponse {
    pub tag_name: String,
    pub html_url: String,
    pub body: Option<String>,
    pub assets: Vec<ReleaseAsset>,
}

/// Why a request to the GitHub API failed.
#[derive(Clone, Debug, PartialEq, Eq)]
pub enum RequestError {
    /// The API answered with this HTTP status.
    StatusCode(u16),
    /// Any other failure, with its description.
    Other(String),
}

/// The message shown for a failed request.
pub open spec fn request_error_text(error: RequestError) -> Seq<char> {
    match error {
        RequestError::StatusCode(code) => if code == 403 || code == 429 {
            "GitHub API rate limit reached"@
        } else {
            "GitHub API returned HTTP "@ + decimal(code as nat)
        },
        RequestError::Other(description) => "Network request failed: "@ + description@,
    }
}

/// Describes a failed request: rate limiting, another HTTP status, or a network failure.
pub fn request_error_message(error: &RequestError) -> (message: String)
    ensures
        message@ == request_error_text(*error),
{
    match error {
        RequestError::StatusCode(code) => {
            if *code == 403 || *code == 429 {
                String::from_str("GitHub API rate limit reached")
            } else {
                let mut message = String::from_str("GitHub API returned HTTP ");
                push_decimal(&mut message, *code as u64);
                message
            }
        },
        RequestError::Other(description) => {
            let mut message = String::from_str("Network request failed: ");
            message.append(description.as_str());
            message
        },
    }
}


/// `tag` without its leading `v`s, as `str::trim_start_matches('v')` gives it.
pub open spec fn strip_leading_v(tag: Seq<char>) -> Seq<char>
    decreases tag.len(),
{
    if tag.len() > 0 && tag[0] == 'v' {
        strip_leading_v(tag.drop_first())
    } else {
        tag
    }
}

/// The notes of a release: its body, or nothing where it has none.
pub open spec fn notes_text(body: Option<String>) -> Seq<char> {
    match body {
        Some(text) => text@,
        None => Seq::empty(),
    }
}

/// `metadata` describes `release`.
pub open spec fn describes_release(metadata: ReleaseMetadata, release: ReleaseResponse) -> bool {
    &&& metadata.version@ == strip_leading_v(release.tag_name@)
    &&& metadata.url@ == release.html_url@
    &&& metadata.notes@ == notes_text(release.body)
    &&& metadata.notes_markup@ == pango_markup(markdown_events(notes_text(release.body)))
}

/// `tag` without its leading `v`s.
fn strip_v(tag: &str) -> (version: String)
    ensures
        version@ == strip_leading_v(tag@),
{
    let chars = chars_of(tag);
    let len = chars.len();
    let mut start: usize = 0;
    assert(tag@.subrange(0, len as int) == tag@);
    while start < len && chars[start] == 'v'
        invariant
            start <= len,
            len == chars@.len(),
            chars@ == tag@,
            strip_leading_v(tag@) == strip_leading_v(tag@.subrange(start as int, len as int)),
        decreases len - start,
    {
        proof {
            let rest = tag@.subrange(start as int, len as int);
            assert(rest.drop_first() == tag@.subrange(start + 1, len as int));
        }
        start = start + 1;
    }
    String::from_str(tag.substring_char(start, len))
}

/// What the update check reports of a release: its version, page, notes and
/// the notes as markup.
pub fn metadata(release: &ReleaseResponse) -> (metadata: ReleaseMetadata)
    ensures
        describes_release(metadata, *release),
{
    let notes = match &release.body {
        Some(body) => body.clone(),
        None => String::new(),
    };
    ReleaseMetadata {
        version: strip_v(release.tag_name.as_str()),
        url: release.html_url.clone(),
        notes_markup: markdown_to_pango(notes.as_str()),
        notes,
    }
}

/// The name of the release archive for `version` on the architecture `arch`.
pub open spec fn archive_file_name(version: Seq<char>, arch: Seq<char>) -> Seq<char> {
    "strata-"@ + version + "-"@ + arch + "-unknown-linux-gnu.tar.gz"@
}

/// The asset naming convention of the published releases.
pub fn archive_name(version: &str, arch: &str) -> (name: String)
    ensures
        name@ == archive_file_name(version@, arch@),
{
    let mut name = String::from_str("strata-");
    name.append(version);
    name.append("-");
    name.append(arch);
    name.append("-unknown-linux-gnu.tar.gz");
    name
}

/// The public page of the release tagged `v{version}`.
pub open spec fn release_page(version: Seq<char>) -> Seq<char> {
    "https://github.com/lgse/strata/releases"@ + "/tag/v"@ + version
}

/// The public page of the release of `version`.
pub fn release_page_url(version: &str) -> (url: String)
    ensures
        url@ == release_page(version@),
{
    let mut url = String::from_str("https://github.com/lgse/strata/releases");
    url.append("/tag/v");
    url.append(version);
    url
}

/// The API resource of the latest release.
pub fn latest_release_api_url() -> (url: String)
    ensures
        url@ == "https://api.github.com/repos/lgse/strata/releases"@ + "/latest"@,
{
    let mut url = String::from_str("https://api.github.com/repos/lgse/strata/releases");
    url.append("/latest");
    url
}

/// The API resource of the release tagged `v{version}`.
pub fn tagged_release_api_url(version: &str) -> (url: String)
    ensures
        url@ == "https://api.github.com/repos/lgse/strata/releases"@ + "/tags/v"@ + version@,
{
    let mut url = String::from_str("https://api.github.com/repos/lgse/strata/releases");
    url.append("/tags/v");
    url.append(version);
    url
}

/// The download address of the first asset named `name`, if any.
pub open spec fn asset_download_url(assets: Seq<ReleaseAsset>, name: Seq<char>) -> Option<Seq<char>>
    decreases assets.len(),
{
    if assets.len() == 0 {
        None
    } else if assets[0].name@ == name {
        Some(assets[0].browser_download_url@)
    } else {
        asset_download_url(assets.drop_first(), name)
    }
}

pub open spec fn string_option_view(value: Option<String>) -> Option<Seq<char>> {
    match value {
        Some(text) => Some(text@),
        None => None,
    }
}

/// The download address of the first asset named `name`.
fn find_asset_url(assets: &Vec<ReleaseAsset>, name: &String) -> (url: Option<String>)
    ensures
        string_option_view(url) == asset_download_url(assets@, name@),
{
    let mut i: usize = 0;
    assert(assets@.subrange(0, assets@.len() as int) == assets@);
    while i < assets.len()
        invariant
            i <= assets@.len(),
            asset_download_url(assets@, name@) == asset_download_url(
                assets@.subrange(i as int, assets@.len() as int),
                name@,
            ),
        decreases assets@.len() - i,
    {
        let ghost rest = assets@.subrange(i as int, assets@.len() as int);
        assert(rest[0] == assets@[i as int]);
        if assets[i].name == *name {
            return Some(assets[i].browser_download_url.clone());
        }
        assert(rest.drop_first() == assets@.subrange(i + 1, assets@.len() as int));
        i = i + 1;
    }
    None
}

/// What the update check reports for the answer `response` of the latest-release
/// request, when `current_version` is installed on the architecture `arch`.
pub open spec fn update_check_outcome(
    current_version: Seq<char>,
    arch: Seq<char>,
    response: Result<ReleaseResponse, RequestError>,
    outcome: UpdateCheck,
) -> bool {
    match response {
        Err(error) => outcome matches UpdateCheck::Failed(message) && message@ == request_error_text(
            error,
        ),
        Ok(release) => {
            let version = strip_leading_v(release.tag_name@);
            if version_newer(version, current_version) {
                &&& outcome matches UpdateCheck::Available { release: found, download_url }
                &&& describes_release(found, release)
                &&& string_option_view(download_url) == asset_download_url(
                    release.assets@,
                    archive_file_name(version, arch),
                )
            } else {
                outcome == UpdateCheck::UpToDate
            }
        },
    }
}

/// Decides what the latest release means for the installed `current_version`:
/// a newer one is offered with the archive built for `arch`, if it was published.
pub fn fetch_latest_release(
    current_version: &str,
    arch: &str,
    response: Result<ReleaseResponse, RequestError>,
) -> (outcome: UpdateCheck)
    ensures
        update_check_outcome(current_version@, arch@, response, outcome),
{
    match response {
        Ok(release) => {
            let release_metadata = metadata(&release);
            if is_newer(release_metadata.version.as_str(), current_version) {
                let archive = archive_name(release_metadata.version.as_str(), arch);
                let download_url = find_asset_url(&release.assets, &archive);
                UpdateCheck::Available { release: release_metadata, download_url }
            } else {
                UpdateCheck::UpToDate
            }
        },
        Err(error) => UpdateCheck::Failed(request_error_message(&error)),
    }
}

/// What the release-notes lookup reports for the answer `response` of the
/// request for the release of `version`.
pub open spec fn release_notes_outcome(
    version: Seq<char>,
    response: Result<ReleaseResponse, RequestError>,
    outcome: ReleaseNotes,
) -> bool {
    match response {
        Ok(release) => outcome matches ReleaseNotes::Found(found) && describes_release(found, release),
        Err(RequestError::StatusCode(404)) => outcome matches ReleaseNotes::Unavailable { url }
            && url@ == release_page(version),
        Err(error) => outcome matches ReleaseNotes::Failed { message, url } && message@
            == request_error_text(error) && url@ == release_page(version),
    }
}

/// Decides what the notes of the installed `version` are: found, not published
/// (the API answered 404), or not reachable; the last two point at the release page.
pub fn fetch_exact_release(version: &str, response: Result<ReleaseResponse, RequestError>) -> (notes: ReleaseNotes)
    ensures
        release_notes_outcome(version@, response, notes),
{
    let url = release_page_url(version);
    match response {
        Ok(release) => ReleaseNotes::Found(metadata(&release)),
        Err(RequestError::StatusCode(404)) => ReleaseNotes::Unavailable { url },
        Err(error) => ReleaseNotes::Failed { message: request_error_message(&error), url },
    }
}


/// A reported version never starts with `v`.
pub proof fn lemma_version_has_no_leading_v(tag: Seq<char>)
    ensures
        strip_leading_v(tag).len() == 0 || strip_leading_v(tag)[0] != 'v',
    decreases tag.len(),
{
    if tag.len() > 0 && tag[0] == 'v' {
        lemma_version_has_no_leading_v(tag.drop_first());
    }
}

/// A decimal representation is a nonempty string of digits that spells `n`.
pub proof fn lemma_decimal_digits(n: nat)
    ensures
        decimal(n).len() > 0,
        all_digits(decimal(n)),
        digits_value(decimal(n)) == n,
    decreases n,
{
    if n < 10 {
        let s = decimal(n);
        assert(s.drop_last() =~= Seq::<char>::empty());
        assert(digits_value(s.drop_last()) == 0);
        assert(digit_value(digit_char(n)) == n);
        assert(s.last() == digit_char(n));
    } else {
        lemma_decimal_digits(n / 10);
        let s = decimal(n);
        let head = decimal(n / 10);
        assert(s.drop_last() == head);
        assert(is_digit(digit_char(n % 10)));
        assert(digit_value(digit_char(n % 10)) == n % 10);
        assert(s.last() == digit_char(n % 10));
        assert((n / 10) * 10 + n % 10 == n);
        assert(digits_value(s) == digits_value(head) * 10 + digit_value(s.last()));
        assert forall|i: int| 0 <= i < s.len() implies is_digit(#[trigger] s[i]) by {
            if i < head.len() {
                assert(s[i] == head[i]);
            }
        }
    }
}

/// The status number in a failure message reads back as the status itself.
pub proof fn lemma_decimal_parses_back(n: u64)
    ensures
        parse_u64_spec(decimal(n as nat)) == Some(n),
{
    lemma_decimal_digits(n as nat);
    let s = decimal(n as nat);
    assert(is_digit(s[0]));
    assert(unsigned_digits(s) == s);
}


/// Only a 404 answer means that no notes were published for the version; any
/// other failed request is reported as a failure with its own message; both point
/// at the release page, and a successful answer is always found.
pub proof fn lemma_release_notes_cases(
    version: Seq<char>,
    response: Result<ReleaseResponse, RequestError>,
    outcome: ReleaseNotes,
)
    requires
        release_notes_outcome(version, response, outcome),
    ensures
        outcome is Found <==> response is Ok,
        outcome is Unavailable <==> response == Err::<ReleaseResponse, RequestError>(
            RequestError::StatusCode(404),
        ),
        outcome is Failed <==> (response is Err && response != Err::<ReleaseResponse, RequestError>(
            RequestError::StatusCode(404),
        )),
        outcome is Failed ==> outcome->Failed_message@ == request_error_text(response->Err_0)
            && outcome->Failed_url@ == release_page(version),
        outcome is Unavailable ==> outcome->Unavailable_url@ == release_page(version),
{
}

/// A release is offered only when it is newer than the installed version; an
/// answer that is not newer means up to date, and only a failed request fails.
pub proof fn lemma_update_check_cases(
    current_version: Seq<char>,
    arch: Seq<char>,
    response: Result<ReleaseResponse, RequestError>,
    outcome: UpdateCheck,
)
    requires
        update_check_outcome(current_version, arch, response, outcome),
    ensures
        outcome is Failed <==> response is Err,
        outcome is Available <==> (response is Ok && version_newer(
            strip_leading_v(response->Ok_0.tag_name@),
            current_version,
        )),
        outcome is UpToDate <==> (response is Ok && !version_newer(
            strip_leading_v(response->Ok_0.tag_name@),
            current_version,
        )),
{
}


proof fn lemma_strip_index(tag: Seq<char>) -> (start: int)
    ensures
        0 <= start <= tag.len(),
        strip_leading_v(tag) == tag.subrange(start, tag.len() as int),
        forall|k: int| 0 <= k < start ==> #[trigger] tag[k] == 'v',
    decreases tag.len(),
{
    if tag.len() > 0 && tag[0] == 'v' {
        let rest = lemma_strip_index(tag.drop_first());
        assert(tag.drop_first().subrange(rest, tag.drop_first().len() as int) == tag.subrange(
            rest + 1,
            tag.len() as int,
        ));
        assert forall|k: int| 0 <= k < rest + 1 implies #[trigger] tag[k] == 'v' by {
            if k > 0 {
                assert(tag[k] == tag.drop_first()[k - 1]);
            }
        }
        rest + 1
    } else {
        assert(tag.subrange(0, tag.len() as int) == tag);
        0
    }
}

/// The reported version is the tag with a run of leading `v`s removed and
/// nothing else.
pub proof fn lemma_version_is_tag_suffix(tag: Seq<char>)
    ensures
        exists|start: int|
            {
                &&& 0 <= start <= tag.len()
                &&& strip_leading_v(tag) == tag.subrange(start, tag.len() as int)
                &&& forall|k: int| 0 <= k < start ==> #[trigger] tag[k] == 'v'
            },
{
    let start = lemma_strip_index(tag);
    assert({
        &&& 0 <= start <= tag.len()
        &&& strip_leading_v(tag) == tag.subrange(start, tag.len() as int)
        &&& forall|k: int| 0 <= k < start ==> #[trigger] tag[k] == 'v'
    });
}

proof fn lemma_asset_index(assets: Seq<ReleaseAsset>, name: Seq<char>) -> (index: int)
    ensures
        asset_download_url(assets, name) is None ==> forall|k: int|
            0 <= k < assets.len() ==> #[trigger] assets[k].name@ != name,
        asset_download_url(assets, name) is Some ==> {
            &&& 0 <= index < assets.len()
            &&& assets[index].name@ == name
            &&& asset_download_url(assets, name) == Some(assets[index].browser_download_url@)
            &&& forall|j: int| 0 <= j < index ==> #[trigger] assets[j].name@ != name
        },
    decreases assets.len(),
{
    if assets.len() == 0 {
        0
    } else if assets[0].name@ == name {
        0
    } else {
        let rest = assets.drop_first();
        let i = lemma_asset_index(rest, name);
        assert forall|k: int| 0 <= k < assets.len() && asset_download_url(assets, name) is None
            implies #[trigger] assets[k].name@ != name by {
            if k > 0 {
                assert(assets[k] == rest[k - 1]);
            }
        }
        assert forall|j: int| 0 <= j < i + 1 && asset_download_url(assets, name) is Some
            implies #[trigger] assets[j].name@ != name by {
            if j > 0 {
                assert(assets[j] == rest[j - 1]);
            }
        }
        if asset_download_url(assets, name) is Some {
            assert(assets[i + 1] == rest[i]);
        }
        i + 1
    }
}

/// The offered download is that of the first asset carrying the archive's name;
/// there is none exactly when no asset carries it.
pub proof fn lemma_download_is_first_named_asset(assets: Seq<ReleaseAsset>, name: Seq<char>)
    ensures
        asset_download_url(assets, name) is None <==> forall|k: int|
            0 <= k < assets.len() ==> #[trigger] assets[k].name@ != name,
        asset_download_url(assets, name) is Some ==> exists|index: int|
            {
                &&& 0 <= index < assets.len()
                &&& #[trigger] assets[index].name@ == name
                &&& asset_download_url(assets, name) == Some(assets[index].browser_download_url@)
                &&& forall|j: int| 0 <= j < index ==> #[trigger] assets[j].name@ != name
            },
{
    let index = lemma_asset_index(assets, name);
    if asset_download_url(assets, name) is Some {
        assert(assets[index].name@ == name);
    }
}

} // verus!
