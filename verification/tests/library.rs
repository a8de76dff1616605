use ubpkg::base::{
    asset_file_name, executable_mode, install_location, parse_content_length, FileContents,
    ParseLengthError,
};
use ubpkg::git::{
    get_repo_latest_version, get_repo_sorted_versions, ls_remote_args, parse_listed_refs, Error,
    GitOutcome,
};
use ubpkg::github::{GitHubAsset, GitHubRelease, GitHubRepo};
use include_dir::{Dir, DirEntry, File};
use ubpkg::repo::{load_manifest_from_repo, manifest_file_name, Error as RepoError};
use ubpkg::runner::{parse_manifest, ExecutionError};
use ubpkg::repo::Manifest;
use ubpkg::versions::sort_versions;
use std::num::IntErrorKind;

fn strings(items: &[&str]) -> Vec<String> {
    items.iter().map(|s| s.to_string()).collect()
}

fn success(stdout: &str) -> GitOutcome {
    GitOutcome::Finished {
        success: true,
        status: "exit status: 0".to_string(),
        command: "\"git\" \"ls-remote\"".to_string(),
        stdout: stdout.as_bytes().to_vec(),
    }
}

const LISTING: &str = "3f2a\trefs/tags/v1.10.0\n9b1c\trefs/tags/v1.2.0\n77de\trefs/tags/v1.9.3\n";

#[test]
fn sort_versions_follows_gnu_version_order() {
    let sorted = sort_versions(&strings(&["a.txt", "b 1.txt", "b 10.txt", "b 11.txt", "b 5.txt", "Ssm.txt"]));
    assert_eq!(sorted, strings(&["Ssm.txt", "a.txt", "b 1.txt", "b 5.txt", "b 10.txt", "b 11.txt"]));
}

#[test]
fn sort_versions_orders_numeric_parts_by_value() {
    let sorted = sort_versions(&strings(&["v1.10.0", "v1.2.0", "v1.9.3", "v0.99"]));
    assert_eq!(sorted, strings(&["v0.99", "v1.2.0", "v1.9.3", "v1.10.0"]));
}

#[test]
fn sort_versions_agrees_with_sort_by_vsort_compare() {
    let input = strings(&["2.0", "1.0-rc1", "1.0", "1.0.1", "0.9", "10", "9", "1.0~rc2", "", "."]);
    let mut expected = input.clone();
    expected.sort_by(|a, b| vsort::compare(a, b));
    assert_eq!(sort_versions(&input), expected);
}

#[test]
fn sort_versions_keeps_duplicates_and_empty_input() {
    assert_eq!(sort_versions(&strings(&["b", "a", "b"])), strings(&["a", "b", "b"]));
    assert_eq!(sort_versions(&Vec::new()), Vec::<String>::new());
}

#[test]
fn parse_listed_refs_takes_what_follows_the_first_tab() {
    let text: Vec<char> = "h1\trefs/tags/a\tx\nno tab here\nh2\trefs/tags/b".chars().collect();
    let refs = parse_listed_refs(&text);
    let refs: Vec<String> = refs.iter().map(|r| r.iter().collect()).collect();
    assert_eq!(refs, strings(&["refs/tags/a\tx", "refs/tags/b"]));
}

#[test]
fn parse_listed_refs_of_empty_output_is_empty() {
    assert!(parse_listed_refs(&Vec::new()).is_empty());
    assert!(parse_listed_refs(&"\n\n".chars().collect()).is_empty());
}

#[test]
fn sorted_versions_of_a_listing() {
    let r = get_repo_sorted_versions(success(LISTING));
    assert_eq!(r, Ok(strings(&["v1.2.0", "v1.9.3", "v1.10.0"])));
}

#[test]
fn latest_version_of_a_listing() {
    assert_eq!(get_repo_latest_version(success(LISTING)), Ok("v1.10.0".to_string()));
}

#[test]
fn latest_version_of_a_single_tag_without_trailing_newline() {
    assert_eq!(get_repo_latest_version(success("abc\trefs/tags/0.1")), Ok("0.1".to_string()));
}

#[test]
fn git_that_cannot_run_is_an_execution_error() {
    let r = get_repo_sorted_versions(GitOutcome::NotRun("No such file".to_string()));
    assert_eq!(r, Err(Error::GitExecution("No such file".to_string())));
    let r = get_repo_latest_version(GitOutcome::NotRun("No such file".to_string()));
    assert_eq!(r, Err(Error::GitExecution("No such file".to_string())));
}

#[test]
fn failing_git_is_an_unsuccessful_error() {
    let outcome = GitOutcome::Finished {
        success: false,
        status: "exit status: 128".to_string(),
        command: "\"git\" \"ls-remote\"".to_string(),
        stdout: Vec::new(),
    };
    assert_eq!(
        get_repo_latest_version(outcome),
        Err(Error::GitUnsuccessful("exit status: 128".to_string(), "\"git\" \"ls-remote\"".to_string()))
    );
}

#[test]
fn ls_remote_arguments() {
    assert_eq!(
        ls_remote_args("https://github.com/a/b.git".to_string()),
        strings(&["ls-remote", "--tags", "--refs", "https://github.com/a/b.git"])
    );
}

#[test]
fn github_repo_display_and_url() {
    let repo = GitHubRepo::new("cli/cli");
    assert_eq!(repo.id, "cli/cli");
    assert_eq!(repo.to_string(), "gh:cli/cli");
    assert_eq!(repo.git_url(), "https://github.com/cli/cli.git");
}

#[test]
fn github_release_name_url_and_display() {
    let release = GitHubRelease { github_repo: GitHubRepo::new("cli/cli"), tag: "v2.40.0".to_string() };
    assert_eq!(release.name(), "v2.40.0");
    assert_eq!(
        release.get_asset_url("gh_2.40.0_linux_amd64.tar.gz"),
        "https://github.com/cli/cli/releases/download/v2.40.0/gh_2.40.0_linux_amd64.tar.gz"
    );
    assert_eq!(release.to_string(), "gh:gh:cli/cli");
    let asset = GitHubAsset { github_release: release, name: "x.zip".to_string() };
    assert_eq!(asset.to_string(), "release:gh:gh:cli/cli name:x.zip");
}

#[test]
fn latest_release_of_a_repository() {
    let repo = GitHubRepo::new("a/b");
    let release = repo.latest_release(success(LISTING)).unwrap();
    assert_eq!(release.github_repo.id, "a/b");
    assert_eq!(release.tag, "v1.10.0");
    let err = repo.latest_release(GitOutcome::NotRun("gone".to_string())).unwrap_err();
    assert_eq!(err, Error::GitExecution("gone".to_string()));
}

const SAMPLE: Dir<'static> = Dir::new(
    "",
    &[
        DirEntry::File(File::new("gh.ubpkg.sky", b"print('gh')")),
        DirEntry::File(File::new("bad.ubpkg.sky", &[0xff, 0xfe])),
        DirEntry::Dir(Dir::new("sub", &[DirEntry::File(File::new("sub/x.ubpkg.sky", b"ok"))])),
        DirEntry::File(File::new("gh.ubpkg.sky", b"second")),
    ],
);

#[test]
fn manifest_is_loaded_by_package_name() {
    assert_eq!(manifest_file_name("gh"), "gh.ubpkg.sky");
    let m = load_manifest_from_repo("gh", &SAMPLE).unwrap();
    assert_eq!(m.name, "gh.ubpkg.sky");
    assert_eq!(m.content, "print('gh')");
}

#[test]
fn missing_manifest_is_not_found() {
    let e = load_manifest_from_repo("nope", &SAMPLE).unwrap_err();
    assert_eq!(e, RepoError::NotFound("nope.ubpkg.sky".to_string()));
}

#[test]
fn manifest_that_is_not_utf8_is_malformed() {
    let e = load_manifest_from_repo("bad", &SAMPLE).unwrap_err();
    assert_eq!(e, RepoError::MalformedUTF8("bad.ubpkg.sky".to_string()));
}

#[test]
fn file_contents_as_text() {
    let c = FileContents { contents: "héllo".as_bytes().to_vec() };
    assert_eq!(c.as_string(), Some("héllo".to_string()));
    assert_eq!(c.to_string(), "filecontents");
    let bad = FileContents { contents: vec![0xc3] };
    assert_eq!(bad.as_string(), None);
}

#[test]
fn binaries_go_to_local_bin() {
    assert_eq!(install_location("gh"), Some(strings(&[".local", "bin", "gh"])));
    assert_eq!(install_location(".hidden"), Some(strings(&[".local", "bin", ".hidden"])));
}

#[test]
fn binaries_cannot_leave_local_bin() {
    for name in ["", ".", "..", "../gh", "a/b", "/usr/bin/gh", "gh/"] {
        assert_eq!(install_location(name), None, "name {:?}", name);
    }
}

#[test]
fn executable_mode_sets_owner_execute_bit() {
    assert_eq!(executable_mode(0o644), 0o744);
    assert_eq!(executable_mode(0o755), 0o755);
    assert_eq!(executable_mode(executable_mode(0o600)), 0o700);
    assert_eq!(executable_mode(0o100644), 0o100744);
}

#[test]
fn content_length_values() {
    assert_eq!(parse_content_length("123"), Ok(123));
    assert_eq!(parse_content_length("+5"), Ok(5));
    assert_eq!(parse_content_length("007"), Ok(7));
    assert_eq!(parse_content_length(""), Err(ParseLengthError::Empty));
    assert_eq!(parse_content_length("+"), Err(ParseLengthError::InvalidDigit));
    assert_eq!(parse_content_length("-5"), Err(ParseLengthError::InvalidDigit));
    assert_eq!(parse_content_length("12a"), Err(ParseLengthError::InvalidDigit));
    assert_eq!(parse_content_length(" 1"), Err(ParseLengthError::InvalidDigit));
    assert_eq!(
        parse_content_length("999999999999999999999999999"),
        Err(ParseLengthError::PosOverflow)
    );
}

#[test]
fn content_length_agrees_with_std_parse() {
    let max = usize::MAX.to_string();
    let above = format!("{}0", max);
    let cases = [
        "0", "42", "+0", "", "+", "-", "-0", "1_000", "x", "9x", &max, &above, "99999999999999999999999x",
        "12x99999999999999999999999", "١٢",
    ];
    for case in cases {
        let expected = match case.parse::<usize>() {
            Ok(n) => Ok(n),
            Err(e) => Err(match e.kind() {
                IntErrorKind::Empty => ParseLengthError::Empty,
                IntErrorKind::InvalidDigit => ParseLengthError::InvalidDigit,
                IntErrorKind::PosOverflow => ParseLengthError::PosOverflow,
                other => panic!("unexpected kind {:?}", other),
            }),
        };
        assert_eq!(parse_content_length(case), expected, "input {:?}", case);
    }
}

#[test]
fn asset_name_from_url_or_disposition() {
    assert_eq!(asset_file_name("https://example.com/dl/tool-1.0.tar.gz", None), "tool-1.0.tar.gz");
    assert_eq!(asset_file_name("noslash", None), "noslash");
    assert_eq!(asset_file_name("https://example.com/dir/", None), "");
    assert_eq!(
        asset_file_name("https://example.com/x", Some("attachment; filename=real.zip")),
        "real.zip"
    );
}

#[test]
fn manifests_are_found_as_paths() {
    let m = load_manifest_from_repo("sub//x", &SAMPLE).unwrap();
    assert_eq!(m.name, "sub//x.ubpkg.sky");
    assert_eq!(m.content, "ok");
    assert_eq!(load_manifest_from_repo("sub/./x", &SAMPLE).unwrap().content, "ok");
    assert_eq!(load_manifest_from_repo("./gh", &SAMPLE).unwrap_err(), RepoError::NotFound("./gh.ubpkg.sky".to_string()));
    assert_eq!(load_manifest_from_repo("sub/y", &SAMPLE).unwrap_err(), RepoError::NotFound("sub/y.ubpkg.sky".to_string()));
}

#[test]
fn recipes_that_parse() {
    let m = Manifest { name: "gh.ubpkg.sky".to_string(), content: "x = 1\ndef f(a):\n    return a\n".to_string() };
    assert!(parse_manifest(m).is_ok());
}

#[test]
fn recipes_that_do_not_parse() {
    let m = Manifest { name: "bad.ubpkg.sky".to_string(), content: "def (:".to_string() };
    match parse_manifest(m) {
        Err(ExecutionError::ParsingError(message)) => {
            let expected = starlark::syntax::AstModule::parse(
                "bad.ubpkg.sky",
                "def (:".to_string(),
                &starlark::syntax::Dialect::Extended,
            )
            .err()
            .unwrap()
            .to_string();
            assert!(!message.is_empty());
            assert_eq!(message, expected);
        }
        other => panic!("expected a parsing error, got {:?}", other.map(|_| ())),
    }
}
