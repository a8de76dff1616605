use vstd::prelude::*;
use vstd::string::StringExecFns;
use crate::git::{self, GitOutcome};

verus! {

broadcast use vstd::string::group_string_axioms;

/// A repository on GitHub, named by its `owner/name` id.
#[derive(Debug)]
pub struct GitHubRepo {
    pub id: String,
}

/// A release of a GitHub repository: the repository and the release's tag.
#[derive(Debug)]
pub struct GitHubRelease {
    pub github_repo: GitHubRepo,
    pub tag: String,
}

/// A named asset of a GitHub release.
#[derive(Debug)]
pub struct GitHubAsset {
    pub github_release: GitHubRelease,
    pub name: String,
}

impl GitHubRepo {
    /// How the repository is shown: `gh:` and its id.
    pub open spec fn shown(self) -> Seq<char> {
        "gh:"@ + self.id@
    }

    /// The URL of the repository's git remote.
    pub open spec fn remote_url(self) -> Seq<char> {
        "https://github.com/"@ + self.id@ + ".git"@
    }

    /// The repository with id `repo` (`owner/name`).
    pub fn new(repo: &str) -> (r: GitHubRepo)
        ensures
            r.id@ == repo@,
    {
        GitHubRepo { id: repo.to_string() }
    }

    /// The repository as shown to users, `gh:owner/name`.
    pub fn to_string(&self) -> (r: String)
        ensures
            r@ == self.shown(),
    {
        let mut r = "gh:".to_string();
        r.append(self.id.as_str());
        r
    }

    /// The URL of the repository's git remote, `https://github.com/owner/name.git`.
    pub fn git_url(&self) -> (r: String)
        ensures
            r@ == self.remote_url(),
            r@ == "https://github.com/"@ + self.id@ + ".git"@,
            r@.skip("https://github.com/"@.len() as int).take(self.id@.len() as int) == self.id@,
    {
        let mut r = "https://github.com/".to_string();
        r.append(self.id.as_str());
        r.append(".git");
        r
    }

    /// The latest release of the repository: its latest tag in GNU version order, from
    /// what `git ls-remote --tags --refs` answered for the remote at `git_url`.
    ///
    /// Where git could not run or failed, the matching error.
    pub fn latest_release(&self, outcome: GitOutcome) -> (r: Result<GitHubRelease, git::Error>)
        requires
            git::well_formed_outcome(outcome),
            git::successful_output(outcome) matches Some(out) ==> git::listed_refs(
                vstd::utf8::decode_utf8(out),
            ).len() > 0,
        ensures
            git::outcome_error(outcome) matches Some(e) ==> r == Err::<GitHubRelease, git::Error>(e),
            git::successful_output(outcome) matches Some(out) ==> {
                &&& r is Ok
                &&& r->Ok_0.github_repo.id@ == self.id@
                &&& r->Ok_0.tag@ == crate::versions::latest_version(
                    git::listed_tags(vstd::utf8::decode_utf8(out)),
                )
                &&& crate::versions::is_latest(
                    r->Ok_0.tag@,
                    git::listed_tags(vstd::utf8::decode_utf8(out)),
                )
            },
    {
        let tag = git::get_repo_latest_version(outcome)?;
        Ok(GitHubRelease { github_repo: GitHubRepo { id: self.id.clone() }, tag })
    }
}

impl GitHubRelease {
    /// How the release is shown: `gh:` and how its repository is shown.
    pub open spec fn shown(self) -> Seq<char> {
        "gh:"@ + self.github_repo.shown()
    }

    /// The URL from which the release's asset `name` is downloaded.
    pub open spec fn asset_url(self, name: Seq<char>) -> Seq<char> {
        "https://github.com/"@ + self.github_repo.id@ + "/releases/download/"@ + self.tag@ + "/"@
            + name
    }

    /// The release's name: its tag.
    pub fn name(&self) -> (r: String)
        ensures
            r@ == self.tag@,
    {
        self.tag.clone()
    }

    /// The URL of the release's asset `name`,
    /// `https://github.com/owner/name/releases/download/tag/name`.
    pub fn get_asset_url(&self, name: &str) -> (r: String)
        ensures
            r@ == self.asset_url(name@),
            r@.take("https://github.com/"@.len() + self.github_repo.id@.len() as int)
                == "https://github.com/"@ + self.github_repo.id@,
            r@.skip("https://github.com/"@.len() + self.github_repo.id@.len() as int) == "/releases/download/"@
                + self.tag@ + "/"@ + name@,
    {
        let mut r = "https://github.com/".to_string();
        r.append(self.github_repo.id.as_str());
        r.append("/releases/download/");
        r.append(self.tag.as_str());
        r.append("/");
        r.append(name);
        r
    }

    /// The release as shown to users.
    pub fn to_string(&self) -> (r: String)
        ensures
            r@ == self.shown(),
    {
        let mut r = "gh:".to_string();
        let repo = self.github_repo.to_string();
        r.append(repo.as_str());
        r
    }
}

impl GitHubAsset {
    /// How the asset is shown: its release, then its name.
    pub open spec fn shown(self) -> Seq<char> {
        "release:"@ + self.github_release.shown() + " name:"@ + self.name@
    }

    /// The asset as shown to users, `release:<release> name:<name>`.
    pub fn to_string(&self) -> (r: String)
        ensures
            r@ == self.shown(),
    {
        let mut r = "release:".to_string();
        let release = self.github_release.to_string();
        r.append(release.as_str());
        r.append(" name:");
        r.append(self.name.as_str());
        r
    }
}


/// The remote of a repository is `https://github.com/`, its id exactly as given, and
/// `.git`; so two repositories share a remote only when their ids are the same.
pub proof fn lemma_remote_url(a: GitHubRepo, b: GitHubRepo)
    ensures
        a.remote_url() == "https://github.com/"@ + a.id@ + ".git"@,
        a.remote_url().len() == "https://github.com/"@.len() + a.id@.len() + ".git"@.len(),
        a.remote_url().skip("https://github.com/"@.len() as int).take(a.id@.len() as int) == a.id@,
        a.remote_url() == b.remote_url() ==> a.id@ == b.id@,
{
    let p = "https://github.com/"@;
    assert((p + a.id@ + ".git"@).skip(p.len() as int).take(a.id@.len() as int) =~= a.id@);
    assert((p + b.id@ + ".git"@).skip(p.len() as int).take(b.id@.len() as int) =~= b.id@);
}

/// The URL of a release's asset is `https://github.com/`, the repository's id exactly as
/// given, `/releases/download/`, the tag, `/` and the asset's name; so assets of releases
/// of different repositories, or with different tags or names, never share a URL.
pub proof fn lemma_asset_url(a: GitHubRelease, b: GitHubRelease, name: Seq<char>, other: Seq<char>)
    ensures
        a.asset_url(name) == "https://github.com/"@ + a.github_repo.id@ + "/releases/download/"@
            + a.tag@ + "/"@ + name,
        a.asset_url(name).take("https://github.com/"@.len() + a.github_repo.id@.len() as int)
            == "https://github.com/"@ + a.github_repo.id@,
        a.asset_url(name).skip("https://github.com/"@.len() + a.github_repo.id@.len() as int)
            == "/releases/download/"@ + a.tag@ + "/"@ + name,
        a.github_repo.id@.len() == b.github_repo.id@.len() && a.tag@.len() == b.tag@.len()
            && a.asset_url(name) == b.asset_url(other) ==> a.github_repo.id@ == b.github_repo.id@
            && a.tag@ == b.tag@ && name == other,
{
    let p = "https://github.com/"@;
    let d = "/releases/download/"@;
    let s = "/"@;
    let ua = a.asset_url(name);
    let ub = b.asset_url(other);
    let ia = a.github_repo.id@;
    let ib = b.github_repo.id@;
    assert(ua =~= p + ia + (d + a.tag@ + s + name));
    assert(ub =~= p + ib + (d + b.tag@ + s + other));
    assert(ua.take(p.len() + ia.len() as int) =~= p + ia);
    assert(ua.skip(p.len() + ia.len() as int) =~= d + a.tag@ + s + name);
    if ia.len() == ib.len() && a.tag@.len() == b.tag@.len() && ua == ub {
        assert(ia =~= ua.subrange(p.len() as int, p.len() + ia.len() as int));
        assert(ib =~= ub.subrange(p.len() as int, p.len() + ib.len() as int));
        let t0: int = (p.len() + ia.len() + d.len()) as int;
        assert(a.tag@ =~= ua.subrange(t0, t0 + a.tag@.len()));
        assert(b.tag@ =~= ub.subrange(t0, t0 + b.tag@.len()));
        let n0: int = t0 + a.tag@.len() as int + s.len() as int;
        assert(name =~= ua.skip(n0));
        assert(other =~= ub.skip(n0));
    }
}

} // verus!
