use vstd::prelude::*;
use vstd::utf8::{decode_utf8, valid_utf8};
use crate::text::{chars_of, lemma_split_on_nonempty, split_on, str_from_utf8, string_from_chars};
use crate::version_order::{version_order, Precedence};
use crate::versions::{
    in_version_order, is_latest, latest_version, lemma_last_is_latest, sort_versions, sorted_versions,
    views,
};

verus! {

broadcast use {vstd::string::group_string_axioms, vstd::seq_lib::group_to_multiset_ensures};

/// What can go wrong when asking git for the tags of a repository.
#[derive(PartialEq, Eq, Debug)]
pub enum Error {
    /// git could not be run at all; the message says why.
    GitExecution(String),
    /// git ran and failed: its exit status and the command that was run.
    GitUnsuccessful(String, String),
}

/// What came of running `git ls-remote` on a repository.
pub enum GitOutcome {
    /// git could not be started; the message says why.
    NotRun(String),
    /// git ran to its end.
    Finished { success: bool, status: String, command: String, stdout: Vec<u8> },
}

/// The lines of `s`, split at each `'\n'`, as `str::split('\n')` gives them: a text that
/// ends in a newline ends in an empty line.
pub open spec fn split_lines(s: Seq<char>) -> Seq<Seq<char>> {
    split_on(s, '\n')
}

/// What follows the first tab of `line`, or `None` where it holds no tab
/// (the second half of `str::split_once('\t')`).
pub open spec fn after_tab(line: Seq<char>) -> Option<Seq<char>>
    decreases line.len(),
{
    if line.len() == 0 {
        None
    } else {
        match after_tab(line.drop_last()) {
            Some(rest) => Some(rest.push(line.last())),
            None => if line.last() == '\t' {
                Some(Seq::empty())
            } else {
                None
            },
        }
    }
}

/// For each line that holds a tab, in order, what follows its first tab.
pub open spec fn tab_fields(lines: Seq<Seq<char>>) -> Seq<Seq<char>>
    decreases lines.len(),
{
    if lines.len() == 0 {
        Seq::empty()
    } else {
        let rest = tab_fields(lines.drop_last());
        match after_tab(lines.last()) {
            Some(field) => rest.push(field),
            None => rest,
        }
    }
}

/// The reference names listed in the output of `git ls-remote`, one per line after a tab.
pub open spec fn listed_refs(output: Seq<char>) -> Seq<Seq<char>> {
    tab_fields(split_lines(output))
}

/// The prefix `refs/tags/` of a tag's reference name.
pub open spec fn tag_prefix() -> Seq<char> {
    seq!['r', 'e', 'f', 's', '/', 't', 'a', 'g', 's', '/']
}

/// Every reference listed in `output` is a tag.
pub open spec fn is_tag_listing(output: Seq<char>) -> bool {
    forall|i: int|
        0 <= i < listed_refs(output).len() ==> tag_prefix().is_prefix_of(
            #[trigger] listed_refs(output)[i],
        )
}

/// The tag names listed in `output`, in the order of their lines.
pub open spec fn listed_tags(output: Seq<char>) -> Seq<Seq<char>> {
    without_tag_prefixes(listed_refs(output))
}

/// Each reference name with its first ten characters, the length of `refs/tags/`, taken off.
pub open spec fn without_tag_prefixes(refs: Seq<Seq<char>>) -> Seq<Seq<char>> {
    refs.map_values(|r: Seq<char>| r.skip(10))
}

/// The character sequences of a sequence of character vectors.
pub open spec fn char_views(v: Seq<Vec<char>>) -> Seq<Seq<char>> {
    v.map_values(|c: Vec<char>| c@)
}

/// The arguments given to git to list a repository's tags.
pub fn ls_remote_args(url: String) -> (r: Vec<String>)
    ensures
        views(r@) == seq!["ls-remote"@, "--tags"@, "--refs"@, url@],
{
    let mut r: Vec<String> = Vec::new();
    r.push("ls-remote".to_string());
    r.push("--tags".to_string());
    r.push("--refs".to_string());
    r.push(url);
    assert(views(r@) =~= seq!["ls-remote"@, "--tags"@, "--refs"@, url@]);
    r
}

/// The reference names that the output of `git ls-remote` lists, in order.
pub fn parse_listed_refs(output: &Vec<char>) -> (r: Vec<Vec<char>>)
    ensures
        char_views(r@) == listed_refs(output@),
{
    let mut done: Vec<Vec<char>> = Vec::new();
    let mut cur: Vec<char> = Vec::new();
    let mut saw_tab = false;
    let mut i: usize = 0;
    proof {
        assert(output@.take(0) =~= Seq::<char>::empty());
    }
    while i < output.len()
        invariant
            i <= output.len(),
            split_lines(output@.take(i as int)).len() >= 1,
            char_views(done@) == tab_fields(split_lines(output@.take(i as int)).drop_last()),
            saw_tab == after_tab(split_lines(output@.take(i as int)).last()) is Some,
            saw_tab ==> cur@ == after_tab(split_lines(output@.take(i as int)).last())->0,
        decreases output.len() - i,
    {
        let ghost p = output@.take(i as int);
        let ghost lines = split_lines(p);
        let c = output[i];
        let ghost q = output@.take(i + 1);
        assert(q.drop_last() =~= p);
        assert(q.last() == c);
        proof {
            lemma_split_on_nonempty(q, '\n');
        }
        if c == '\n' {
            let ghost old_done = char_views(done@);
            if saw_tab {
                let field = cur;
                cur = Vec::new();
                done.push(field);
            }
            saw_tab = false;
            proof {
                let nl = split_lines(q);
                assert(nl == lines.push(Seq::empty()));
                assert(nl.drop_last() =~= lines);
                assert(lines =~= lines.drop_last().push(lines.last()));
                assert(char_views(done@) =~= tab_fields(lines));
                assert(nl.last() =~= Seq::<char>::empty());
            }
        } else {
            proof {
                let nl = split_lines(q);
                assert(nl == lines.update(lines.len() - 1, lines.last().push(c)));
                assert(nl.drop_last() =~= lines.drop_last());
                assert(nl.last() =~= lines.last().push(c));
                assert(lines.last().push(c).drop_last() =~= lines.last());
            }
            if saw_tab {
                cur.push(c);
            } else if c == '\t' {
                saw_tab = true;
                cur = Vec::new();
            }
        }
        i = i + 1;
    }
    assert(output@.take(output.len() as int) =~= output@);
    let ghost lines = split_lines(output@);
    assert(lines =~= lines.drop_last().push(lines.last()));
    if saw_tab {
        done.push(cur);
    }
    assert(char_views(done@) =~= tab_fields(lines));
    done
}


/// The tag names of listed tag references: each with its `refs/tags/` prefix taken off.
pub fn strip_tag_prefixes(refs: &Vec<Vec<char>>) -> (r: Vec<String>)
    requires
        forall|i: int| 0 <= i < refs.len() ==> tag_prefix().is_prefix_of(#[trigger] refs@[i]@),
    ensures
        views(r@) == without_tag_prefixes(char_views(refs@)),
{
    let mut r: Vec<String> = Vec::new();
    let mut i: usize = 0;
    while i < refs.len()
        invariant
            i <= refs.len(),
            forall|k: int| 0 <= k < refs.len() ==> tag_prefix().is_prefix_of(#[trigger] refs@[k]@),
            views(r@) == without_tag_prefixes(char_views(refs@.take(i as int))),
        decreases refs.len() - i,
    {
        assert(tag_prefix().is_prefix_of(refs@[i as int]@));
        let tag = string_from_chars(&refs[i], 10);
        let ghost old_r = r@;
        r.push(tag);
        assert(views(r@) =~= views(old_r).push(tag@));
        assert(char_views(refs@.take(i + 1)) =~= char_views(refs@.take(i as int)).push(refs@[i as int]@));
        i = i + 1;
        assert(views(r@) =~= without_tag_prefixes(char_views(refs@.take(i as int))));
    }
    assert(refs@.take(refs.len() as int) =~= refs@);
    r
}

/// The output that git gave when it succeeded, if it did.
pub open spec fn successful_output(outcome: GitOutcome) -> Option<Seq<u8>> {
    match outcome {
        GitOutcome::Finished { success: true, stdout, .. } => Some(stdout@),
        _ => None,
    }
}

/// What git answered is a well-formed listing of tags, where it succeeded.
pub open spec fn well_formed_outcome(outcome: GitOutcome) -> bool {
    successful_output(outcome) matches Some(out) ==> valid_utf8(out) && is_tag_listing(
        decode_utf8(out),
    )
}

/// The error reported for an outcome in which git did not succeed.
pub open spec fn outcome_error(outcome: GitOutcome) -> Option<Error> {
    match outcome {
        GitOutcome::NotRun(message) => Some(Error::GitExecution(message)),
        GitOutcome::Finished { success, status, command, .. } => if success {
            None
        } else {
            Some(Error::GitUnsuccessful(status, command))
        },
    }
}

/// The tags of a repository, in GNU version order, from what `git ls-remote --tags --refs`
/// answered.
///
/// Where git could not run or failed, the matching error; else the listed tags, each as
/// often as listed, sorted so that none comes after one that follows it.
pub fn get_repo_sorted_versions(outcome: GitOutcome) -> (r: Result<Vec<String>, Error>)
    requires
        well_formed_outcome(outcome),
    ensures
        outcome_error(outcome) matches Some(e) ==> r == Err::<Vec<String>, Error>(e),
        successful_output(outcome) matches Some(out) ==> {
            &&& r is Ok
            &&& views(r->Ok_0@) == sorted_versions(listed_tags(decode_utf8(out)))
            &&& views(r->Ok_0@).to_multiset() == listed_tags(decode_utf8(out)).to_multiset()
            &&& in_version_order(views(r->Ok_0@))
        },
{
    match outcome {
        GitOutcome::NotRun(message) => Err(Error::GitExecution(message)),
        GitOutcome::Finished { success, status, command, stdout } => {
            if !success {
                return Err(Error::GitUnsuccessful(status, command));
            }
            let text = str_from_utf8(stdout.as_slice()).unwrap();
            let chars = chars_of(text.as_str());
            let refs = parse_listed_refs(&chars);
            proof {
                assert forall|i: int| 0 <= i < refs.len() implies tag_prefix().is_prefix_of(
                    #[trigger] refs@[i]@,
                ) by {
                    assert(char_views(refs@)[i] == refs@[i]@);
                }
            }
            let tags = strip_tag_prefixes(&refs);
            let sorted = sort_versions(&tags);
            Ok(sorted)
        },
    }
}

/// The latest tag of a repository in GNU version order, from what
/// `git ls-remote --tags --refs` answered.
///
/// Where git could not run or failed, the matching error; else the tag that comes
/// after every other listed tag.
pub fn get_repo_latest_version(outcome: GitOutcome) -> (r: Result<String, Error>)
    requires
        well_formed_outcome(outcome),
        successful_output(outcome) matches Some(out) ==> listed_refs(decode_utf8(out)).len() > 0,
    ensures
        outcome_error(outcome) matches Some(e) ==> r == Err::<String, Error>(e),
        successful_output(outcome) matches Some(out) ==> {
            &&& r is Ok
            &&& r->Ok_0@ == latest_version(listed_tags(decode_utf8(out)))
            &&& is_latest(r->Ok_0@, listed_tags(decode_utf8(out)))
        },
{
    let ghost out = successful_output(outcome);
    let sorted = get_repo_sorted_versions(outcome)?;
    proof {
        let tags = listed_tags(decode_utf8(out->0));
        let sv = views(sorted@);
        assert(sv.len() == sv.to_multiset().len());
        assert(tags.len() == tags.to_multiset().len());
        lemma_last_is_latest(sv);
        assert(sv.last() == sorted@[sorted.len() - 1]@);
        assert forall|v: Seq<char>| sv.contains(v) <==> tags.contains(v) by {
            assert(sv.contains(v) <==> sv.to_multiset().count(v) > 0);
            assert(tags.contains(v) <==> tags.to_multiset().count(v) > 0);
        }
        assert forall|i: int| 0 <= i < tags.len() implies #[trigger] tags[i] == sv.last()
            || version_order(tags[i], sv.last())
            != Precedence::After by {
            assert(tags.contains(tags[i]));
            let k = choose|k: int| 0 <= k < sv.len() && sv[k] == tags[i];
            assert(sv[k] == sv.last() || version_order(sv[k], sv.last())
                != Precedence::After);
        }
    }
    let last = sorted[sorted.len() - 1].clone();
    Ok(last)
}


/// The lines joined back together with a `'\n'` between each two.
pub open spec fn join_lines(lines: Seq<Seq<char>>) -> Seq<char>
    decreases lines.len(),
{
    if lines.len() <= 1 {
        if lines.len() == 1 {
            lines[0]
        } else {
            Seq::empty()
        }
    } else {
        join_lines(lines.drop_last()) + seq!['\n'] + lines.last()
    }
}

/// Splitting a text into lines loses nothing: no line holds a newline, and joining the
/// lines with newlines gives the text back.
pub proof fn lemma_split_lines_rejoin(s: Seq<char>)
    ensures
        join_lines(split_lines(s)) == s,
        forall|i: int|
            0 <= i < split_lines(s).len() ==> !(#[trigger] split_lines(s)[i]).contains('\n'),
    decreases s.len(),
{
    lemma_split_on_nonempty(s, '\n');
    if s.len() > 0 {
        let p = s.drop_last();
        let prev = split_lines(p);
        lemma_split_lines_rejoin(p);
        lemma_split_on_nonempty(p, '\n');
        let lines = split_lines(s);
        if s.last() == '\n' {
            assert(lines.drop_last() =~= prev);
            assert(lines.last() =~= Seq::<char>::empty());
            assert(s =~= p + seq!['\n']);
            assert forall|i: int| 0 <= i < lines.len() implies !(
            #[trigger] lines[i]).contains('\n') by {
                if i < prev.len() {
                    assert(lines[i] == prev[i]);
                }
            }
        } else {
            let n = prev.len() - 1;
            assert(lines.last() == prev.last().push(s.last()));
            assert forall|i: int| 0 <= i < lines.len() implies !(
            #[trigger] lines[i]).contains('\n') by {
                if i < n {
                    assert(lines[i] == prev[i]);
                } else {
                    let l = prev.last().push(s.last());
                    if l.contains('\n') {
                        let k = choose|k: int| 0 <= k < l.len() && l[k] == '\n';
                        assert(prev[n].contains('\n')) by {
                            assert(prev[n][k] == '\n');
                        }
                    }
                }
            }
            if prev.len() == 1 {
                assert(s =~= prev[0].push(s.last()));
            } else {
                assert(lines.drop_last() =~= prev.drop_last());
                assert(join_lines(prev) == join_lines(prev.drop_last()) + seq!['\n'] + prev.last());
                assert(s =~= p.push(s.last()));
                assert(s =~= join_lines(prev.drop_last()) + seq!['\n'] + prev.last().push(s.last()));
                assert(join_lines(lines) == join_lines(lines.drop_last()) + seq!['\n'] + lines.last());
            }
        }
    }
}

/// What follows the first tab of a line is exactly what `split_once('\t')` gives: there is
/// a field exactly where the line holds a tab, and then it is all after the first tab.
pub proof fn lemma_after_tab_is_split_once(line: Seq<char>)
    ensures
        after_tab(line) is Some <==> line.contains('\t'),
        after_tab(line) matches Some(field) ==> exists|k: int|
            0 <= k < line.len() && #[trigger] line[k] == '\t' && !line.take(k).contains('\t')
                && field == line.skip(k + 1),
    decreases line.len(),
{
    if line.len() > 0 {
        let p = line.drop_last();
        lemma_after_tab_is_split_once(p);
        let c = line.last();
        assert(line.contains('\t') <==> p.contains('\t') || c == '\t') by {
            if line.contains('\t') {
                let k = choose|k: int| 0 <= k < line.len() && line[k] == '\t';
                if k < p.len() {
                    assert(p[k] == '\t');
                }
            }
            if p.contains('\t') {
                let k = choose|k: int| 0 <= k < p.len() && p[k] == '\t';
                assert(line[k] == '\t');
            }
            if c == '\t' {
                assert(line[line.len() - 1] == '\t');
            }
        }
        match after_tab(p) {
            Some(rest) => {
                let k = choose|k: int|
                    0 <= k < p.len() && #[trigger] p[k] == '\t' && !p.take(k).contains('\t') && rest
                        == p.skip(k + 1);
                assert(line[k] == '\t');
                assert(line.take(k) =~= p.take(k));
                assert(rest.push(c) =~= line.skip(k + 1));
            },
            None => {
                if c == '\t' {
                    let k = line.len() - 1;
                    assert(line[k] == '\t');
                    assert(line.take(k) =~= p);
                    assert(line.skip(k + 1) =~= Seq::<char>::empty());
                }
            },
        }
    }
}


proof fn lemma_split_lines_append_line(s: Seq<char>, u: Seq<char>)
    requires
        s.len() == 0 || s.last() == '\n',
        !u.contains('\n'),
    ensures
        split_lines(s).len() >= 1,
        split_lines(s).last() == Seq::<char>::empty(),
        split_lines(s + u) == split_lines(s).update(split_lines(s).len() - 1, u),
    decreases u.len(),
{
    lemma_split_on_nonempty(s, '\n');
    if s.len() > 0 {
        lemma_split_on_nonempty(s.drop_last(), '\n');
        assert(split_lines(s) == split_on(s.drop_last(), '\n').push(Seq::empty()));
    } else {
        assert(split_lines(s) == seq![Seq::<char>::empty()]);
    }
    assert(split_lines(s).last() =~= Seq::<char>::empty());
    if u.len() == 0 {
        assert(u =~= Seq::<char>::empty());
        assert(s + u =~= s);
        assert(split_lines(s).update(split_lines(s).len() - 1, u) =~= split_lines(s));
    } else {
        let u0 = u.drop_last();
        assert(!u0.contains('\n')) by {
            if u0.contains('\n') {
                let k = choose|k: int| 0 <= k < u0.len() && u0[k] == '\n';
                assert(u[k] == '\n');
            }
        }
        lemma_split_lines_append_line(s, u0);
        assert((s + u).drop_last() =~= s + u0);
        assert((s + u).last() == u.last());
        assert(u.last() != '\n') by {
            assert(u[u.len() - 1] == u.last());
        }
        lemma_split_on_nonempty(s + u0, '\n');
        let prev = split_lines(s + u0);
        assert(prev.last() == u0);
        assert(u0.push(u.last()) =~= u);
        assert(split_lines(s + u) =~= prev.update(prev.len() - 1, u));
    }
}

proof fn lemma_listed_refs_append_line(s: Seq<char>, u: Seq<char>)
    requires
        s.len() == 0 || s.last() == '\n',
        !u.contains('\n'),
    ensures
        listed_refs(s + u) == match after_tab(u) {
            Some(field) => listed_refs(s).push(field),
            None => listed_refs(s),
        },
{
    lemma_split_lines_append_line(s, u);
    let lines = split_lines(s);
    let new_lines = split_lines(s + u);
    assert(new_lines.drop_last() =~= lines.drop_last());
    assert(new_lines.last() == u);
    assert(after_tab(Seq::<char>::empty()) is None);
    assert(tab_fields(lines) == tab_fields(lines.drop_last()));
}

/// A text without lines lists no reference.
pub proof fn lemma_listed_refs_empty()
    ensures
        listed_refs(Seq::empty()) == Seq::<Seq<char>>::empty(),
{
    let lines = split_lines(Seq::empty());
    assert(lines =~= seq![Seq::<char>::empty()]);
    assert(lines.drop_last() =~= Seq::<Seq<char>>::empty());
    assert(lines.last() =~= Seq::<char>::empty());
    assert(after_tab(Seq::<char>::empty()) is None);
    assert(tab_fields(Seq::<Seq<char>>::empty()) =~= Seq::<Seq<char>>::empty());
    assert(tab_fields(lines) == tab_fields(lines.drop_last()));
}

/// Ending the last line changes nothing of what is listed.
pub proof fn lemma_listed_refs_newline(s: Seq<char>)
    ensures
        listed_refs(s.push('\n')) == listed_refs(s),
{
    lemma_split_on_nonempty(s, '\n');
    let lines = split_lines(s);
    assert(s.push('\n').drop_last() =~= s);
    assert(split_lines(s.push('\n')) == lines.push(Seq::empty()));
    assert(lines.push(Seq::<char>::empty()).drop_last() =~= lines);
    assert(after_tab(Seq::<char>::empty()) is None);
}

/// A line `hash<TAB>ref` after whole lines lists `ref` after what they list: every line
/// that holds a tab gives one reference, in order, whatever the number of lines.
pub proof fn lemma_listed_refs_tab_line(s: Seq<char>, h: Seq<char>, r: Seq<char>)
    requires
        s.len() == 0 || s.last() == '\n',
        !h.contains('\t'),
        !h.contains('\n'),
        !r.contains('\n'),
    ensures
        listed_refs(s + h + seq!['\t'] + r) == listed_refs(s).push(r),
{
    let u = h + seq!['\t'] + r;
    assert(s + h + seq!['\t'] + r =~= s + u);
    assert(!u.contains('\n')) by {
        if u.contains('\n') {
            let k = choose|k: int| 0 <= k < u.len() && u[k] == '\n';
            if k < h.len() {
                assert(h[k] == '\n');
            } else if k > h.len() {
                assert(r[k - h.len() - 1] == '\n');
            }
        }
    }
    lemma_listed_refs_append_line(s, u);
    lemma_after_tab_is_split_once(u);
    assert(u[h.len() as int] == '\t');
    assert(u.contains('\t'));
    let field = after_tab(u)->0;
    let k = choose|k: int|
        0 <= k < u.len() && #[trigger] u[k] == '\t' && !u.take(k).contains('\t') && field == u.skip(
            k + 1,
        );
    if k < h.len() {
        assert(h[k] == '\t');
    } else if k > h.len() {
        assert(u.take(k)[h.len() as int] == '\t');
    }
    assert(u.skip(h.len() as int + 1) =~= r);
}

/// A line without a tab, after whole lines, lists nothing more.
pub proof fn lemma_listed_refs_plain_line(s: Seq<char>, l: Seq<char>)
    requires
        s.len() == 0 || s.last() == '\n',
        !l.contains('\t'),
        !l.contains('\n'),
    ensures
        listed_refs(s + l) == listed_refs(s),
{
    lemma_listed_refs_append_line(s, l);
    lemma_after_tab_is_split_once(l);
}

} // verus!
