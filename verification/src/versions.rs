use vstd::prelude::*;
use crate::version_order::{compare_versions, version_order, Precedence};

verus! {

broadcast use vstd::seq_lib::group_to_multiset_ensures;

/// The character sequences of a sequence of strings.
pub open spec fn views(v: Seq<String>) -> Seq<Seq<char>> {
    v.map_values(|s: String| s@)
}

/// Every version comes no later, in GNU version order, than every version after it.
pub open spec fn in_version_order(s: Seq<Seq<char>>) -> bool {
    forall|i: int, j: int|
        0 <= i < j < s.len() ==> version_order(#[trigger] s[i], #[trigger] s[j])
            != Precedence::After
}

/// `v` is the greatest of `s` in GNU version order: it is one of them and none comes after it.
pub open spec fn is_latest(v: Seq<char>, s: Seq<Seq<char>>) -> bool {
    &&& s.contains(v)
    &&& forall|i: int|
        0 <= i < s.len() ==> #[trigger] s[i] == v || version_order(s[i], v) != Precedence::After
}

/// Where `x` goes among the versions `s`: after the last one that does not come after it
/// (at the start where all of them come after it), so that equal versions keep their order.
pub open spec fn insertion_point(s: Seq<Seq<char>>, x: Seq<char>) -> int
    decreases s.len(),
{
    if s.len() == 0 {
        0
    } else if version_order(s.last(), x) == Precedence::After {
        insertion_point(s.drop_last(), x)
    } else {
        s.len() as int
    }
}

/// The versions `s` sorted in GNU version order, keeping versions that compare the same in
/// the order in which they came, as a stable sort by `vsort::compare` does.
pub open spec fn sorted_versions(s: Seq<Seq<char>>) -> Seq<Seq<char>>
    decreases s.len(),
{
    if s.len() == 0 {
        Seq::empty()
    } else {
        let sorted = sorted_versions(s.drop_last());
        sorted.insert(insertion_point(sorted, s.last()), s.last())
    }
}

/// The latest of the versions `s`: the last of them once sorted.
pub open spec fn latest_version(s: Seq<Seq<char>>) -> Seq<char> {
    sorted_versions(s).last()
}

/// The last of versions in GNU version order is the latest of them.
pub proof fn lemma_last_is_latest(s: Seq<Seq<char>>)
    requires
        in_version_order(s),
        s.len() > 0,
    ensures
        is_latest(s.last(), s),
{
    assert(s.contains(s.last())) by {
        assert(s[s.len() - 1] == s.last());
    }
    assert forall|i: int| 0 <= i < s.len() implies #[trigger] s[i] == s.last() || version_order(
        s[i],
        s.last(),
    ) != Precedence::After by {
        if i < s.len() - 1 {
            assert(version_order(s[i], s[s.len() - 1]) != Precedence::After);
        }
    }
}

proof fn lemma_insert_to_multiset<A>(s: Seq<A>, j: int, a: A)
    requires
        0 <= j <= s.len(),
    ensures
        s.insert(j, a).to_multiset() =~= s.to_multiset().insert(a),
{
    broadcast use vstd::multiset::group_multiset_axioms;

    let t = s.insert(j, a);
    assert(t.remove(j) =~= s);
    assert(t[j] == a);
    assert(t.to_multiset().remove(a) == s.to_multiset());
    assert(t.contains(a));
}

/// Sorts versions in GNU version order, as `sort_by` with `vsort::compare` does.
///
/// The result holds the same versions, each as often, in an order where none comes
/// after one that follows it.
pub fn sort_versions(versions: &Vec<String>) -> (r: Vec<String>)
    ensures
        views(r@) == sorted_versions(views(versions@)),
        views(r@).to_multiset() == views(versions@).to_multiset(),
        in_version_order(views(r@)),
{
    let mut sorted: Vec<String> = Vec::new();
    let mut i: usize = 0;
    while i < versions.len()
        invariant
            i <= versions.len(),
            in_version_order(views(sorted@)),
            views(sorted@).to_multiset() == views(versions@.take(i as int)).to_multiset(),
            views(sorted@) == sorted_versions(views(versions@.take(i as int))),
        decreases versions.len() - i,
    {
        let x = versions[i].clone();
        let mut j: usize = sorted.len();
        assert(views(sorted@).take(j as int) =~= views(sorted@));
        loop
            invariant
                j <= sorted.len(),
                insertion_point(views(sorted@), x@) == insertion_point(views(sorted@).take(j as int), x@),
                forall|k: int|
                    j <= k < sorted.len() ==> version_order(x@, #[trigger] sorted@[k]@)
                        == Precedence::Before,
            ensures
                j <= sorted.len(),
                insertion_point(views(sorted@), x@) == j,
                forall|k: int|
                    j <= k < sorted.len() ==> version_order(x@, #[trigger] sorted@[k]@)
                        == Precedence::Before,
                j > 0 ==> version_order(sorted@[j - 1]@, x@) != Precedence::After,
                j > 0 ==> forall|c: Seq<char>|
                    version_order(c, sorted@[j - 1]@) != Precedence::After ==> #[trigger] version_order(
                        c,
                        x@,
                    ) != Precedence::After,
            decreases j,
        {
            let ghost t = views(sorted@).take(j as int);
            if j == 0 {
                break;
            }
            let p = compare_versions(sorted[j - 1].as_str(), x.as_str());
            assert(t.last() == sorted@[j - 1]@);
            if p != Precedence::After {
                break;
            }
            assert(t.drop_last() =~= views(sorted@).take(j - 1));
            j = j - 1;
        }
        let ghost old_sorted = sorted@;
        sorted.insert(j, x);
        proof {
            let ov = views(old_sorted);
            let nv = views(sorted@);
            assert(nv =~= ov.insert(j as int, x@));
            lemma_insert_to_multiset(ov, j as int, x@);
            assert(views(versions@.take(i + 1)) =~= views(versions@.take(i as int)).push(
                versions@[i as int]@,
            ));
            assert(views(versions@.take(i + 1)).drop_last() =~= views(versions@.take(i as int)));
            assert forall|a: int, b: int| 0 <= a < b < nv.len() implies version_order(
                #[trigger] nv[a],
                #[trigger] nv[b],
            ) != Precedence::After by {
                if b < j {
                    assert(nv[a] == ov[a] && nv[b] == ov[b]);
                } else if a > j {
                    assert(nv[a] == ov[a - 1] && nv[b] == ov[b - 1]);
                } else if a == j {
                    assert(nv[b] == ov[b - 1]);
                    assert(nv[b] == old_sorted[b - 1]@);
                } else if b == j {
                    assert(nv[a] == ov[a]);
                    if a < j - 1 {
                        assert(version_order(ov[a], ov[j - 1]) != Precedence::After);
                    }
                } else {
                    assert(nv[a] == ov[a] && nv[b] == ov[b - 1]);
                }
            }
        }
        i = i + 1;
    }
    assert(versions@.take(versions.len() as int) =~= versions@);
    sorted
}

} // verus!
