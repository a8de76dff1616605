use vstd::prelude::*;

verus! {

/// Where one version stands relative to another in GNU version order.
#[derive(PartialEq, Eq, Structural, Clone, Copy, Debug)]
pub enum Precedence {
    Before,
    Same,
    After,
}

impl Precedence {
    /// The precedence seen from the other side.
    pub open spec fn flipped(self) -> Precedence {
        match self {
            Precedence::Before => Precedence::After,
            Precedence::Same => Precedence::Same,
            Precedence::After => Precedence::Before,
        }
    }
}

/// What `vsort::compare` answers for two strings, given by their characters.
pub uninterp spec fn version_order(a: Seq<char>, b: Seq<char>) -> Precedence;

/// `vsort::compare` (GNU version sort), with its `Ordering` told apart variant by variant.
///
/// The contract claims that the answer is `version_order` of the two strings, and three
/// facts that the crate's source shows: every branch of `compare` is symmetric, so
/// swapping the arguments flips the answer; its last step is the byte-wise comparison
/// of the (possibly dot-stripped) strings, so it answers `Equal` only for equal strings;
/// and it is a lexicographic combination of total preorders ending in that byte-wise
/// comparison, so "not after" is transitive.
#[verifier::external_body]
pub(crate) fn compare_versions(a: &str, b: &str) -> (r: Precedence)
    ensures
        r == version_order(a@, b@),
        version_order(b@, a@) == r.flipped(),
        (r == Precedence::Same) <==> (a@ == b@),
        forall|c: Seq<char>|
            #![trigger version_order(c, a@)]
            #![trigger version_order(c, b@)]
            r != Precedence::After && version_order(c, a@) != Precedence::After
                ==> version_order(c, b@) != Precedence::After,
{
    match vsort::compare(a, b) {
        std::cmp::Ordering::Less => Precedence::Before,
        std::cmp::Ordering::Equal => Precedence::Same,
        std::cmp::Ordering::Greater => Precedence::After,
    }
}

} // verus!
