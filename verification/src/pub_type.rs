//! The three tiers of visibility that a declaration can have.

use vstd::prelude::*;
use crate::text::{chars_of, contains, contains_seq, occurs_at};

verus! {

/// How far a declaration is visible: everywhere, in the parent module, or
/// in the package.
#[derive(Clone, Copy, Debug, PartialEq, Eq, Structural)]
pub enum PubType {
    Pub,
    Super,
    Crate,
}

impl PubType {
    /// The tier that a visibility qualifier names: package-visible where it
    /// holds `crate`, else parent-visible where it holds `super`, else public.
    pub open spec fn of(contents: Seq<char>) -> PubType {
        if contains_seq(contents, "crate"@) {
            PubType::Crate
        } else if contains_seq(contents, "super"@) {
            PubType::Super
        } else {
            PubType::Pub
        }
    }

    /// The qualifier that stands for the tier in source text.
    pub open spec fn text(&self) -> Seq<char> {
        match self {
            PubType::Pub => "pub"@,
            PubType::Super => "pub(super)"@,
            PubType::Crate => "pub(crate)"@,
        }
    }

    /// The tier that the characters of a visibility qualifier name.
    pub fn from_chars(contents: &[char]) -> (r: PubType)
        ensures
            r == PubType::of(contents@),
    {
        let package = chars_of("crate");
        let parent = chars_of("super");
        if contains(contents, package.as_slice()) {
            PubType::Crate
        } else if contains(contents, parent.as_slice()) {
            PubType::Super
        } else {
            PubType::Pub
        }
    }

    /// The tier that a visibility qualifier names.
    pub fn from_str(contents: &str) -> (r: PubType)
        ensures
            r == PubType::of(contents@),
    {
        let chars = chars_of(contents);
        PubType::from_chars(chars.as_slice())
    }

    /// The qualifier that stands for the tier in source text.
    pub fn to_str(&self) -> (r: &'static str)
        ensures
            r@ == self.text(),
    {
        match self {
            PubType::Pub => "pub",
            PubType::Super => "pub(super)",
            PubType::Crate => "pub(crate)",
        }
    }
}

/// Writing a tier out and reading it back gives the same tier.
pub proof fn lemma_tier_round_trip(tier: PubType)
    ensures
        PubType::of(tier.text()) == tier,
{
    reveal_strlit("pub");
    reveal_strlit("pub(super)");
    reveal_strlit("pub(crate)");
    reveal_strlit("crate");
    reveal_strlit("super");
    let package = "crate"@;
    let parent = "super"@;
    match tier {
        PubType::Pub => {
            let t = "pub"@;
            assert forall|i: int| !occurs_at(t, i, package) by {}
            assert forall|i: int| !occurs_at(t, i, parent) by {}
        },
        PubType::Super => {
            let t = "pub(super)"@;
            assert forall|i: int| !occurs_at(t, i, package) by {
                if occurs_at(t, i, package) {
                    assert(t.subrange(i, i + 5)[0] == 'c');
                    assert(t.subrange(i, i + 5)[1] == 'r');
                }
            }
            assert(occurs_at(t, 4, parent));
        },
        PubType::Crate => {
            let t = "pub(crate)"@;
            assert(occurs_at(t, 4, package));
        },
    }
}

} // verus!
