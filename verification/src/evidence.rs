use crate::ascii::same_text;
use crate::watermark::{spec_profile_name, AlgorithmProfile};
use vstd::prelude::*;

verus! {

/// The profile that a stored name denotes: `strong` and `fidelity` exactly, anything
/// else the balanced profile.
pub open spec fn spec_parse_profile(name: Seq<char>) -> AlgorithmProfile {
    if name == spec_profile_name(AlgorithmProfile::Strong) {
        AlgorithmProfile::Strong
    } else if name == spec_profile_name(AlgorithmProfile::Fidelity) {
        AlgorithmProfile::Fidelity
    } else {
        AlgorithmProfile::Balanced
    }
}

/// Reads a profile name as the evidence store writes it; unknown names read as balanced.
pub fn parse_profile(profile: &str) -> (p: AlgorithmProfile)
    ensures
        p == spec_parse_profile(profile@),
{
    proof {
        reveal_strlit("strong");
        reveal_strlit("fidelity");
        assert("strong"@ =~= spec_profile_name(AlgorithmProfile::Strong));
        assert("fidelity"@ =~= spec_profile_name(AlgorithmProfile::Fidelity));
    }
    if same_text(profile, "strong") {
        AlgorithmProfile::Strong
    } else if same_text(profile, "fidelity") {
        AlgorithmProfile::Fidelity
    } else {
        AlgorithmProfile::Balanced
    }
}

/// Reading back the name that a profile is stored under gives the profile.
pub proof fn lemma_profile_name_round_trip(profile: AlgorithmProfile)
    ensures
        spec_parse_profile(spec_profile_name(profile)) == profile,
{
    let strong = spec_profile_name(AlgorithmProfile::Strong);
    let fidelity = spec_profile_name(AlgorithmProfile::Fidelity);
    let balanced = spec_profile_name(AlgorithmProfile::Balanced);
    assert(balanced != strong) by {
        assert(balanced.len() != strong.len());
    }
    assert(balanced != fidelity) by {
        assert(balanced[0] != fidelity[0]);
    }
    assert(fidelity != strong) by {
        assert(fidelity.len() != strong.len());
    }
}

} // verus!
