//! Feature flags carried in the uberblock, and the compatibility check
//! made when a pool is opened.

use vstd::prelude::*;

verus! {

#[derive(Debug, Clone, Copy, PartialEq, Eq, Structural)]
pub enum RequiredLevel {
    Optional,
    RequiredForRead,
    RequiredForWrite,
}

/// A named on-disk feature and how strongly an agent must understand it.
#[derive(Debug, Clone)]
pub struct FeatureFlag {
    pub name: String,
    pub required: RequiredLevel,
}

/// The features of a pool that this agent does not support, and whether a
/// read-only open would still succeed.
#[derive(Debug)]
pub struct FeatureError {
    pub features: Vec<FeatureFlag>,
    pub readonly: bool,
}

/// This agent supports no optional features yet, so no name maps to a flag.
pub fn get_feature(_name: &str) -> (r: Option<FeatureFlag>)
    ensures
        r is None,
{
    None
}

/// A flag an agent without support for it cannot accept: one required for
/// read always, one required for write only on a writable open.
pub open spec fn spec_incompatible(f: FeatureFlag, readonly: bool) -> bool {
    f.required == RequiredLevel::RequiredForRead
        || (f.required == RequiredLevel::RequiredForWrite && !readonly)
}

/// The incompatible flags of a list, in order.
pub open spec fn spec_incompatible_of(s: Seq<FeatureFlag>, readonly: bool) -> Seq<FeatureFlag>
    decreases s.len(),
{
    if s.len() == 0 {
        Seq::empty()
    } else if spec_incompatible(s.last(), readonly) {
        spec_incompatible_of(s.drop_last(), readonly).push(s.last())
    } else {
        spec_incompatible_of(s.drop_last(), readonly)
    }
}

/// No flag of the list demands read support this agent lacks.
pub open spec fn spec_readonly_compatible(s: Seq<FeatureFlag>) -> bool {
    forall|i: int| 0 <= i < s.len()
        ==> (#[trigger] s[i]).required != RequiredLevel::RequiredForRead
}

/// Check a pool's feature list against what this agent supports (no
/// optional features yet). `Ok` exactly when every flag is compatible;
/// otherwise the error lists the incompatible flags in order and says
/// whether a read-only open would pass.
pub fn check_features(feature_list: Vec<FeatureFlag>, readonly: bool) -> (r: Result<
    (),
    FeatureError,
>)
    ensures
        match r {
            Ok(()) => spec_incompatible_of(feature_list@, readonly).len() == 0,
            Err(e) => {
                &&& spec_incompatible_of(feature_list@, readonly).len() > 0
                &&& e.features@ == spec_incompatible_of(feature_list@, readonly)
                &&& e.readonly == spec_readonly_compatible(feature_list@)
            },
        },
{
    let mut incompatible_features: Vec<FeatureFlag> = Vec::new();
    let mut readonly_pass = true;
    let mut i: usize = 0;
    let ghost flags = feature_list@;
    let mut rest = feature_list;
    proof {
        assert(flags.take(0) =~= Seq::<FeatureFlag>::empty());
    }
    let n = rest.len();
    while i < n
        invariant
            i <= n == flags.len(),
            rest@ == flags.skip(i as int),
            incompatible_features@ == spec_incompatible_of(flags.take(i as int), readonly),
            readonly_pass == spec_readonly_compatible(flags.take(i as int)),
        decreases n - i,
    {
        proof {
            assert(flags.take(i + 1).drop_last() =~= flags.take(i as int));
            assert(flags.take(i + 1).last() == flags[i as int]);
            assert(rest@[0] == flags[i as int]);
        }
        let feature = rest.remove(0);
        let incompatible = match feature.required {
            RequiredLevel::Optional => false,
            RequiredLevel::RequiredForRead => true,
            RequiredLevel::RequiredForWrite => !readonly,
        };
        if feature.required == RequiredLevel::RequiredForRead {
            readonly_pass = false;
        }
        if incompatible {
            incompatible_features.push(feature);
        }
        i = i + 1;
        proof {
            assert forall|k: int| 0 <= k < flags.take(i as int).len()
                implies (#[trigger] flags.take(i as int)[k]).required
                    == flags[k].required by {}
        }
    }
    proof {
        assert(flags.take(n as int) =~= flags);
    }
    if incompatible_features.len() > 0 {
        Err(FeatureError { features: incompatible_features, readonly: readonly_pass })
    } else {
        Ok(())
    }
}

} // verus!
