//! Authorization policies and the check of a signer set against them.
use vstd::prelude::*;
use crate::ids::{Did, copy_ids, id_set, same_id};

verus! {

/// A rule deciding which sets of signers authorize an action on a registry.
#[derive(Clone, Debug)]
pub enum Policy {
    /// Satisfied by exactly one signer drawn from `controllers`.
    OneOf {
        /// Identities allowed to modify a registry.
        controllers: Vec<Did>,
    },
}

/// The mathematical value of a [`Policy`].
pub ghost enum PolicyModel {
    OneOf { controllers: Seq<Did> },
}

impl View for Policy {
    type V = PolicyModel;

    open spec fn view(&self) -> PolicyModel {
        match self {
            Policy::OneOf { controllers } => PolicyModel::OneOf { controllers: controllers@ },
        }
    }
}

/// A registry: the policy that governs it and whether its revocations are final.
#[derive(Clone, Debug)]
pub struct Registry {
    /// Who is allowed to update this registry.
    pub policy: Policy,
    /// true: items can be revoked but never un-revoked. No operation of this
    /// library un-revokes, so the flag is only recorded.
    pub add_only: bool,
}

/// The mathematical value of a [`Registry`].
pub ghost struct RegistryModel {
    pub policy: PolicyModel,
    pub add_only: bool,
}

impl View for Registry {
    type V = RegistryModel;

    open spec fn view(&self) -> RegistryModel {
        RegistryModel { policy: self.policy@, add_only: self.add_only }
    }
}

impl Registry {
    /// A registry governed by `policy`.
    pub fn new(policy: Policy, add_only: bool) -> (r: Registry)
        ensures
            r@ == (RegistryModel { policy: policy@, add_only }),
    {
        Registry { policy, add_only }
    }

    /// A copy of this registry.
    pub fn duplicate(&self) -> (r: Registry)
        ensures
            r@ == self@,
    {
        let Policy::OneOf { controllers } = &self.policy;
        let copy = copy_ids(controllers);
        Registry { policy: Policy::OneOf { controllers: copy }, add_only: self.add_only }
    }
}

/// Why a policy is unusable.
#[derive(Clone, Copy, Debug, PartialEq, Eq, Structural)]
pub enum PolicyError {
    /// A `OneOf` policy names no controller.
    EmptyControllerSet,
}

/// The controllers named by a policy.
pub open spec fn controller_set(p: PolicyModel) -> Set<Did> {
    match p {
        PolicyModel::OneOf { controllers } => id_set(controllers),
    }
}

/// A policy is well formed when it can ever be satisfied.
pub open spec fn policy_valid(p: PolicyModel) -> bool {
    match p {
        PolicyModel::OneOf { controllers } => controllers.len() > 0,
    }
}

/// Whether the distinct signers `signers` authorize an action under `p`.
pub open spec fn policy_satisfied(p: PolicyModel, signers: Set<Did>) -> bool {
    match p {
        PolicyModel::OneOf { .. } => exists|d: Did|
            signers == set![d] && #[trigger] controller_set(p).contains(d),
    }
}

impl Policy {
    /// Structural check made when a registry is created: a `OneOf` policy
    /// needs at least one controller.
    pub fn validate(&self) -> (r: Result<(), PolicyError>)
        ensures
            r is Ok <==> policy_valid(self@),
            r is Err ==> r == Err::<(), PolicyError>(PolicyError::EmptyControllerSet),
    {
        match self {
            Policy::OneOf { controllers } => {
                if controllers.len() != 0 {
                    Ok(())
                } else {
                    Err(PolicyError::EmptyControllerSet)
                }
            },
        }
    }

    /// Whether signatures by each identity of `signers` would authorize an
    /// action under this policy; repeated identities count once.
    pub fn satisfied_by(&self, signers: &Vec<Did>) -> (r: bool)
        ensures
            r == policy_satisfied(self@, id_set(signers@)),
    {
        match self {
            Policy::OneOf { controllers } => {
                if signers.len() == 0 {
                    proof {
                        if policy_satisfied(self@, id_set(signers@)) {
                            let d = choose|d: Did|
                                id_set(signers@) == set![d] && #[trigger] controller_set(self@).contains(d);
                            assert(set![d].contains(d));
                        }
                    }
                    return false;
                }
                let first = &signers[0];
                let mut i: usize = 1;
                while i < signers.len()
                    invariant
                        1 <= i <= signers.len(),
                        first == signers@[0],
                        forall|j: int| 0 <= j < i ==> signers@[j] == *first,
                    decreases signers.len() - i,
                {
                    if !same_id(&signers[i], first) {
                        proof {
                            assert(id_set(signers@).contains(signers@[i as int]));
                            assert(id_set(signers@).contains(signers@[0]));
                            if policy_satisfied(self@, id_set(signers@)) {
                                let d = choose|d: Did|
                                    id_set(signers@) == set![d] && #[trigger] controller_set(self@).contains(d);
                                assert(set![d].contains(signers@[i as int]));
                                assert(set![d].contains(signers@[0]));
                            }
                        }
                        return false;
                    }
                    i = i + 1;
                }
                assert(id_set(signers@) =~= set![*first]) by {
                    assert(signers@.contains(*first));
                };
                let mut k: usize = 0;
                while k < controllers.len()
                    invariant
                        0 <= k <= controllers.len(),
                        controller_set(self@) == id_set(controllers@),
                        id_set(signers@) == set![*first],
                        forall|j: int| 0 <= j < k ==> controllers@[j] != *first,
                    decreases controllers.len() - k,
                {
                    if same_id(&controllers[k], first) {
                        assert(controllers@[k as int] == *first);
                        assert(controllers@.contains(*first));
                        assert(id_set(controllers@).contains(*first));
                        assert(controller_set(self@).contains(*first));
                        return true;
                    }
                    k = k + 1;
                }
                proof {
                    if policy_satisfied(self@, id_set(signers@)) {
                        let d = choose|d: Did|
                            id_set(signers@) == set![d] && #[trigger] controller_set(self@).contains(d);
                        assert(set![*first].contains(d));
                    }
                }
                false
            },
        }
    }
}

} // verus!
