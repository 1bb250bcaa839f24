//! The revocation ledger: the registry store, the revocation store, and the
//! two commands that change them.
use vstd::prelude::*;
use crate::ids::{
    Did, ItemId, RegistryId, canonical_ids, canonical_of, id_set, lemma_ascending_distinct,
    lemma_canonical_of, same_id, strictly_ascending,
};
use crate::policy::{Registry, RegistryModel, policy_satisfied, policy_valid};
use crate::wire::{Revoke, RevokeModel, lemma_revoke_bytes_injective, revoke_bytes};

verus! {

/// Why a command was rejected. A rejected command changes nothing.
#[derive(Clone, Copy, Debug, PartialEq, Eq, Structural)]
pub enum LedgerError {
    /// The registry's policy is malformed (a `OneOf` with no controller).
    InvalidPolicy,
    /// A registry with that id exists already.
    RegistryAlreadyExists,
    /// No registry has that id.
    RegistryNotFound,
    /// The signers do not satisfy the registry's policy.
    PolicyNotSatisfied,
    /// A signature does not verify over the command's payload.
    InvalidSignature,
    /// An item of the batch is revoked already.
    AlreadyRevoked,
}

/// A stored registry with the height at which it last changed.
pub struct RegistryEntry {
    pub id: RegistryId,
    pub registry: Registry,
    pub last_modified: u64,
}

/// A stored revocation: the item `item_id` of `registry_id` was revoked at `revoked_at`.
pub struct RevocationEntry {
    pub registry_id: RegistryId,
    pub item_id: ItemId,
    pub revoked_at: u64,
}

/// The state of the ledger as two tables.
pub ghost struct LedgerModel {
    /// Registry id to (registry, last modified height).
    pub registries: Map<RegistryId, (RegistryModel, u64)>,
    /// (registry id, item id) to the height of revocation.
    pub revocations: Map<(RegistryId, ItemId), u64>,
}

/// The identities that the signature list names, in order.
pub open spec fn signer_ids(sigs: Seq<(Did, Vec<u8>)>) -> Seq<Did> {
    sigs.map_values(|p: (Did, Vec<u8>)| p.0)
}

/// The bytes that controllers sign to revoke `items` of `registry_id` when
/// the registry stands at version `last_modified`.
pub open spec fn payload_for(registry_id: RegistryId, items: Seq<ItemId>, last_modified: u64) -> Seq<
    u8,
> {
    revoke_bytes(RevokeModel { registry_id, item_ids: items, last_modified })
}

/// The verifier, asked whether `sig` is `did`'s signature over `payload`,
/// answered `answer`.
pub open spec fn verifier_answered<F: Fn(&Did, &Vec<u8>, &Vec<u8>) -> bool>(
    verify: F,
    did: Did,
    payload: Seq<u8>,
    sig: Vec<u8>,
    answer: bool,
) -> bool {
    exists|m: Vec<u8>| m@ == payload && #[trigger] verify.ensures((&did, &m, &sig), answer)
}

/// Revocations at height `height` of each item of `items` in `registry_id`.
pub open spec fn batch_revocations(registry_id: RegistryId, items: Set<ItemId>, height: u64) -> Map<
    (RegistryId, ItemId),
    u64,
> {
    Map::new(
        |k: (RegistryId, ItemId)| k.0 == registry_id && items.contains(k.1),
        |k: (RegistryId, ItemId)| height,
    )
}

/// Replay protection: the payload bound to one version of a registry differs
/// from every payload bound to another version, whatever the items. Since a
/// successful revocation moves the registry to a new version, a signature
/// made for an earlier version covers bytes the ledger never asks for again.
pub proof fn lemma_stale_payload_differs(
    registry_id: RegistryId,
    signed_items: Seq<ItemId>,
    signed_version: u64,
    items: Seq<ItemId>,
    version: u64,
)
    requires
        signed_version != version,
        signed_items.len() <= u64::MAX,
        items.len() <= u64::MAX,
    ensures
        payload_for(registry_id, signed_items, signed_version) != payload_for(
            registry_id,
            items,
            version,
        ),
{
    if payload_for(registry_id, signed_items, signed_version) == payload_for(registry_id, items, version) {
        lemma_revoke_bytes_injective(
            RevokeModel { registry_id, item_ids: signed_items, last_modified: signed_version },
            RevokeModel { registry_id, item_ids: items, last_modified: version },
        );
    }
}

/// In-memory store of registries and revocations.
pub struct Ledger {
    registries: Vec<RegistryEntry>,
    revocations: Vec<RevocationEntry>,
    registry_table: Ghost<Map<RegistryId, (RegistryModel, u64)>>,
    revocation_table: Ghost<Map<(RegistryId, ItemId), u64>>,
}

impl View for Ledger {
    type V = LedgerModel;

    closed spec fn view(&self) -> LedgerModel {
        LedgerModel { registries: self.registry_table@, revocations: self.revocation_table@ }
    }
}

impl Ledger {
    /// The stored entries agree with the tables, one entry per key.
    pub closed spec fn wf(&self) -> bool {
        &&& forall|i: int, j: int|
            0 <= i < j < self.registries@.len() ==> #[trigger] self.registries@[i].id
                != #[trigger] self.registries@[j].id
        &&& forall|i: int|
            0 <= i < self.registries@.len() ==> {
                let e = #[trigger] self.registries@[i];
                &&& self.registry_table@.contains_key(e.id)
                &&& self.registry_table@[e.id] == (e.registry@, e.last_modified)
            }
        &&& forall|id: RegistryId| #[trigger]
            self.registry_table@.contains_key(id) ==> exists|i: int|
                0 <= i < self.registries@.len() && #[trigger] self.registries@[i].id == id
        &&& forall|i: int, j: int|
            0 <= i < j < self.revocations@.len() ==> (#[trigger] self.revocations@[i].registry_id,
            self.revocations@[i].item_id) != (#[trigger] self.revocations@[j].registry_id,
            self.revocations@[j].item_id)
        &&& forall|i: int|
            0 <= i < self.revocations@.len() ==> {
                let e = #[trigger] self.revocations@[i];
                &&& self.revocation_table@.contains_key((e.registry_id, e.item_id))
                &&& self.revocation_table@[(e.registry_id, e.item_id)] == e.revoked_at
            }
        &&& forall|k: (RegistryId, ItemId)| #[trigger]
            self.revocation_table@.contains_key(k) ==> exists|i: int|
                0 <= i < self.revocations@.len() && (#[trigger] self.revocations@[i].registry_id,
                self.revocations@[i].item_id) == k
    }

    /// An empty ledger.
    pub fn new() -> (r: Ledger)
        ensures
            r.wf(),
            r@.registries == Map::<RegistryId, (RegistryModel, u64)>::empty(),
            r@.revocations == Map::<(RegistryId, ItemId), u64>::empty(),
    {
        Ledger {
            registries: Vec::new(),
            revocations: Vec::new(),
            registry_table: Ghost(Map::empty()),
            revocation_table: Ghost(Map::empty()),
        }
    }

    fn find_registry(&self, id: &RegistryId) -> (r: Option<usize>)
        requires
            self.wf(),
        ensures
            r matches Some(i) ==> i < self.registries@.len() && self.registries@[i as int].id == *id
                && self@.registries.contains_key(*id) && self@.registries[*id] == (
                self.registries@[i as int].registry@,
                self.registries@[i as int].last_modified,
            ),
            r is None ==> !self@.registries.contains_key(*id),
    {
        let mut i: usize = 0;
        while i < self.registries.len()
            invariant
                0 <= i <= self.registries@.len(),
                self.wf(),
                forall|j: int| 0 <= j < i ==> self.registries@[j].id != *id,
            decreases self.registries.len() - i,
        {
            if same_id(&self.registries[i].id, id) {
                return Some(i);
            }
            i = i + 1;
        }
        None
    }

    fn find_revocation(&self, registry_id: &RegistryId, item_id: &ItemId) -> (r: Option<usize>)
        requires
            self.wf(),
        ensures
            r matches Some(i) ==> i < self.revocations@.len() && self@.revocations.contains_key(
                (*registry_id, *item_id),
            ) && self@.revocations[(*registry_id, *item_id)]
                == self.revocations@[i as int].revoked_at,
            r is None ==> !self@.revocations.contains_key((*registry_id, *item_id)),
    {
        let mut i: usize = 0;
        while i < self.revocations.len()
            invariant
                0 <= i <= self.revocations@.len(),
                self.wf(),
                forall|j: int|
                    0 <= j < i ==> (self.revocations@[j].registry_id, self.revocations@[j].item_id)
                        != (*registry_id, *item_id),
            decreases self.revocations.len() - i,
        {
            let e = &self.revocations[i];
            if same_id(&e.registry_id, registry_id) && same_id(&e.item_id, item_id) {
                return Some(i);
            }
            i = i + 1;
        }
        None
    }

    /// The registry stored under `id`, with the height at which it last changed.
    pub fn get(&self, id: &RegistryId) -> (r: Option<(Registry, u64)>)
        requires
            self.wf(),
        ensures
            r is None <==> !self@.registries.contains_key(*id),
            r matches Some(p) ==> self@.registries[*id] == (p.0@, p.1),
    {
        match self.find_registry(id) {
            Some(i) => Some((self.registries[i].registry.duplicate(), self.registries[i].last_modified)),
            None => None,
        }
    }

    /// The height at which `item_id` of `registry_id` was revoked, if it was.
    pub fn revoked_at(&self, registry_id: &RegistryId, item_id: &ItemId) -> (r: Option<u64>)
        requires
            self.wf(),
        ensures
            r is None <==> !self@.revocations.contains_key((*registry_id, *item_id)),
            r matches Some(h) ==> self@.revocations[(*registry_id, *item_id)] == h,
    {
        match self.find_revocation(registry_id, item_id) {
            Some(i) => Some(self.revocations[i].revoked_at),
            None => None,
        }
    }

    /// Whether `item_id` of `registry_id` is revoked.
    pub fn is_revoked(&self, registry_id: &RegistryId, item_id: &ItemId) -> (r: bool)
        requires
            self.wf(),
        ensures
            r == self@.revocations.contains_key((*registry_id, *item_id)),
    {
        self.find_revocation(registry_id, item_id).is_some()
    }

    /// Records that `item_id` of `registry_id` was revoked at `height`; the
    /// pair must not be revoked yet.
    fn mark_revoked(&mut self, registry_id: RegistryId, item_id: ItemId, height: u64)
        requires
            old(self).wf(),
            !old(self)@.revocations.contains_key((registry_id, item_id)),
        ensures
            final(self).wf(),
            final(self)@.registries == old(self)@.registries,
            final(self).registries@ == old(self).registries@,
            final(self)@.revocations == old(self)@.revocations.insert((registry_id, item_id), height),
    {
        self.revocations.push(RevocationEntry { registry_id, item_id, revoked_at: height });
        self.revocation_table = Ghost(
            self.revocation_table@.insert((registry_id, item_id), height),
        );
        proof {
            let n = self.revocations@.len() - 1;
            let key = (registry_id, item_id);
            assert forall|i: int| 0 <= i < n implies (#[trigger] self.revocations@[i].registry_id,
                self.revocations@[i].item_id) != key by {
                assert(old(self).revocations@[i] == self.revocations@[i]);
            }
            assert forall|i: int, j: int|
                0 <= i < j < self.revocations@.len() implies (
                #[trigger] self.revocations@[i].registry_id,
                self.revocations@[i].item_id,
            ) != (#[trigger] self.revocations@[j].registry_id, self.revocations@[j].item_id) by {
                if j < n {
                    assert(old(self).revocations@[i] == self.revocations@[i]);
                    assert(old(self).revocations@[j] == self.revocations@[j]);
                }
            }
            assert forall|i: int| 0 <= i < self.revocations@.len() implies {
                let e = #[trigger] self.revocations@[i];
                &&& self.revocation_table@.contains_key((e.registry_id, e.item_id))
                &&& self.revocation_table@[(e.registry_id, e.item_id)] == e.revoked_at
            } by {
                if i < n {
                    assert(old(self).revocations@[i] == self.revocations@[i]);
                }
            }
            assert forall|k: (RegistryId, ItemId)| #[trigger]
                self.revocation_table@.contains_key(k) implies exists|i: int|
                    0 <= i < self.revocations@.len() && (
                    #[trigger] self.revocations@[i].registry_id,
                    self.revocations@[i].item_id,
                ) == k by {
                if k != key {
                    let i = choose|i: int|
                        0 <= i < old(self).revocations@.len() && (#[trigger] old(
                            self,
                        ).revocations@[i].registry_id, old(self).revocations@[i].item_id) == k;
                    assert(self.revocations@[i] == old(self).revocations@[i]);
                } else {
                    assert(self.revocations@[n].registry_id == registry_id);
                }
            }
            assert(self.registries@ == old(self).registries@);
            assert(self.wf());
        }
    }

    /// Stamps the registry stored at position `i` with the height `height`.
    fn touch(&mut self, i: usize, height: u64)
        requires
            old(self).wf(),
            i < old(self).registries@.len(),
        ensures
            final(self).wf(),
            final(self)@.revocations == old(self)@.revocations,
            final(self)@.registries == old(self)@.registries.insert(
                old(self).registries@[i as int].id,
                (old(self).registries@[i as int].registry@, height),
            ),
    {
        let id = self.registries[i].id;
        let registry = self.registries[i].registry.duplicate();
        let ghost model = registry@;
        self.registries.set(i, RegistryEntry { id, registry, last_modified: height });
        self.registry_table = Ghost(self.registry_table@.insert(id, (model, height)));
        proof {
            assert forall|a: int, b: int|
                0 <= a < b < self.registries@.len() implies #[trigger] self.registries@[a].id
                != #[trigger] self.registries@[b].id by {
                assert(old(self).registries@[a].id == self.registries@[a].id);
                assert(old(self).registries@[b].id == self.registries@[b].id);
            }
            assert forall|j: int| 0 <= j < self.registries@.len() implies {
                let e = #[trigger] self.registries@[j];
                &&& self.registry_table@.contains_key(e.id)
                &&& self.registry_table@[e.id] == (e.registry@, e.last_modified)
            } by {
                if j != i {
                    assert(old(self).registries@[j] == self.registries@[j]);
                    assert(old(self).registries@[j].id != id);
                }
            }
            assert forall|k: RegistryId| #[trigger]
                self.registry_table@.contains_key(k) implies exists|j: int|
                    0 <= j < self.registries@.len() && #[trigger] self.registries@[j].id == k by {
                let j = choose|j: int|
                    0 <= j < old(self).registries@.len() && #[trigger] old(self).registries@[j].id
                        == k;
                assert(self.registries@[j].id == k);
            }
            assert(self.revocations@ == old(self).revocations@);
            assert(self.wf());
        }
    }

    /// The payload that controllers sign to revoke the items of `item_ids` in
    /// `registry_id` as the registry stands now: it lists the items ascending,
    /// each once, and binds the registry's current version.
    pub fn revoke_payload(&self, registry_id: &RegistryId, item_ids: &Vec<ItemId>) -> (r: Result<
        Vec<u8>,
        LedgerError,
    >)
        requires
            self.wf(),
        ensures
            !self@.registries.contains_key(*registry_id) <==> r == Err::<Vec<u8>, LedgerError>(
                LedgerError::RegistryNotFound,
            ),
            self@.registries.contains_key(*registry_id) ==> r is Ok,
            r matches Ok(p) ==> p@ == payload_for(
                *registry_id,
                canonical_of(id_set(item_ids@)),
                self@.registries[*registry_id].1,
            ),
    {
        match self.find_registry(registry_id) {
            None => Err(LedgerError::RegistryNotFound),
            Some(i) => {
                let items = canonical_ids(item_ids);
                proof {
                    lemma_canonical_of(items@);
                }
                let cmd = Revoke {
                    registry_id: *registry_id,
                    item_ids: items,
                    last_modified: self.registries[i].last_modified,
                };
                Ok(cmd.encode())
            },
        }
    }

    /// Revokes each item of `item_ids` in `registry_id` at height `height`,
    /// authorized by `signatures`, pairs of an identity and its signature over
    /// the payload bound to the registry's current version; `verify` says
    /// whether a signature is an identity's over some bytes. Either every
    /// item is revoked and the registry's version becomes `height`, or an
    /// error is returned and nothing changes.
    #[verifier::loop_isolation(false)]
    pub fn revoke<F: Fn(&Did, &Vec<u8>, &Vec<u8>) -> bool>(
        &mut self,
        registry_id: RegistryId,
        item_ids: &Vec<ItemId>,
        signatures: &Vec<(Did, Vec<u8>)>,
        verify: F,
        height: u64,
    ) -> (r: Result<(), LedgerError>)
        requires
            old(self).wf(),
            forall|d: &Did, m: &Vec<u8>, s: &Vec<u8>| #[trigger] verify.requires((d, m, s)),
            old(self)@.registries.contains_key(registry_id) ==> old(self)@.registries[registry_id].1
                < height,
        ensures
            final(self).wf(),
            !old(self)@.registries.contains_key(registry_id) <==> r == Err::<(), LedgerError>(
                LedgerError::RegistryNotFound,
            ),
            old(self)@.registries.contains_key(registry_id) && !policy_satisfied(
                old(self)@.registries[registry_id].0.policy,
                id_set(signer_ids(signatures@)),
            ) <==> r == Err::<(), LedgerError>(LedgerError::PolicyNotSatisfied),
            r == Err::<(), LedgerError>(LedgerError::InvalidSignature) ==> exists|i: int|
                0 <= i < signatures@.len() && verifier_answered(
                    verify,
                    #[trigger] signatures@[i].0,
                    payload_for(
                        registry_id,
                        canonical_of(id_set(item_ids@)),
                        old(self)@.registries[registry_id].1,
                    ),
                    signatures@[i].1,
                    false,
                ),
            r is Ok || r == Err::<(), LedgerError>(LedgerError::AlreadyRevoked) ==> forall|i: int|
                0 <= i < signatures@.len() ==> verifier_answered(
                    verify,
                    #[trigger] signatures@[i].0,
                    payload_for(
                        registry_id,
                        canonical_of(id_set(item_ids@)),
                        old(self)@.registries[registry_id].1,
                    ),
                    signatures@[i].1,
                    true,
                ),
            r == Err::<(), LedgerError>(LedgerError::AlreadyRevoked) ==> exists|x: ItemId|
                #[trigger] item_ids@.contains(x) && old(self)@.revocations.contains_key(
                    (registry_id, x),
                ),
            r is Ok ==> forall|x: ItemId|
                #[trigger] item_ids@.contains(x) ==> !old(self)@.revocations.contains_key(
                    (registry_id, x),
                ),
            r != Err::<(), LedgerError>(LedgerError::InvalidPolicy),
            r != Err::<(), LedgerError>(LedgerError::RegistryAlreadyExists),
            r is Ok ==> final(self)@ == (LedgerModel {
                registries: old(self)@.registries.insert(
                    registry_id,
                    (old(self)@.registries[registry_id].0, height),
                ),
                revocations: old(self)@.revocations.union_prefer_right(
                    batch_revocations(registry_id, id_set(item_ids@), height),
                ),
            }),
            r is Err ==> final(self)@ == old(self)@,
    {
        // setup
        let idx = match self.find_registry(&registry_id) {
            Some(i) => i,
            None => return Err(LedgerError::RegistryNotFound),
        };
        let ghost last = old(self)@.registries[registry_id].1;
        let items = canonical_ids(item_ids);
        proof {
            lemma_canonical_of(items@);
        }
        let mut signers: Vec<Did> = Vec::new();
        let mut i: usize = 0;
        while i < signatures.len()
            invariant
                0 <= i <= signatures@.len(),
                signers@ == signer_ids(signatures@).subrange(0, i as int),
            decreases signatures.len() - i,
        {
            signers.push(signatures[i].0);
            assert(signers@ =~= signer_ids(signatures@).subrange(0, i + 1));
            i = i + 1;
        }
        assert(signers@ =~= signer_ids(signatures@));
        let payload = match self.revoke_payload(&registry_id, item_ids) {
            Ok(p) => p,
            Err(_) => return Err(LedgerError::RegistryNotFound),
        };
        // check: authorization
        if !self.registries[idx].registry.policy.satisfied_by(&signers) {
            return Err(LedgerError::PolicyNotSatisfied);
        }
        // check: signatures
        let mut i: usize = 0;
        while i < signatures.len()
            invariant
                0 <= i <= signatures@.len(),
                payload@ == payload_for(registry_id, items@, last),
                forall|d: &Did, m: &Vec<u8>, s: &Vec<u8>| #[trigger] verify.requires((d, m, s)),
                forall|j: int|
                    0 <= j < i ==> verifier_answered(
                        verify,
                        #[trigger] signatures@[j].0,
                        payload@,
                        signatures@[j].1,
                        true,
                    ),
            decreases signatures.len() - i,
        {
            let pair = &signatures[i];
            let ok = verify(&pair.0, &payload, &pair.1);
            assert(verify.ensures((&signatures@[i as int].0, &payload, &signatures@[i as int].1), ok));
            if !ok {
                assert(verifier_answered(verify, signatures@[i as int].0, payload@, signatures@[i as int].1, false));
                return Err(LedgerError::InvalidSignature);
            }
            i = i + 1;
        }
        // check: no item of the batch is revoked yet
        let mut j: usize = 0;
        while j < items.len()
            invariant
                0 <= j <= items@.len(),
                self.wf(),
                forall|k: int|
                    0 <= k < j ==> !self@.revocations.contains_key((registry_id, #[trigger] items@[k])),
            decreases items.len() - j,
        {
            if self.is_revoked(&registry_id, &items[j]) {
                proof {
                    assert(id_set(items@).contains(items@[j as int]));
                    assert(id_set(item_ids@).contains(items@[j as int]));
                }
                return Err(LedgerError::AlreadyRevoked);
            }
            j = j + 1;
        }
        // execute
        let mut j: usize = 0;
        while j < items.len()
            invariant
                0 <= j <= items@.len(),
                self.wf(),
                strictly_ascending(items@),
                id_set(items@) == id_set(item_ids@),
                self@.registries == old(self)@.registries,
                self@.revocations == old(self)@.revocations.union_prefer_right(
                    batch_revocations(registry_id, id_set(items@.subrange(0, j as int)), height),
                ),
                forall|k: int|
                    0 <= k < items@.len() ==> !old(self)@.revocations.contains_key((registry_id, #[trigger] items@[k])),
                idx < self.registries@.len(),
                self.registries@[idx as int].id == registry_id,
            decreases items.len() - j,
        {
            let item = items[j];
            proof {
                assert forall|k: int| 0 <= k < j implies #[trigger] items@[k] != item by {
                    lemma_ascending_distinct(items@, k, j as int);
                }
                assert(!items@.subrange(0, j as int).contains(item));
            }
            self.mark_revoked(registry_id, item, height);
            proof {
                assert(self@.revocations =~= old(self)@.revocations.union_prefer_right(
                    batch_revocations(registry_id, id_set(items@.subrange(0, j + 1)), height),
                )) by {
                    assert forall|x: ItemId| items@.subrange(0, j + 1).contains(x) <==> (items@.subrange(0, j as int).contains(x) || x == item) by {
                        if items@.subrange(0, j + 1).contains(x) {
                            let k = choose|k: int| 0 <= k < j + 1 && #[trigger] items@.subrange(0, j + 1)[k] == x;
                            if k < j {
                                assert(items@.subrange(0, j as int)[k] == x);
                            }
                        }
                        if items@.subrange(0, j as int).contains(x) {
                            let k = choose|k: int| 0 <= k < j && #[trigger] items@.subrange(0, j as int)[k] == x;
                            assert(items@.subrange(0, j + 1)[k] == x);
                        }
                        if x == item {
                            assert(items@.subrange(0, j + 1)[j as int] == x);
                        }
                    }
                }
            }
            j = j + 1;
        }
        proof {
            assert(items@.subrange(0, items@.len() as int) =~= items@);
            assert forall|x: ItemId| #[trigger] item_ids@.contains(x) implies !old(
                self,
            )@.revocations.contains_key((registry_id, x)) by {
                assert(id_set(item_ids@).contains(x));
                assert(id_set(items@).contains(x));
                let k = choose|k: int| 0 <= k < items@.len() && #[trigger] items@[k] == x;
            }
        }
        self.touch(idx, height);
        Ok(())
    }

    /// Creates the registry `id` at height `height`. Creation needs no
    /// signature: any caller may claim an unused id.
    pub fn create_registry(&mut self, id: RegistryId, registry: Registry, height: u64) -> (r:
        Result<(), LedgerError>)
        requires
            old(self).wf(),
        ensures
            final(self).wf(),
            !policy_valid(registry@.policy) <==> r == Err::<(), LedgerError>(
                LedgerError::InvalidPolicy,
            ),
            policy_valid(registry@.policy) && old(self)@.registries.contains_key(id) <==> r
                == Err::<(), LedgerError>(LedgerError::RegistryAlreadyExists),
            r is Ok <==> policy_valid(registry@.policy) && !old(self)@.registries.contains_key(id),
            r is Ok ==> final(self)@ == (LedgerModel {
                registries: old(self)@.registries.insert(id, (registry@, height)),
                revocations: old(self)@.revocations,
            }),
            r is Err ==> final(self)@ == old(self)@,
    {
        if registry.policy.validate().is_err() {
            return Err(LedgerError::InvalidPolicy);
        }
        if self.find_registry(&id).is_some() {
            return Err(LedgerError::RegistryAlreadyExists);
        }
        let ghost model = registry@;
        self.registries.push(RegistryEntry { id, registry, last_modified: height });
        self.registry_table = Ghost(self.registry_table@.insert(id, (model, height)));
        proof {
            let n = self.registries@.len() - 1;
            assert(self.registries@[n].id == id);
            assert forall|i: int| 0 <= i < n implies #[trigger] self.registries@[i].id != id by {
                assert(old(self).registries@[i] == self.registries@[i]);
            }
            assert forall|i: int, j: int|
                0 <= i < j < self.registries@.len() implies #[trigger] self.registries@[i].id
                != #[trigger] self.registries@[j].id by {
                if j < n {
                    assert(old(self).registries@[i] == self.registries@[i]);
                    assert(old(self).registries@[j] == self.registries@[j]);
                }
            }
            assert forall|i: int| 0 <= i < self.registries@.len() implies {
                let e = #[trigger] self.registries@[i];
                &&& self.registry_table@.contains_key(e.id)
                &&& self.registry_table@[e.id] == (e.registry@, e.last_modified)
            } by {
                if i < n {
                    assert(old(self).registries@[i] == self.registries@[i]);
                }
            }
            assert forall|k: RegistryId| #[trigger]
                self.registry_table@.contains_key(k) implies exists|i: int|
                    0 <= i < self.registries@.len() && #[trigger] self.registries@[i].id == k by {
                if k != id {
                    let i = choose|i: int|
                        0 <= i < old(self).registries@.len() && #[trigger] old(
                            self,
                        ).registries@[i].id == k;
                    assert(self.registries@[i].id == k);
                } else {
                    assert(self.registries@[n].id == k);
                }
            }
            assert(self.revocations@ == old(self).revocations@);
            assert(self.revocation_table@ == old(self).revocation_table@);
            assert(self.wf());
        }
        Ok(())
    }
}

} // verus!
