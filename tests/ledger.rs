use revocation::ledger::{Ledger, LedgerError};
use revocation::policy::{Policy, PolicyError, Registry};
use revocation::wire::Revoke;

fn id(b: u8) -> [u8; 32] {
    [b; 32]
}

fn one_of(ds: &[[u8; 32]]) -> Registry {
    Registry::new(Policy::OneOf { controllers: ds.to_vec() }, true)
}

// A stand-in signature scheme: the signature of `d` over `m` is `d` followed by `m`.
fn sign(d: &[u8; 32], m: &Vec<u8>) -> Vec<u8> {
    let mut s = d.to_vec();
    s.extend_from_slice(m);
    s
}

fn check(d: &[u8; 32], m: &Vec<u8>, s: &Vec<u8>) -> bool {
    *s == sign(d, m)
}

fn signed(ledger: &Ledger, r: &[u8; 32], items: &Vec<[u8; 32]>, by: &[[u8; 32]]) -> Vec<([u8; 32], Vec<u8>)> {
    let payload = ledger.revoke_payload(r, items).unwrap();
    by.iter().map(|d| (*d, sign(d, &payload))).collect()
}

#[test]
fn end_to_end_scenario() {
    let r = id(0xAA);
    let d1 = id(0xD1);
    let (c1, c2, c3) = (id(1), id(2), id(3));
    let mut ledger = Ledger::new();
    assert_eq!(ledger.create_registry(r, one_of(&[d1]), 1), Ok(()));
    let (stored, h) = ledger.get(&r).unwrap();
    assert!(stored.add_only);
    assert_eq!(h, 1);
    let Policy::OneOf { controllers } = &stored.policy;
    assert_eq!(controllers, &vec![d1]);

    let batch = vec![c1, c2];
    let sigs = signed(&ledger, &r, &batch, &[d1]);
    assert_eq!(ledger.revoke(r, &batch, &sigs, check, 5), Ok(()));
    assert_eq!(ledger.revoked_at(&r, &c1), Some(5));
    assert_eq!(ledger.revoked_at(&r, &c2), Some(5));
    assert_eq!(ledger.get(&r).unwrap().1, 5);

    let batch = vec![c2, c3];
    let sigs = signed(&ledger, &r, &batch, &[d1]);
    assert_eq!(ledger.revoke(r, &batch, &sigs, check, 9), Err(LedgerError::AlreadyRevoked));
    assert!(!ledger.is_revoked(&r, &c3));
    assert_eq!(ledger.get(&r).unwrap().1, 5);
}

#[test]
fn empty_controller_set_is_invalid() {
    let mut ledger = Ledger::new();
    for add_only in [true, false] {
        let reg = Registry::new(Policy::OneOf { controllers: vec![] }, add_only);
        assert_eq!(ledger.create_registry(id(7), reg, 1), Err(LedgerError::InvalidPolicy));
        assert!(ledger.get(&id(7)).is_none());
    }
}

#[test]
fn second_create_with_same_id_fails() {
    let mut ledger = Ledger::new();
    assert_eq!(ledger.create_registry(id(7), one_of(&[id(1)]), 3), Ok(()));
    let other = Registry::new(Policy::OneOf { controllers: vec![id(2), id(3)] }, false);
    assert_eq!(ledger.create_registry(id(7), other, 4), Err(LedgerError::RegistryAlreadyExists));
    let (stored, h) = ledger.get(&id(7)).unwrap();
    assert_eq!(h, 3);
    assert!(stored.add_only);
    let Policy::OneOf { controllers } = &stored.policy;
    assert_eq!(controllers, &vec![id(1)]);
}

#[test]
fn revoke_on_missing_registry_fails() {
    let mut ledger = Ledger::new();
    let sigs = vec![(id(1), vec![0u8; 4])];
    assert_eq!(ledger.revoke(id(9), &vec![id(3)], &sigs, check, 2), Err(LedgerError::RegistryNotFound));
    assert!(!ledger.is_revoked(&id(9), &id(3)));
    assert_eq!(ledger.revoke_payload(&id(9), &vec![id(3)]), Err(LedgerError::RegistryNotFound));
}

#[test]
fn one_of_needs_exactly_one_controller_signature() {
    let (r, d1, d2, outsider) = (id(0xAA), id(0xD1), id(0xD2), id(0xEE));
    let mut ledger = Ledger::new();
    ledger.create_registry(r, one_of(&[d1, d2]), 1).unwrap();
    let batch = vec![id(1)];

    let two = signed(&ledger, &r, &batch, &[d1, d2]);
    assert_eq!(ledger.revoke(r, &batch, &two, check, 2), Err(LedgerError::PolicyNotSatisfied));
    let stranger = signed(&ledger, &r, &batch, &[outsider]);
    assert_eq!(ledger.revoke(r, &batch, &stranger, check, 2), Err(LedgerError::PolicyNotSatisfied));
    let none: Vec<([u8; 32], Vec<u8>)> = vec![];
    assert_eq!(ledger.revoke(r, &batch, &none, check, 2), Err(LedgerError::PolicyNotSatisfied));
    let forged = vec![(d1, vec![1u8, 2, 3])];
    assert_eq!(ledger.revoke(r, &batch, &forged, check, 2), Err(LedgerError::InvalidSignature));
    assert!(!ledger.is_revoked(&r, &id(1)));
    assert_eq!(ledger.get(&r).unwrap().1, 1);

    let good = signed(&ledger, &r, &batch, &[d2]);
    assert_eq!(ledger.revoke(r, &batch, &good, check, 2), Ok(()));
    assert!(ledger.is_revoked(&r, &id(1)));
}

#[test]
fn batch_is_all_or_nothing() {
    let (r, d1) = (id(0xAA), id(0xD1));
    let mut ledger = Ledger::new();
    ledger.create_registry(r, one_of(&[d1]), 1).unwrap();
    let first = vec![id(1)];
    let sigs = signed(&ledger, &r, &first, &[d1]);
    ledger.revoke(r, &first, &sigs, check, 2).unwrap();
    let batch = vec![id(1), id(2)];
    let sigs = signed(&ledger, &r, &batch, &[d1]);
    assert_eq!(ledger.revoke(r, &batch, &sigs, check, 3), Err(LedgerError::AlreadyRevoked));
    assert!(!ledger.is_revoked(&r, &id(2)));
    assert_eq!(ledger.revoked_at(&r, &id(1)), Some(2));
}

#[test]
fn replayed_signature_is_rejected() {
    let (r, d1) = (id(0xAA), id(0xD1));
    let mut ledger = Ledger::new();
    ledger.create_registry(r, one_of(&[d1]), 1).unwrap();
    let c1 = vec![id(1)];
    let sigs = signed(&ledger, &r, &c1, &[d1]);
    assert_eq!(ledger.revoke(r, &c1, &sigs, check, 4), Ok(()));
    assert_eq!(ledger.get(&r).unwrap().1, 4);
    // The identical command again: signatures are checked before the items,
    // and the old signature no longer verifies.
    assert_eq!(ledger.revoke(r, &c1, &sigs, check, 6), Err(LedgerError::InvalidSignature));
    // Signed afresh, the same command meets its revoked item.
    let fresh = signed(&ledger, &r, &c1, &[d1]);
    assert_eq!(ledger.revoke(r, &c1, &fresh, check, 6), Err(LedgerError::AlreadyRevoked));
    assert_eq!(ledger.revoked_at(&r, &id(1)), Some(4));
    // The old signature over another item set: it no longer verifies.
    let c2 = vec![id(2)];
    assert_eq!(ledger.revoke(r, &c2, &sigs, check, 6), Err(LedgerError::InvalidSignature));
    // Even a signature over the same items but the old version fails.
    let stale = Revoke { registry_id: r, item_ids: c2.clone(), last_modified: 1 }.encode();
    let stale_sigs = vec![(d1, sign(&d1, &stale))];
    assert_eq!(ledger.revoke(r, &c2, &stale_sigs, check, 6), Err(LedgerError::InvalidSignature));
    assert!(!ledger.is_revoked(&r, &id(2)));
}

#[test]
fn payload_is_bound_to_version() {
    let (r, d1) = (id(0xAA), id(0xD1));
    let mut ledger = Ledger::new();
    ledger.create_registry(r, one_of(&[d1]), 0x0102).unwrap();
    let items = vec![id(1), id(2)];
    let p = ledger.revoke_payload(&r, &items).unwrap();
    let mut expected = vec![0xAAu8; 32];
    expected.extend_from_slice(&[2, 0, 0, 0, 0, 0, 0, 0]);
    expected.extend_from_slice(&[1u8; 32]);
    expected.extend_from_slice(&[2u8; 32]);
    expected.extend_from_slice(&[0x02, 0x01, 0, 0, 0, 0, 0, 0]);
    assert_eq!(p, expected);
}

#[test]
fn policy_checks() {
    let p = Policy::OneOf { controllers: vec![id(1), id(2)] };
    assert_eq!(p.validate(), Ok(()));
    assert_eq!(Policy::OneOf { controllers: vec![] }.validate(), Err(PolicyError::EmptyControllerSet));
    assert!(p.satisfied_by(&vec![id(1)]));
    assert!(p.satisfied_by(&vec![id(2), id(2)]));
    assert!(!p.satisfied_by(&vec![id(1), id(2)]));
    assert!(!p.satisfied_by(&vec![id(3)]));
    assert!(!p.satisfied_by(&vec![]));
}

#[test]
fn item_set_is_normalized() {
    let (r, d1) = (id(0xAA), id(0xD1));
    let mut ledger = Ledger::new();
    ledger.create_registry(r, one_of(&[d1]), 7).unwrap();
    let sorted = ledger.revoke_payload(&r, &vec![id(1), id(2)]).unwrap();
    let messy = ledger.revoke_payload(&r, &vec![id(2), id(1), id(2)]).unwrap();
    assert_eq!(sorted, messy);
    let batch = vec![id(2), id(1), id(2)];
    let sigs = signed(&ledger, &r, &vec![id(1), id(2)], &[d1]);
    assert_eq!(ledger.revoke(r, &batch, &sigs, check, 8), Ok(()));
    assert_eq!(ledger.revoked_at(&r, &id(1)), Some(8));
    assert_eq!(ledger.revoked_at(&r, &id(2)), Some(8));
    assert_eq!(ledger.get(&r).unwrap().1, 8);
}

#[test]
fn items_of_other_registries_are_separate() {
    let (r1, r2, d1) = (id(0xA1), id(0xA2), id(0xD1));
    let mut ledger = Ledger::new();
    ledger.create_registry(r1, one_of(&[d1]), 1).unwrap();
    ledger.create_registry(r2, one_of(&[d1]), 1).unwrap();
    let batch = vec![id(5)];
    let sigs = signed(&ledger, &r1, &batch, &[d1]);
    ledger.revoke(r1, &batch, &sigs, check, 2).unwrap();
    assert!(ledger.is_revoked(&r1, &id(5)));
    assert!(!ledger.is_revoked(&r2, &id(5)));
    assert_eq!(ledger.get(&r2).unwrap().1, 1);
    let sigs = signed(&ledger, &r2, &batch, &[d1]);
    assert_eq!(ledger.revoke(r2, &batch, &sigs, check, 3), Ok(()));
}
