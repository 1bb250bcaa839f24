use revocation::policy::{Policy, Registry};
use revocation::wire::Revoke;

#[test]
fn revoke_command_round_trip() {
    let cmd = Revoke { registry_id: [9u8; 32], item_ids: vec![[1u8; 32], [4u8; 32], [7u8; 32]], last_modified: u64::MAX - 3 };
    let bytes = cmd.encode();
    assert_eq!(bytes.len(), 32 + 8 + 3 * 32 + 8);
    let back = Revoke::decode(&bytes).unwrap();
    assert_eq!(back.registry_id, cmd.registry_id);
    assert_eq!(back.item_ids, cmd.item_ids);
    assert_eq!(back.last_modified, cmd.last_modified);
}

#[test]
fn revoke_command_with_no_items_round_trip() {
    let cmd = Revoke { registry_id: [0u8; 32], item_ids: vec![], last_modified: 0 };
    let bytes = cmd.encode();
    assert_eq!(bytes, vec![0u8; 48]);
    let back = Revoke::decode(&bytes).unwrap();
    assert!(back.item_ids.is_empty());
}

#[test]
fn registry_round_trip() {
    let reg = Registry::new(Policy::OneOf { controllers: vec![[5u8; 32], [6u8; 32]] }, false);
    let bytes = reg.encode();
    assert_eq!(bytes[0], 0);
    assert_eq!(&bytes[1..9], &[2, 0, 0, 0, 0, 0, 0, 0]);
    assert_eq!(*bytes.last().unwrap(), 0);
    let back = Registry::decode(&bytes).unwrap();
    assert!(!back.add_only);
    let Policy::OneOf { controllers } = &back.policy;
    assert_eq!(controllers, &vec![[5u8; 32], [6u8; 32]]);
    let reg = Registry::new(Policy::OneOf { controllers: vec![[5u8; 32]] }, true);
    assert!(Registry::decode(&reg.encode()).unwrap().add_only);
}

#[test]
fn malformed_bytes_are_rejected() {
    assert!(Revoke::decode(&vec![0u8; 47]).is_none());
    let mut bytes = Revoke { registry_id: [1u8; 32], item_ids: vec![[2u8; 32]], last_modified: 5 }.encode();
    bytes.push(0);
    assert!(Revoke::decode(&bytes).is_none());
    let mut reg = Registry::new(Policy::OneOf { controllers: vec![[5u8; 32]] }, true).encode();
    let last = reg.len() - 1;
    reg[last] = 2;
    assert!(Registry::decode(&reg).is_none());
    reg[last] = 1;
    reg[0] = 1;
    assert!(Registry::decode(&reg).is_none());
    assert!(Registry::decode(&vec![0u8; 9]).is_none());
}
