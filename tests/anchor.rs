use stylus_hardware_anchor::anchor::{HardwareAnchorError, StylusHardwareAnchor};
use stylus_hardware_anchor::digest::{compute_digest, compute_digest_from_packed_v1};

const CHAIN: u64 = 42161;
const OWNER: [u8; 20] = [0x11; 20];
const STRANGER: [u8; 20] = [0x22; 20];
const DEVICE: [u8; 32] = [0xd1; 32];
const FIRMWARE: [u8; 32] = [0xf1; 32];
const EXEC: [u8; 32] = [0xe1; 32];

fn ready_anchor() -> StylusHardwareAnchor {
    let mut a = StylusHardwareAnchor::new();
    assert_eq!(a.initialize(OWNER), Ok(()));
    assert_eq!(a.authorize_node(OWNER, DEVICE), Ok(()));
    assert_eq!(a.approve_firmware(OWNER, FIRMWARE), Ok(()));
    a
}

fn pack_v1(device: [u8; 32], firmware: [u8; 32], exec: [u8; 32], counter: u64, claimed: [u8; 32]) -> Vec<u8> {
    let mut out = vec![1u8];
    out.extend_from_slice(&device);
    out.extend_from_slice(&firmware);
    out.extend_from_slice(&exec);
    out.extend_from_slice(&counter.to_be_bytes());
    out.extend_from_slice(&claimed);
    out
}

fn valid_v1(counter: u64) -> Vec<u8> {
    let d = compute_digest(CHAIN, DEVICE, FIRMWARE, EXEC, counter);
    pack_v1(DEVICE, FIRMWARE, EXEC, counter, d)
}

#[test]
fn initialize_sets_owner_once() {
    let mut a = StylusHardwareAnchor::new();
    assert_eq!(a.get_owner(), [0u8; 20]);
    assert_eq!(a.initialize(OWNER), Ok(()));
    assert_eq!(a.get_owner(), OWNER);
    assert_eq!(a.initialize(STRANGER), Err(HardwareAnchorError::AlreadyInitialized));
    assert_eq!(a.get_owner(), OWNER);
}

#[test]
fn authorize_twice_then_revoke() {
    let mut a = StylusHardwareAnchor::new();
    a.initialize(OWNER).unwrap();
    assert!(!a.is_node_authorized(DEVICE));
    assert_eq!(a.authorize_node(OWNER, DEVICE), Ok(()));
    assert_eq!(a.authorize_node(OWNER, DEVICE), Ok(()));
    assert!(a.is_node_authorized(DEVICE));
    assert_eq!(a.revoke_node(OWNER, DEVICE), Ok(()));
    assert!(!a.is_node_authorized(DEVICE));
}

#[test]
fn firmware_approve_and_revoke() {
    let mut a = StylusHardwareAnchor::new();
    a.initialize(OWNER).unwrap();
    assert!(!a.is_firmware_approved(FIRMWARE));
    assert_eq!(a.approve_firmware(OWNER, FIRMWARE), Ok(()));
    assert!(a.is_firmware_approved(FIRMWARE));
    assert_eq!(a.revoke_firmware(OWNER, FIRMWARE), Ok(()));
    assert!(!a.is_firmware_approved(FIRMWARE));
}

#[test]
fn non_owner_is_refused_and_changes_nothing() {
    let mut a = ready_anchor();
    let other = [0x77u8; 32];
    assert_eq!(a.authorize_node(STRANGER, other), Err(HardwareAnchorError::UnauthorizedCaller));
    assert_eq!(a.revoke_node(STRANGER, DEVICE), Err(HardwareAnchorError::UnauthorizedCaller));
    assert_eq!(a.approve_firmware(STRANGER, other), Err(HardwareAnchorError::UnauthorizedCaller));
    assert_eq!(a.revoke_firmware(STRANGER, FIRMWARE), Err(HardwareAnchorError::UnauthorizedCaller));
    assert_eq!(a.transfer_ownership(STRANGER, STRANGER), Err(HardwareAnchorError::UnauthorizedCaller));
    assert!(!a.is_node_authorized(other));
    assert!(a.is_node_authorized(DEVICE));
    assert!(!a.is_firmware_approved(other));
    assert!(a.is_firmware_approved(FIRMWARE));
    assert_eq!(a.get_owner(), OWNER);
}

#[test]
fn transfer_ownership_rules() {
    let mut a = ready_anchor();
    assert_eq!(a.transfer_ownership(OWNER, [0u8; 20]), Err(HardwareAnchorError::InvalidOwner));
    assert_eq!(a.get_owner(), OWNER);
    assert_eq!(a.transfer_ownership(OWNER, STRANGER), Ok(()));
    assert_eq!(a.get_owner(), STRANGER);
    assert_eq!(a.authorize_node(OWNER, [5u8; 32]), Err(HardwareAnchorError::UnauthorizedCaller));
    assert_eq!(a.authorize_node(STRANGER, [5u8; 32]), Ok(()));
}

#[test]
fn verify_receipt_accepts_and_records_counter() {
    let mut a = ready_anchor();
    assert_eq!(a.get_counter(DEVICE), 0);
    let d = compute_digest(CHAIN, DEVICE, FIRMWARE, EXEC, 5);
    assert_eq!(a.verify_receipt(CHAIN, DEVICE, FIRMWARE, EXEC, 5, d), Ok(()));
    assert_eq!(a.get_counter(DEVICE), 5);
}

#[test]
fn verify_receipt_gate_errors() {
    let mut a = ready_anchor();
    let d = compute_digest(CHAIN, DEVICE, FIRMWARE, EXEC, 3);
    assert_eq!(
        a.verify_receipt(CHAIN, [9u8; 32], FIRMWARE, EXEC, 3, d),
        Err(HardwareAnchorError::UnauthorizedHardware)
    );
    assert_eq!(
        a.verify_receipt(CHAIN, DEVICE, [9u8; 32], EXEC, 3, d),
        Err(HardwareAnchorError::FirmwareNotApproved)
    );
    assert_eq!(
        a.verify_receipt(CHAIN, DEVICE, FIRMWARE, EXEC, 0, d),
        Err(HardwareAnchorError::ReplayDetected)
    );
    assert_eq!(
        a.verify_receipt(CHAIN, DEVICE, FIRMWARE, EXEC, 3, [0u8; 32]),
        Err(HardwareAnchorError::DigestMismatch)
    );
    assert_eq!(
        a.verify_receipt(CHAIN + 1, DEVICE, FIRMWARE, EXEC, 3, d),
        Err(HardwareAnchorError::DigestMismatch)
    );
    assert_eq!(a.get_counter(DEVICE), 0);
}

#[test]
fn replay_with_equal_counter_is_refused() {
    let mut a = ready_anchor();
    let d = compute_digest(CHAIN, DEVICE, FIRMWARE, EXEC, 7);
    assert_eq!(a.verify_receipt(CHAIN, DEVICE, FIRMWARE, EXEC, 7, d), Ok(()));
    assert_eq!(a.verify_receipt(CHAIN, DEVICE, FIRMWARE, EXEC, 7, d), Err(HardwareAnchorError::ReplayDetected));
    assert_eq!(
        a.verify_receipt(CHAIN, DEVICE, FIRMWARE, EXEC, 7, [1u8; 32]),
        Err(HardwareAnchorError::ReplayDetected)
    );
    assert_eq!(a.get_counter(DEVICE), 7);
}

#[test]
fn counter_is_max_of_accepted() {
    let mut a = ready_anchor();
    for c in [2u64, 9, 4, 9, 15, 11] {
        let d = compute_digest(CHAIN, DEVICE, FIRMWARE, EXEC, c);
        let _ = a.verify_receipt(CHAIN, DEVICE, FIRMWARE, EXEC, c, d);
    }
    assert_eq!(a.get_counter(DEVICE), 15);
    let d = compute_digest(CHAIN, DEVICE, FIRMWARE, EXEC, 16);
    assert_eq!(a.verify_receipt(CHAIN, DEVICE, FIRMWARE, EXEC, 16, [3u8; 32]), Err(HardwareAnchorError::DigestMismatch));
    assert_eq!(a.get_counter(DEVICE), 15);
    assert_eq!(a.verify_receipt(CHAIN, DEVICE, FIRMWARE, EXEC, 16, d), Ok(()));
    assert_eq!(a.get_counter(DEVICE), 16);
}

#[test]
fn digest_is_keccak_of_layout() {
    let mut material = b"anchor_RCT_V1".to_vec();
    material.extend_from_slice(&CHAIN.to_be_bytes());
    material.extend_from_slice(&DEVICE);
    material.extend_from_slice(&FIRMWARE);
    material.extend_from_slice(&EXEC);
    material.extend_from_slice(&77u64.to_be_bytes());
    assert_eq!(material.len(), 125);
    let expected = stylus_sdk::alloy_primitives::keccak256(&material).0;
    let got = compute_digest(CHAIN, DEVICE, FIRMWARE, EXEC, 77);
    assert_eq!(got, expected);
    assert_ne!(got, DEVICE);
}

#[test]
fn keccak_of_empty_input() {
    let h = stylus_sdk::alloy_primitives::keccak256([0u8; 0]).0;
    assert_eq!(h[0], 0xc5);
    assert_eq!(h[1], 0xd2);
    assert_eq!(h[31], 0x70);
}

#[test]
fn digest_binds_every_field_and_is_deterministic() {
    let base = compute_digest(CHAIN, DEVICE, FIRMWARE, EXEC, 1);
    assert_eq!(base, compute_digest(CHAIN, DEVICE, FIRMWARE, EXEC, 1));
    assert_ne!(base, compute_digest(CHAIN + 1, DEVICE, FIRMWARE, EXEC, 1));
    assert_ne!(base, compute_digest(CHAIN, [0xd2; 32], FIRMWARE, EXEC, 1));
    assert_ne!(base, compute_digest(CHAIN, DEVICE, [0xf2; 32], EXEC, 1));
    assert_ne!(base, compute_digest(CHAIN, DEVICE, FIRMWARE, [0xe2; 32], 1));
    assert_ne!(base, compute_digest(CHAIN, DEVICE, FIRMWARE, EXEC, 2));
}

#[test]
fn batch_round_trip_all_pass_and_counters_unchanged() {
    let a = ready_anchor();
    let mut packed = Vec::new();
    for c in 1u64..=4 {
        packed.extend_from_slice(&valid_v1(c));
    }
    assert_eq!(packed.len(), 137 * 4);
    let before = a.get_counter(DEVICE);
    assert_eq!(a.verify_receipts_batch(CHAIN, packed.clone()), vec![true, true, true, true]);
    assert_eq!(a.verify_receipts_batch_bytes(CHAIN, &packed), vec![true, true, true, true]);
    assert_eq!(a.get_counter(DEVICE), before);
}

#[test]
fn batch_reports_each_failure_in_place() {
    let mut a = ready_anchor();
    let d = compute_digest(CHAIN, DEVICE, FIRMWARE, EXEC, 5);
    a.verify_receipt(CHAIN, DEVICE, FIRMWARE, EXEC, 5, d).unwrap();
    let mut bad_version = valid_v1(8);
    bad_version[0] = 2;
    let mut packed = valid_v1(6);
    packed.extend_from_slice(&valid_v1(5));
    packed.extend_from_slice(&bad_version);
    packed.extend_from_slice(&pack_v1(DEVICE, FIRMWARE, EXEC, 9, [0u8; 32]));
    packed.extend_from_slice(&valid_v1(6));
    assert_eq!(a.verify_receipts_batch(CHAIN, packed), vec![true, false, false, false, true]);
}

#[test]
fn batch_malformed_length_gives_empty() {
    let a = ready_anchor();
    assert_eq!(a.verify_receipts_batch(CHAIN, vec![1u8; 140]), Vec::<bool>::new());
    assert_eq!(a.verify_receipts_batch(CHAIN, Vec::new()), Vec::<bool>::new());
    let mut short = valid_v1(1);
    short.pop();
    assert_eq!(a.verify_receipts_batch_bytes(CHAIN, &short), Vec::<bool>::new());
}

#[test]
fn bitset_nine_receipts_last_fails() {
    let a = ready_anchor();
    let mut packed = Vec::new();
    for c in 1u64..=8 {
        packed.extend_from_slice(&valid_v1(c));
    }
    packed.extend_from_slice(&pack_v1(DEVICE, FIRMWARE, EXEC, 9, [0u8; 32]));
    let bits = a.verify_receipts_batch_bitset(CHAIN, packed);
    assert_eq!(bits[0], 0xff);
    assert_eq!(bits[1], 0);
    assert!(bits[2..].iter().all(|b| *b == 0));
}

#[test]
fn bitset_marks_only_passing_receipt() {
    let a = ready_anchor();
    let mut packed = Vec::new();
    for c in 1u64..=8 {
        packed.extend_from_slice(&pack_v1(DEVICE, FIRMWARE, EXEC, c, [0u8; 32]));
    }
    packed.extend_from_slice(&valid_v1(9));
    let bits = a.verify_receipts_batch_bitset_bytes(CHAIN, &packed);
    assert_eq!(bits[0], 0);
    assert_eq!(bits[1], 0b0000_0001);
    assert!(bits[2..].iter().all(|b| *b == 0));
}

#[test]
fn bitset_over_capacity_is_zero() {
    let a = ready_anchor();
    let one = valid_v1(1);
    let mut packed = Vec::new();
    for _ in 0..257 {
        packed.extend_from_slice(&one);
    }
    assert_eq!(a.verify_receipts_batch_bitset(CHAIN, packed.clone()), [0u8; 32]);
    packed.truncate(137 * 256);
    assert_eq!(a.verify_receipts_batch_bitset(CHAIN, packed), [0xffu8; 32]);
}

#[test]
fn bitset_malformed_is_zero() {
    let a = ready_anchor();
    assert_eq!(a.verify_receipts_batch_bitset(CHAIN, vec![1u8; 140]), [0u8; 32]);
    assert_eq!(a.verify_receipts_batch_bitset(CHAIN, Vec::new()), [0u8; 32]);
}

#[test]
fn digests_batch_reads_records() {
    let a = ready_anchor();
    let mut packed = Vec::new();
    for c in [3u64, 1000] {
        packed.push(0u8);
        packed.extend_from_slice(&DEVICE);
        packed.extend_from_slice(&FIRMWARE);
        packed.extend_from_slice(&EXEC);
        packed.extend_from_slice(&c.to_be_bytes());
    }
    assert_eq!(packed.len(), 210);
    let digests = a.compute_receipt_digests_batch(CHAIN, packed.clone());
    assert_eq!(
        digests,
        vec![
            compute_digest(CHAIN, DEVICE, FIRMWARE, EXEC, 3),
            compute_digest(CHAIN, DEVICE, FIRMWARE, EXEC, 1000)
        ]
    );
    assert_eq!(compute_digest_from_packed_v1(CHAIN, &packed, 105), digests[1]);
    assert_eq!(a.compute_receipt_digests_batch(CHAIN, vec![0u8; 104]), Vec::<[u8; 32]>::new());
    assert_eq!(a.compute_receipt_digests_batch(CHAIN, Vec::new()), Vec::<[u8; 32]>::new());
}

#[test]
fn receipt_status_with_given_digest() {
    let mut a = ready_anchor();
    let x = [4u8; 32];
    assert_eq!(a.receipt_status(&DEVICE, &FIRMWARE, 1, &x, &x), Ok(()));
    assert_eq!(a.receipt_status(&DEVICE, &FIRMWARE, 1, &x, &[5u8; 32]), Err(HardwareAnchorError::DigestMismatch));
    assert_eq!(a.apply_receipt(DEVICE, FIRMWARE, 4, &x, &x), Ok(()));
    assert_eq!(a.get_counter(DEVICE), 4);
    assert_eq!(a.apply_receipt(DEVICE, FIRMWARE, 4, &x, &x), Err(HardwareAnchorError::ReplayDetected));
}
