//! Properties that relate several operations of the anchor, proved over its state model.
use vstd::prelude::*;
use crate::bytes::{be_bytes_u64, lemma_be_u64_round_trip};
use crate::anchor::{AnchorState, HardwareAnchorError, record_at, record_count};

verus! {

/// The fields of one receipt, as values.
pub struct ReceiptFields {
    pub device: Seq<u8>,
    pub firmware: Seq<u8>,
    pub execution: Seq<u8>,
    pub counter: u64,
    pub claimed: Seq<u8>,
}

/// Whether every identifier and digest of `r` is 32 bytes long.
pub open spec fn well_sized(r: ReceiptFields) -> bool {
    r.device.len() == 32 && r.firmware.len() == 32 && r.execution.len() == 32 && r.claimed.len() == 32
}

/// One `verify_receipt` call on `r`.
pub open spec fn receipt_step(s: AnchorState, chain_id: u64, r: ReceiptFields) -> (Result<(), HardwareAnchorError>, AnchorState) {
    s.verify_receipt_step(chain_id, r.device, r.firmware, r.execution, r.counter, r.claimed)
}

/// The state after `verify_receipt` is called on each of `rs` in turn.
pub open spec fn run_receipts(s: AnchorState, chain_id: u64, rs: Seq<ReceiptFields>) -> AnchorState
    decreases rs.len(),
{
    if rs.len() == 0 {
        s
    } else {
        run_receipts(receipt_step(s, chain_id, rs[0]).1, chain_id, rs.drop_first())
    }
}

/// The largest counter among the receipts of `rs` for `device` that were
/// accepted when called in turn from `s`; zero if none was.
pub open spec fn accepted_max(s: AnchorState, chain_id: u64, rs: Seq<ReceiptFields>, device: Seq<u8>) -> u64
    decreases rs.len(),
{
    if rs.len() == 0 {
        0
    } else {
        let step = receipt_step(s, chain_id, rs[0]);
        let rest = accepted_max(step.1, chain_id, rs.drop_first(), device);
        if step.0 is Ok && rs[0].device == device && rs[0].counter > rest {
            rs[0].counter
        } else {
            rest
        }
    }
}

/// The 137-byte packed form of a receipt: version tag 1, device, firmware,
/// execution hash, big-endian counter, claimed digest.
pub open spec fn encode_receipt_v1(r: ReceiptFields) -> Seq<u8> {
    seq![1u8] + r.device + r.firmware + r.execution + be_bytes_u64(r.counter) + r.claimed
}

/// The packed receipts of `rs`, one after another.
pub open spec fn encode_batch_v1(rs: Seq<ReceiptFields>) -> Seq<u8>
    decreases rs.len(),
{
    if rs.len() == 0 {
        Seq::empty()
    } else {
        encode_batch_v1(rs.drop_last()) + encode_receipt_v1(rs.last())
    }
}

/// Authorizing a device twice leaves it authorized, in the same state as
/// authorizing it once; revoking it after authorizing leaves it unauthorized.
/// The calls are the owner's.
pub proof fn lemma_authorize_idempotent(s: AnchorState, caller: Seq<u8>, device: Seq<u8>)
    requires
        caller == s.owner,
    ensures
        ({
            let once = s.set_node_step(caller, device, true);
            let twice = once.1.set_node_step(caller, device, true);
            &&& once.0 is Ok
            &&& twice.0 is Ok
            &&& twice.1 == once.1
            &&& twice.1.node_authorized(device)
        }),
        ({
            let granted = s.set_node_step(caller, device, true);
            let revoked = granted.1.set_node_step(caller, device, false);
            &&& revoked.0 is Ok
            &&& !revoked.1.node_authorized(device)
        }),
{
    let once = s.set_node_step(caller, device, true);
    let twice = once.1.set_node_step(caller, device, true);
    assert(twice.1.nodes =~= once.1.nodes);
}

/// After `verify_receipt` is called on a sequence of receipts, a device's
/// stored counter is the largest counter among its accepted receipts, or the
/// counter it had before if that is larger.
pub proof fn lemma_counter_is_max_accepted(s: AnchorState, chain_id: u64, rs: Seq<ReceiptFields>, device: Seq<u8>)
    ensures
        run_receipts(s, chain_id, rs).counter(device) == if accepted_max(s, chain_id, rs, device) > s.counter(device) {
            accepted_max(s, chain_id, rs, device)
        } else {
            s.counter(device)
        },
    decreases rs.len(),
{
    if rs.len() > 0 {
        let step = receipt_step(s, chain_id, rs[0]);
        lemma_counter_is_max_accepted(step.1, chain_id, rs.drop_first(), device);
        if step.0 is Ok && rs[0].device == device {
            assert(step.1.counter(device) == rs[0].counter);
            assert(rs[0].counter > s.counter(device));
        } else {
            assert(step.1.counter(device) == s.counter(device));
        }
    }
}

/// Once a receipt with counter `counter` is accepted for a device, every later
/// receipt for that device whose counter is not greater is refused as a
/// replay and changes nothing, whatever its digests.
pub proof fn lemma_replay_refused(
    s: AnchorState,
    chain_id: u64,
    r: ReceiptFields,
    counter2: u64,
    reconstructed2: Seq<u8>,
    claimed2: Seq<u8>,
)
    requires
        receipt_step(s, chain_id, r).0 is Ok,
        counter2 <= r.counter,
    ensures
        ({
            let after = receipt_step(s, chain_id, r).1;
            after.apply_step(r.device, r.firmware, counter2, reconstructed2, claimed2) == (
            Err::<(), HardwareAnchorError>(HardwareAnchorError::ReplayDetected), after)
        }),
{
}

/// The packed batch of `rs` holds 137 bytes per receipt, receipt `i` at index `i`.
pub proof fn lemma_encode_batch_layout(rs: Seq<ReceiptFields>)
    requires
        forall|i: int| 0 <= i < rs.len() ==> well_sized(#[trigger] rs[i]),
    ensures
        encode_batch_v1(rs).len() == 137 * rs.len(),
        forall|i: int| 0 <= i < rs.len() ==> #[trigger] record_at(encode_batch_v1(rs), i, 137) == encode_receipt_v1(rs[i]),
    decreases rs.len(),
{
    if rs.len() > 0 {
        let front = rs.drop_last();
        assert forall|i: int| 0 <= i < front.len() implies well_sized(#[trigger] front[i]) by {
            assert(front[i] == rs[i]);
        }
        lemma_encode_batch_layout(front);
        let enc = encode_batch_v1(rs);
        let head = encode_batch_v1(front);
        assert(enc == head + encode_receipt_v1(rs.last()));
        assert forall|i: int| 0 <= i < rs.len() implies #[trigger] record_at(enc, i, 137) == encode_receipt_v1(rs[i]) by {
            if i < front.len() {
                assert(record_at(head, i, 137) == encode_receipt_v1(front[i]));
                assert(record_at(enc, i, 137) =~= record_at(head, i, 137));
            } else {
                assert(record_at(enc, i, 137) =~= encode_receipt_v1(rs.last()));
            }
        }
    }
}

/// Packing receipts that would each pass against the stored state and
/// checking the batch reports every one of them as passing.
pub proof fn lemma_batch_round_trip(s: AnchorState, chain_id: u64, rs: Seq<ReceiptFields>)
    requires
        forall|i: int| 0 <= i < rs.len() ==> well_sized(#[trigger] rs[i]),
        forall|i: int| 0 <= i < rs.len() ==> (#[trigger] s.verify_outcome(
            chain_id,
            rs[i].device,
            rs[i].firmware,
            rs[i].execution,
            rs[i].counter,
            rs[i].claimed,
        )) is Ok,
    ensures
        s.batch_results(chain_id, encode_batch_v1(rs)) == Seq::new(rs.len(), |i: int| true),
{
    lemma_encode_batch_layout(rs);
    let enc = encode_batch_v1(rs);
    let n = rs.len();
    if n > 0 {
        assert((137 * n) % 137 == 0 && (137 * n) / 137 == n) by (nonlinear_arith);
    }
    assert(record_count(enc.len(), 137) == n);
    assert forall|i: int| 0 <= i < n implies #[trigger] s.packed_receipt_passes(chain_id, record_at(enc, i, 137)) by {
        let r = rs[i];
        let rec = record_at(enc, i, 137);
        assert(rec == encode_receipt_v1(r));
        lemma_be_u64_round_trip(r.counter);
        assert(rec.subrange(1, 33) =~= r.device);
        assert(rec.subrange(33, 65) =~= r.firmware);
        assert(rec.subrange(65, 97) =~= r.execution);
        assert(rec.subrange(97, 105) =~= be_bytes_u64(r.counter));
        assert(rec.subrange(105, 137) =~= r.claimed);
    }
    assert(s.batch_results(chain_id, enc) =~= Seq::new(n, |i: int| true));
}

/// Every owner-only operation called by anyone but the owner is refused with
/// `UnauthorizedCaller` and leaves the state as it was.
pub proof fn lemma_owner_gating(s: AnchorState, caller: Seq<u8>, id: Seq<u8>, flag: bool, new_owner: Seq<u8>)
    requires
        caller != s.owner,
    ensures
        s.set_node_step(caller, id, flag) == (Err::<(), HardwareAnchorError>(HardwareAnchorError::UnauthorizedCaller), s),
        s.set_firmware_step(caller, id, flag) == (Err::<(), HardwareAnchorError>(HardwareAnchorError::UnauthorizedCaller), s),
        s.transfer_ownership_step(caller, new_owner) == (Err::<(), HardwareAnchorError>(HardwareAnchorError::UnauthorizedCaller), s),
{
}

} // verus!
