//! The binding digest of a receipt: Keccak-256 over a fixed 125-byte layout.
use vstd::prelude::*;
use crate::bytes::{Bytes32, be_bytes_u64, push_be_u64, push_all, read_bytes32, read_be_u64, be_value_u64, lemma_be_u64_injective};

verus! {

/// Keccak-256 of a byte string.
pub uninterp spec fn keccak256_of(data: Seq<u8>) -> Seq<u8>;

/// Relies on alloy_primitives::keccak256 (re-exported by stylus_sdk): the
/// Keccak-256 hash of the given bytes, a function of those bytes alone.
#[verifier::external_body]
fn keccak256(data: &[u8]) -> (r: Bytes32)
    ensures
        r@ == keccak256_of(data@),
{
    stylus_sdk::alloy_primitives::keccak256(data).0
}

/// The domain-separation tag `anchor_RCT_V1` that opens every digest's material.
pub open spec fn domain_tag() -> Seq<u8> {
    seq![97u8, 110u8, 99u8, 104u8, 111u8, 114u8, 95u8, 82u8, 67u8, 84u8, 95u8, 86u8, 49u8]
}

/// The bytes that are hashed: tag, chain id, device, firmware, execution hash, counter.
pub open spec fn digest_material(
    chain_id: u64,
    device: Seq<u8>,
    firmware: Seq<u8>,
    execution: Seq<u8>,
    counter: u64,
) -> Seq<u8> {
    domain_tag() + be_bytes_u64(chain_id) + device + firmware + execution + be_bytes_u64(counter)
}

/// The digest that binds a receipt's fields to a chain.
pub open spec fn receipt_digest(
    chain_id: u64,
    device: Seq<u8>,
    firmware: Seq<u8>,
    execution: Seq<u8>,
    counter: u64,
) -> Seq<u8> {
    keccak256_of(digest_material(chain_id, device, firmware, execution, counter))
}

/// Computes the digest of a receipt for the given chain.
pub fn compute_digest(
    chain_id: u64,
    hw_id: Bytes32,
    fw_hash: Bytes32,
    exec_hash: Bytes32,
    counter: u64,
) -> (r: Bytes32)
    ensures
        r@ == receipt_digest(chain_id, hw_id@, fw_hash@, exec_hash@, counter),
        digest_material(chain_id, hw_id@, fw_hash@, exec_hash@, counter).len() == 125,
{
    let mut material: Vec<u8> = vec![97u8, 110u8, 99u8, 104u8, 111u8, 114u8, 95u8, 82u8, 67u8, 84u8, 95u8, 86u8, 49u8];
    assert(material@ =~= domain_tag());
    push_be_u64(&mut material, chain_id);
    push_all(&mut material, hw_id.as_slice());
    push_all(&mut material, fw_hash.as_slice());
    push_all(&mut material, exec_hash.as_slice());
    push_be_u64(&mut material, counter);
    keccak256(material.as_slice())
}

/// The fields of a 105-byte digest record: a leading byte that is not read,
/// then device, firmware, execution hash (32 bytes each) and a big-endian counter.
pub open spec fn packed_record_digest(chain_id: u64, rec: Seq<u8>) -> Seq<u8> {
    receipt_digest(
        chain_id,
        rec.subrange(1, 33),
        rec.subrange(33, 65),
        rec.subrange(65, 97),
        be_value_u64(rec.subrange(97, 105)),
    )
}

/// Computes the digest of the 105-byte record that starts at `start` in `packed`.
pub fn compute_digest_from_packed_v1(chain_id: u64, packed: &[u8], start: usize) -> (r: Bytes32)
    requires
        start + 105 <= packed@.len(),
    ensures
        r@ == packed_record_digest(chain_id, packed@.subrange(start as int, start + 105)),
{
    let rec = Ghost(packed@.subrange(start as int, start + 105));
    let _len = packed.len();
    let hw_id = read_bytes32(packed, start + 1);
    let fw_hash = read_bytes32(packed, start + 33);
    let exec_hash = read_bytes32(packed, start + 65);
    let counter = read_be_u64(packed, start + 97);
    assert(hw_id@ =~= rec@.subrange(1, 33));
    assert(fw_hash@ =~= rec@.subrange(33, 65));
    assert(exec_hash@ =~= rec@.subrange(65, 97));
    assert(packed@.subrange(start + 97, start + 105) =~= rec@.subrange(97, 105));
    compute_digest(chain_id, hw_id, fw_hash, exec_hash, counter)
}

/// The hashed material determines every input: two inputs of 32-byte
/// identifiers that differ in any field (chain id, device, firmware, execution
/// hash or counter) are hashed from different bytes. Equal inputs give the
/// same digest.
pub proof fn lemma_digest_material_injective(
    chain_a: u64,
    device_a: Seq<u8>,
    firmware_a: Seq<u8>,
    execution_a: Seq<u8>,
    counter_a: u64,
    chain_b: u64,
    device_b: Seq<u8>,
    firmware_b: Seq<u8>,
    execution_b: Seq<u8>,
    counter_b: u64,
)
    requires
        device_a.len() == 32,
        firmware_a.len() == 32,
        execution_a.len() == 32,
        device_b.len() == 32,
        firmware_b.len() == 32,
        execution_b.len() == 32,
    ensures
        digest_material(chain_a, device_a, firmware_a, execution_a, counter_a) == digest_material(
            chain_b,
            device_b,
            firmware_b,
            execution_b,
            counter_b,
        ) <==> (chain_a == chain_b && device_a == device_b && firmware_a == firmware_b
            && execution_a == execution_b && counter_a == counter_b),
        (chain_a == chain_b && device_a == device_b && firmware_a == firmware_b && execution_a
            == execution_b && counter_a == counter_b) ==> receipt_digest(
            chain_a,
            device_a,
            firmware_a,
            execution_a,
            counter_a,
        ) == receipt_digest(chain_b, device_b, firmware_b, execution_b, counter_b),
{
    let ma = digest_material(chain_a, device_a, firmware_a, execution_a, counter_a);
    let mb = digest_material(chain_b, device_b, firmware_b, execution_b, counter_b);
    if ma == mb {
        assert(ma.subrange(13, 21) =~= be_bytes_u64(chain_a));
        assert(mb.subrange(13, 21) =~= be_bytes_u64(chain_b));
        lemma_be_u64_injective(chain_a, chain_b);
        assert(ma.subrange(21, 53) =~= device_a);
        assert(mb.subrange(21, 53) =~= device_b);
        assert(ma.subrange(53, 85) =~= firmware_a);
        assert(mb.subrange(53, 85) =~= firmware_b);
        assert(ma.subrange(85, 117) =~= execution_a);
        assert(mb.subrange(85, 117) =~= execution_b);
        assert(ma.subrange(117, 125) =~= be_bytes_u64(counter_a));
        assert(mb.subrange(117, 125) =~= be_bytes_u64(counter_b));
        lemma_be_u64_injective(counter_a, counter_b);
    }
}

} // verus!
