//! The anchor's state: owner, authorized devices, approved firmware and
//! per-device replay counters, with the operations that read and change it.
use vstd::prelude::*;
use crate::bytes::{Address, Bytes32, be_value_u64, bytes_eq, read_bytes32, read_be_u64};
use crate::digest::{receipt_digest, compute_digest, compute_digest_from_packed_v1, packed_record_digest};
use crate::store::KeyedStore;

verus! {

/// Length of a packed receipt that carries a claimed digest.
pub const PACKED_RECEIPT_LEN: usize = 137;

/// Length of a packed record that is only hashed.
pub const PACKED_RECEIPT_V2_LEN: usize = 105;

/// Most receipts that a bitset summary can report on.
pub const BITSET_CAPACITY: usize = 256;

/// Why an operation was refused.
#[derive(Debug, Clone, Copy, PartialEq, Eq, Structural)]
pub enum HardwareAnchorError {
    AlreadyInitialized,
    UnauthorizedCaller,
    UnauthorizedHardware,
    FirmwareNotApproved,
    ReplayDetected,
    DigestMismatch,
    InvalidOwner,
}

/// The all-zero address, which marks an anchor with no owner yet.
pub open spec fn zero_address() -> Seq<u8> {
    Seq::new(20, |i: int| 0u8)
}

/// The number of whole records of `width` bytes in a buffer of `len` bytes;
/// an empty buffer or one whose length is not a multiple of `width` holds none.
pub open spec fn record_count(len: nat, width: nat) -> nat
    recommends
        width > 0,
{
    if len > 0 && len % width == 0 {
        len / width
    } else {
        0
    }
}

/// The `i`-th record of `width` bytes in `packed`.
pub open spec fn record_at(packed: Seq<u8>, i: int, width: int) -> Seq<u8> {
    packed.subrange(i * width, i * width + width)
}

/// Bit `i` of a little-endian bitset: bit `i % 8` of byte `i / 8`.
pub open spec fn bit_set(bits: Seq<u8>, i: int) -> bool {
    (bits[i / 8] >> ((i % 8) as u8)) & 1u8 == 1u8
}

/// The anchor's state as values.
pub struct AnchorState {
    pub owner: Seq<u8>,
    pub nodes: Map<Seq<u8>, bool>,
    pub firmware: Map<Seq<u8>, bool>,
    pub counters: Map<Seq<u8>, u64>,
}

impl AnchorState {
    /// The state of a fresh anchor: no owner, nothing authorized, every counter zero.
    pub open spec fn empty() -> AnchorState {
        AnchorState {
            owner: zero_address(),
            nodes: Map::empty(),
            firmware: Map::empty(),
            counters: Map::empty(),
        }
    }

    pub open spec fn node_authorized(self, device: Seq<u8>) -> bool {
        self.nodes.contains_key(device) && self.nodes[device]
    }

    pub open spec fn firmware_approved(self, firmware: Seq<u8>) -> bool {
        self.firmware.contains_key(firmware) && self.firmware[firmware]
    }

    /// The highest counter accepted for `device`, zero if none was.
    pub open spec fn counter(self, device: Seq<u8>) -> u64 {
        if self.counters.contains_key(device) {
            self.counters[device]
        } else {
            0
        }
    }

    pub open spec fn initialize_step(self, caller: Seq<u8>) -> (Result<(), HardwareAnchorError>, AnchorState) {
        if self.owner != zero_address() {
            (Err(HardwareAnchorError::AlreadyInitialized), self)
        } else {
            (Ok(()), AnchorState { owner: caller, ..self })
        }
    }

    pub open spec fn set_node_step(self, caller: Seq<u8>, device: Seq<u8>, flag: bool) -> (Result<(), HardwareAnchorError>, AnchorState) {
        if caller != self.owner {
            (Err(HardwareAnchorError::UnauthorizedCaller), self)
        } else {
            (Ok(()), AnchorState { nodes: self.nodes.insert(device, flag), ..self })
        }
    }

    pub open spec fn set_firmware_step(self, caller: Seq<u8>, firmware: Seq<u8>, flag: bool) -> (Result<(), HardwareAnchorError>, AnchorState) {
        if caller != self.owner {
            (Err(HardwareAnchorError::UnauthorizedCaller), self)
        } else {
            (Ok(()), AnchorState { firmware: self.firmware.insert(firmware, flag), ..self })
        }
    }

    pub open spec fn transfer_ownership_step(self, caller: Seq<u8>, new_owner: Seq<u8>) -> (Result<(), HardwareAnchorError>, AnchorState) {
        if caller != self.owner {
            (Err(HardwareAnchorError::UnauthorizedCaller), self)
        } else if new_owner == zero_address() {
            (Err(HardwareAnchorError::InvalidOwner), self)
        } else {
            (Ok(()), AnchorState { owner: new_owner, ..self })
        }
    }

    /// The four gates of a receipt, in order, given the digest recomputed for it.
    pub open spec fn receipt_outcome(
        self,
        device: Seq<u8>,
        firmware: Seq<u8>,
        counter: u64,
        reconstructed: Seq<u8>,
        claimed: Seq<u8>,
    ) -> Result<(), HardwareAnchorError> {
        if !self.node_authorized(device) {
            Err(HardwareAnchorError::UnauthorizedHardware)
        } else if !self.firmware_approved(firmware) {
            Err(HardwareAnchorError::FirmwareNotApproved)
        } else if counter <= self.counter(device) {
            Err(HardwareAnchorError::ReplayDetected)
        } else if reconstructed != claimed {
            Err(HardwareAnchorError::DigestMismatch)
        } else {
            Ok(())
        }
    }

    /// Passing every gate records `counter` for `device`; failing one changes nothing.
    pub open spec fn apply_step(
        self,
        device: Seq<u8>,
        firmware: Seq<u8>,
        counter: u64,
        reconstructed: Seq<u8>,
        claimed: Seq<u8>,
    ) -> (Result<(), HardwareAnchorError>, AnchorState) {
        match self.receipt_outcome(device, firmware, counter, reconstructed, claimed) {
            Ok(()) => (Ok(()), AnchorState { counters: self.counters.insert(device, counter), ..self }),
            Err(e) => (Err(e), self),
        }
    }

    /// The gates of a receipt with its digest recomputed for `chain_id`.
    pub open spec fn verify_outcome(
        self,
        chain_id: u64,
        device: Seq<u8>,
        firmware: Seq<u8>,
        execution: Seq<u8>,
        counter: u64,
        claimed: Seq<u8>,
    ) -> Result<(), HardwareAnchorError> {
        self.receipt_outcome(device, firmware, counter, receipt_digest(chain_id, device, firmware, execution, counter), claimed)
    }

    pub open spec fn verify_receipt_step(
        self,
        chain_id: u64,
        device: Seq<u8>,
        firmware: Seq<u8>,
        execution: Seq<u8>,
        counter: u64,
        claimed: Seq<u8>,
    ) -> (Result<(), HardwareAnchorError>, AnchorState) {
        self.apply_step(device, firmware, counter, receipt_digest(chain_id, device, firmware, execution, counter), claimed)
    }

    /// Whether a 137-byte packed receipt carries version tag 1 and would pass
    /// every gate against this state, without changing it.
    pub open spec fn packed_receipt_passes(self, chain_id: u64, rec: Seq<u8>) -> bool {
        &&& rec.len() == 137
        &&& rec[0] == 1u8
        &&& self.verify_outcome(
            chain_id,
            rec.subrange(1, 33),
            rec.subrange(33, 65),
            rec.subrange(65, 97),
            be_value_u64(rec.subrange(97, 105)),
            rec.subrange(105, 137),
        ) is Ok
    }

    /// One verdict per whole 137-byte receipt of `packed`, in order.
    pub open spec fn batch_results(self, chain_id: u64, packed: Seq<u8>) -> Seq<bool> {
        Seq::new(
            record_count(packed.len(), 137),
            |i: int| self.packed_receipt_passes(chain_id, record_at(packed, i, 137)),
        )
    }
}

/// The verification engine and the state it owns.
pub struct StylusHardwareAnchor {
    owner: Address,
    authorized_nodes: KeyedStore<bool>,
    approved_firmware: KeyedStore<bool>,
    counters: KeyedStore<u64>,
}

impl View for StylusHardwareAnchor {
    type V = AnchorState;

    closed spec fn view(&self) -> AnchorState {
        AnchorState {
            owner: self.owner@,
            nodes: self.authorized_nodes@,
            firmware: self.approved_firmware@,
            counters: self.counters@,
        }
    }
}

/// A record of `width` bytes at index `i < count` lies inside the buffer.
proof fn lemma_record_fits(i: int, count: int, len: int, width: int)
    requires
        0 <= i < count,
        width > 0,
        count == len / width,
        len >= 0,
    ensures
        i * width + width <= len,
{
    assert(i * width + width <= count * width) by (nonlinear_arith)
        requires
            i < count,
            width > 0,
    ;
    assert(count * width <= len) by (nonlinear_arith)
        requires
            count == len / width,
            width > 0,
            len >= 0,
    ;
}

/// Setting bit `k` of `b` sets that bit and keeps every other.
proof fn lemma_set_bit(b: u8, k: u8, m: u8)
    requires
        k < 8,
        m < 8,
    ensures
        ((b | (1u8 << k)) >> m) & 1u8 == (if m == k {
            1u8
        } else {
            (b >> m) & 1u8
        }),
{
    if m == k {
        assert(((b | (1u8 << k)) >> m) & 1u8 == 1u8) by (bit_vector)
            requires
                k < 8,
                m == k,
        ;
    } else {
        assert(((b | (1u8 << k)) >> m) & 1u8 == (b >> m) & 1u8) by (bit_vector)
            requires
                k < 8,
                m < 8,
                m != k,
        ;
    }
}

impl StylusHardwareAnchor {
    pub closed spec fn wf(&self) -> bool {
        &&& self.authorized_nodes.wf()
        &&& self.approved_firmware.wf()
        &&& self.counters.wf()
    }

    /// A fresh anchor with no owner.
    pub fn new() -> (r: Self)
        ensures
            r.wf(),
            r@ == AnchorState::empty(),
    {
        let r = StylusHardwareAnchor {
            owner: [0u8; 20],
            authorized_nodes: KeyedStore::new(),
            approved_firmware: KeyedStore::new(),
            counters: KeyedStore::new(),
        };
        assert(r.owner@ =~= zero_address());
        r
    }

    fn is_owner(&self, caller: &Address) -> (r: bool)
        ensures
            r == (caller@ == self@.owner),
    {
        bytes_eq(caller.as_slice(), self.owner.as_slice())
    }

    /// Makes `caller` the owner of an anchor that has none.
    pub fn initialize(&mut self, caller: Address) -> (r: Result<(), HardwareAnchorError>)
        requires
            old(self).wf(),
        ensures
            final(self).wf(),
            (r, final(self)@) == old(self)@.initialize_step(caller@),
    {
        let zero: Address = [0u8; 20];
        assert(zero@ =~= zero_address());
        if !bytes_eq(self.owner.as_slice(), zero.as_slice()) {
            return Err(HardwareAnchorError::AlreadyInitialized);
        }
        self.owner = caller;
        Ok(())
    }

    /// Checks the four gates of a receipt against the stored state, given the
    /// digest recomputed for it, without changing anything.
    pub fn receipt_status(
        &self,
        hw_id: &Bytes32,
        fw_hash: &Bytes32,
        counter: u64,
        reconstructed: &Bytes32,
        claimed_digest: &Bytes32,
    ) -> (r: Result<(), HardwareAnchorError>)
        requires
            self.wf(),
        ensures
            r == self@.receipt_outcome(hw_id@, fw_hash@, counter, reconstructed@, claimed_digest@),
    {
        match self.authorized_nodes.get(hw_id) {
            Some(true) => {},
            _ => return Err(HardwareAnchorError::UnauthorizedHardware),
        }
        match self.approved_firmware.get(fw_hash) {
            Some(true) => {},
            _ => return Err(HardwareAnchorError::FirmwareNotApproved),
        }
        let last_counter = match self.counters.get(hw_id) {
            Some(c) => c,
            None => 0,
        };
        if counter <= last_counter {
            return Err(HardwareAnchorError::ReplayDetected);
        }
        if !bytes_eq(reconstructed.as_slice(), claimed_digest.as_slice()) {
            return Err(HardwareAnchorError::DigestMismatch);
        }
        Ok(())
    }

    /// Checks the four gates given the recomputed digest and, when all pass,
    /// records `counter` as the device's latest.
    pub fn apply_receipt(
        &mut self,
        hw_id: Bytes32,
        fw_hash: Bytes32,
        counter: u64,
        reconstructed: &Bytes32,
        claimed_digest: &Bytes32,
    ) -> (r: Result<(), HardwareAnchorError>)
        requires
            old(self).wf(),
        ensures
            final(self).wf(),
            (r, final(self)@) == old(self)@.apply_step(hw_id@, fw_hash@, counter, reconstructed@, claimed_digest@),
    {
        let status = self.receipt_status(&hw_id, &fw_hash, counter, reconstructed, claimed_digest);
        match status {
            Ok(()) => {
                self.counters.insert(hw_id, counter);
                Ok(())
            },
            Err(e) => Err(e),
        }
    }

    /// Verifies one receipt for the chain `chain_id` and, when it passes,
    /// records its counter; a refused receipt changes nothing.
    pub fn verify_receipt(
        &mut self,
        chain_id: u64,
        hw_id: Bytes32,
        fw_hash: Bytes32,
        exec_hash: Bytes32,
        counter: u64,
        claimed_digest: Bytes32,
    ) -> (r: Result<(), HardwareAnchorError>)
        requires
            old(self).wf(),
        ensures
            final(self).wf(),
            (r, final(self)@) == old(self)@.verify_receipt_step(chain_id, hw_id@, fw_hash@, exec_hash@, counter, claimed_digest@),
    {
        let reconstructed = compute_digest(chain_id, hw_id, fw_hash, exec_hash, counter);
        self.apply_receipt(hw_id, fw_hash, counter, &reconstructed, &claimed_digest)
    }

    /// Marks `node_id` as authorized hardware; owner only.
    pub fn authorize_node(&mut self, caller: Address, node_id: Bytes32) -> (r: Result<(), HardwareAnchorError>)
        requires
            old(self).wf(),
        ensures
            final(self).wf(),
            (r, final(self)@) == old(self)@.set_node_step(caller@, node_id@, true),
    {
        if !self.is_owner(&caller) {
            return Err(HardwareAnchorError::UnauthorizedCaller);
        }
        self.authorized_nodes.insert(node_id, true);
        Ok(())
    }

    /// Marks `node_id` as no longer authorized; owner only.
    pub fn revoke_node(&mut self, caller: Address, node_id: Bytes32) -> (r: Result<(), HardwareAnchorError>)
        requires
            old(self).wf(),
        ensures
            final(self).wf(),
            (r, final(self)@) == old(self)@.set_node_step(caller@, node_id@, false),
    {
        if !self.is_owner(&caller) {
            return Err(HardwareAnchorError::UnauthorizedCaller);
        }
        self.authorized_nodes.insert(node_id, false);
        Ok(())
    }

    /// Marks `fw_hash` as approved firmware; owner only.
    pub fn approve_firmware(&mut self, caller: Address, fw_hash: Bytes32) -> (r: Result<(), HardwareAnchorError>)
        requires
            old(self).wf(),
        ensures
            final(self).wf(),
            (r, final(self)@) == old(self)@.set_firmware_step(caller@, fw_hash@, true),
    {
        if !self.is_owner(&caller) {
            return Err(HardwareAnchorError::UnauthorizedCaller);
        }
        self.approved_firmware.insert(fw_hash, true);
        Ok(())
    }

    /// Marks `fw_hash` as no longer approved; owner only.
    pub fn revoke_firmware(&mut self, caller: Address, fw_hash: Bytes32) -> (r: Result<(), HardwareAnchorError>)
        requires
            old(self).wf(),
        ensures
            final(self).wf(),
            (r, final(self)@) == old(self)@.set_firmware_step(caller@, fw_hash@, false),
    {
        if !self.is_owner(&caller) {
            return Err(HardwareAnchorError::UnauthorizedCaller);
        }
        self.approved_firmware.insert(fw_hash, false);
        Ok(())
    }

    /// Hands ownership to a non-zero `new_owner`; owner only.
    pub fn transfer_ownership(&mut self, caller: Address, new_owner: Address) -> (r: Result<(), HardwareAnchorError>)
        requires
            old(self).wf(),
        ensures
            final(self).wf(),
            (r, final(self)@) == old(self)@.transfer_ownership_step(caller@, new_owner@),
    {
        if !self.is_owner(&caller) {
            return Err(HardwareAnchorError::UnauthorizedCaller);
        }
        let zero: Address = [0u8; 20];
        assert(zero@ =~= zero_address());
        if bytes_eq(new_owner.as_slice(), zero.as_slice()) {
            return Err(HardwareAnchorError::InvalidOwner);
        }
        self.owner = new_owner;
        Ok(())
    }

    pub fn get_owner(&self) -> (r: Address)
        ensures
            r@ == self@.owner,
    {
        self.owner
    }

    pub fn is_node_authorized(&self, node_id: Bytes32) -> (r: bool)
        requires
            self.wf(),
        ensures
            r == self@.node_authorized(node_id@),
    {
        match self.authorized_nodes.get(&node_id) {
            Some(flag) => flag,
            None => false,
        }
    }

    pub fn is_firmware_approved(&self, fw_hash: Bytes32) -> (r: bool)
        requires
            self.wf(),
        ensures
            r == self@.firmware_approved(fw_hash@),
    {
        match self.approved_firmware.get(&fw_hash) {
            Some(flag) => flag,
            None => false,
        }
    }

    /// The highest counter accepted for `node_id`, zero if none was.
    pub fn get_counter(&self, node_id: Bytes32) -> (r: u64)
        requires
            self.wf(),
        ensures
            r == self@.counter(node_id@),
    {
        match self.counters.get(&node_id) {
            Some(c) => c,
            None => 0,
        }
    }

    /// Reports, for each 137-byte receipt of `packed` in order, whether it would
    /// pass against the stored state; nothing is recorded. A buffer that is
    /// empty or not a whole number of receipts gives no results.
    pub fn verify_receipts_batch_bytes(&self, chain_id: u64, packed: &[u8]) -> (r: Vec<bool>)
        requires
            self.wf(),
        ensures
            r@ == self@.batch_results(chain_id, packed@),
            packed@.len() % 137 != 0 ==> r@.len() == 0,
            packed@.len() % 137 == 0 ==> r@.len() == packed@.len() / 137,
    {
        let n = packed.len();
        if n == 0 || n % PACKED_RECEIPT_LEN != 0 {
            assert(self@.batch_results(chain_id, packed@) =~= Seq::<bool>::empty());
            return Vec::new();
        }
        let count = n / PACKED_RECEIPT_LEN;
        let mut results: Vec<bool> = Vec::with_capacity(count);
        let mut i: usize = 0;
        while i < count
            invariant
                self.wf(),
                n == packed@.len(),
                count == n / 137,
                count == record_count(n as nat, 137),
                0 <= i <= count,
                results@.len() == i,
                forall|j: int| 0 <= j < i ==> results@[j] == #[trigger] self@.batch_results(chain_id, packed@)[j],
            decreases count - i,
        {
            proof {
                lemma_record_fits(i as int, count as int, n as int, 137);
            }
            let start = i * PACKED_RECEIPT_LEN;
            results.push(self.verify_packed_receipt(chain_id, packed, start));
            i = i + 1;
        }
        assert(results@ =~= self@.batch_results(chain_id, packed@));
        results
    }

    /// As [`Self::verify_receipts_batch_bytes`], on an owned buffer.
    pub fn verify_receipts_batch(&self, chain_id: u64, packed: Vec<u8>) -> (r: Vec<bool>)
        requires
            self.wf(),
        ensures
            r@ == self@.batch_results(chain_id, packed@),
            packed@.len() % 137 != 0 ==> r@.len() == 0,
            packed@.len() % 137 == 0 ==> r@.len() == packed@.len() / 137,
    {
        self.verify_receipts_batch_bytes(chain_id, packed.as_slice())
    }

    /// Summarizes, as a bitset, which 137-byte receipts of `packed` would pass:
    /// bit `i` is set exactly when receipt `i` would. A malformed buffer, or one
    /// of more than 256 receipts, gives all zero bits.
    pub fn verify_receipts_batch_bitset_bytes(&self, chain_id: u64, packed: &[u8]) -> (r: Bytes32)
        requires
            self.wf(),
        ensures
            self@.batch_results(chain_id, packed@).len() > 256 ==> r@ == Seq::new(32, |k: int| 0u8),
            self@.batch_results(chain_id, packed@).len() <= 256 ==> forall|i: int| 0 <= i < 256 ==>
                #[trigger] bit_set(r@, i) == (i < self@.batch_results(chain_id, packed@).len()
                    && self@.batch_results(chain_id, packed@)[i]),
    {
        let ghost res = self@.batch_results(chain_id, packed@);
        let mut bits: Bytes32 = [0u8; 32];
        proof {
            assert(forall|k: u8| #[trigger] ((0u8 >> k) & 1u8) == 0u8) by (bit_vector);
            assert(bits@ =~= Seq::new(32, |k: int| 0u8));
        }
        let n = packed.len();
        if n == 0 || n % PACKED_RECEIPT_LEN != 0 {
            return bits;
        }
        let count = n / PACKED_RECEIPT_LEN;
        if count > BITSET_CAPACITY {
            return bits;
        }
        let mut i: usize = 0;
        while i < count
            invariant
                self.wf(),
                res == self@.batch_results(chain_id, packed@),
                n == packed@.len(),
                count == n / 137,
                count == res.len(),
                count <= 256,
                0 <= i <= count,
                bits@.len() == 32,
                forall|j: int| 0 <= j < 256 ==> #[trigger] bit_set(bits@, j) == (j < i && res[j]),
            decreases count - i,
        {
            proof {
                lemma_record_fits(i as int, count as int, n as int, 137);
            }
            let start = i * PACKED_RECEIPT_LEN;
            if self.verify_packed_receipt(chain_id, packed, start) {
                let byte_index = i / 8;
                let bit_index = (i % 8) as u8;
                let ghost before = bits@;
                bits[byte_index] = bits[byte_index] | (1u8 << bit_index);
                proof {
                    assert forall|j: int| 0 <= j < 256 implies #[trigger] bit_set(bits@, j) == (j < i + 1 && res[j]) by {
                        if j / 8 == byte_index {
                            lemma_set_bit(before[j / 8], bit_index, (j % 8) as u8);
                            assert(bit_set(before, j) == (j < i && res[j]));
                        } else {
                            assert(bits@[j / 8] == before[j / 8]);
                            assert(bit_set(before, j) == (j < i && res[j]));
                        }
                    }
                }
            } else {
                assert forall|j: int| 0 <= j < 256 implies #[trigger] bit_set(bits@, j) == (j < i + 1 && res[j]) by {
                    assert(bit_set(bits@, j) == (j < i && res[j]));
                }
            }
            i = i + 1;
        }
        bits
    }

    /// As [`Self::verify_receipts_batch_bitset_bytes`], on an owned buffer.
    pub fn verify_receipts_batch_bitset(&self, chain_id: u64, packed: Vec<u8>) -> (r: Bytes32)
        requires
            self.wf(),
        ensures
            self@.batch_results(chain_id, packed@).len() > 256 ==> r@ == Seq::new(32, |k: int| 0u8),
            self@.batch_results(chain_id, packed@).len() <= 256 ==> forall|i: int| 0 <= i < 256 ==>
                #[trigger] bit_set(r@, i) == (i < self@.batch_results(chain_id, packed@).len()
                    && self@.batch_results(chain_id, packed@)[i]),
    {
        self.verify_receipts_batch_bitset_bytes(chain_id, packed.as_slice())
    }

    /// The digest of each 105-byte record of `packed`, in order, for the chain
    /// `chain_id`; no gate is checked. A buffer that is empty or not a whole
    /// number of records gives no digests.
    pub fn compute_receipt_digests_batch(&self, chain_id: u64, packed: Vec<u8>) -> (r: Vec<Bytes32>)
        ensures
            r@.len() == record_count(packed@.len(), 105),
            forall|i: int| 0 <= i < r@.len() ==> (#[trigger] r@[i])@ == packed_record_digest(chain_id, record_at(packed@, i, 105)),
    {
        let n = packed.len();
        if n == 0 || n % PACKED_RECEIPT_V2_LEN != 0 {
            return Vec::new();
        }
        let count = n / PACKED_RECEIPT_V2_LEN;
        let mut digests: Vec<Bytes32> = Vec::with_capacity(count);
        let mut i: usize = 0;
        while i < count
            invariant
                n == packed@.len(),
                count == n / 105,
                count == record_count(n as nat, 105),
                0 <= i <= count,
                digests@.len() == i,
                forall|j: int| 0 <= j < i ==> (#[trigger] digests@[j])@ == packed_record_digest(chain_id, record_at(packed@, j, 105)),
            decreases count - i,
        {
            proof {
                lemma_record_fits(i as int, count as int, n as int, 105);
            }
            let start = i * PACKED_RECEIPT_V2_LEN;
            digests.push(compute_digest_from_packed_v1(chain_id, packed.as_slice(), start));
            i = i + 1;
        }
        digests
    }

    /// Whether the 137-byte receipt at `start` in `packed` would pass.
    fn verify_packed_receipt(&self, chain_id: u64, packed: &[u8], start: usize) -> (r: bool)
        requires
            self.wf(),
            start + 137 <= packed@.len(),
        ensures
            r == self@.packed_receipt_passes(chain_id, packed@.subrange(start as int, start + 137)),
    {
        let rec = Ghost(packed@.subrange(start as int, start + 137));
        let _len = packed.len();
        if packed[start] != 1u8 {
            return false;
        }
        let hw_id = read_bytes32(packed, start + 1);
        let fw_hash = read_bytes32(packed, start + 33);
        let exec_hash = read_bytes32(packed, start + 65);
        let counter = read_be_u64(packed, start + 97);
        let claimed_digest = read_bytes32(packed, start + 105);
        assert(hw_id@ =~= rec@.subrange(1, 33));
        assert(fw_hash@ =~= rec@.subrange(33, 65));
        assert(exec_hash@ =~= rec@.subrange(65, 97));
        assert(claimed_digest@ =~= rec@.subrange(105, 137));
        assert(packed@.subrange(start + 97, start + 105) =~= rec@.subrange(97, 105));
        let reconstructed = compute_digest(chain_id, hw_id, fw_hash, exec_hash, counter);
        self.receipt_status(&hw_id, &fw_hash, counter, &reconstructed, &claimed_digest).is_ok()
    }
}

} // verus!
