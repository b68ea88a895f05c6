use super::params_holder::{default_params, ParamsHolder};
use crate::codec::{le_encode, le_value, u64_from_le_bytes, u64_to_le_bytes};
use vstd::prelude::*;

verus! {

/// Category byte of the stored protocol params; the second byte of a key says which param it is.
pub const PARAMS_CATEGORY_CASUAL: u8 = 0x00;

/// A write to the stored params: the two-byte key and the value bytes.
pub type ParamsDiskOp = ([u8; 2], Vec<u8>);

/// A stored flag: its first byte is nonzero, true when it has none.
pub open spec fn stored_flag(value: Seq<u8>) -> bool {
    if value.len() == 0 {
        true
    } else {
        value[0] != 0
    }
}

/// The params after one stored entry is read: a key that is not two bytes long, of another
/// category or of an unknown param is skipped, and so is an amount that is not eight bytes long.
pub open spec fn entry_read(h: ParamsHolder, key: Seq<u8>, value: Seq<u8>) -> ParamsHolder {
    if key.len() != 2 || key[0] != PARAMS_CATEGORY_CASUAL {
        h
    } else if key[1] == 0 {
        ParamsHolder { account_can_initially_deploy_liquidity: stored_flag(value), ..h }
    } else if key[1] == 1 {
        ParamsHolder { account_can_initially_deploy_contract: stored_flag(value), ..h }
    } else if value.len() != 8 {
        h
    } else {
        let v = le_value(value) as u64;
        if key[1] == 2 {
            ParamsHolder { move_entry_base_fee: v, ..h }
        } else if key[1] == 3 {
            ParamsHolder { call_entry_base_fee: v, ..h }
        } else if key[1] == 4 {
            ParamsHolder { call_entry_ppm_calldata_bytesize_fee: v, ..h }
        } else if key[1] == 5 {
            ParamsHolder { liftup_entry_base_fee: v, ..h }
        } else if key[1] == 6 {
            ParamsHolder { liftup_entry_per_lift_base_fee: v, ..h }
        } else if key[1] == 7 {
            ParamsHolder { move_ppm_liquidity_fee: v, ..h }
        } else if key[1] == 8 {
            ParamsHolder { in_call_ppm_liquidity_fee: v, ..h }
        } else {
            h
        }
    }
}

/// The params stored by the given entries, read in order over the default params.
pub open spec fn params_loaded(entries: Seq<(Vec<u8>, Vec<u8>)>) -> ParamsHolder
    decreases entries.len(),
{
    if entries.len() == 0 {
        default_params()
    } else {
        entry_read(params_loaded(entries.drop_last()), entries.last().0@, entries.last().1@)
    }
}

/// The byte that stores a flag.
pub open spec fn flag_byte(b: bool) -> u8 {
    if b {
        1
    } else {
        0
    }
}

/// The key of a param.
pub open spec fn param_key(index: u8) -> Seq<u8> {
    seq![PARAMS_CATEGORY_CASUAL, index]
}

/// The writes that store params, one per param in key order: flags as one byte, amounts as eight
/// little-endian bytes.
pub open spec fn params_writes(h: ParamsHolder) -> Seq<(Seq<u8>, Seq<u8>)> {
    seq![
        (param_key(0), seq![flag_byte(h.account_can_initially_deploy_liquidity)]),
        (param_key(1), seq![flag_byte(h.account_can_initially_deploy_contract)]),
        (param_key(2), le_encode(h.move_entry_base_fee as nat, 8)),
        (param_key(3), le_encode(h.call_entry_base_fee as nat, 8)),
        (param_key(4), le_encode(h.call_entry_ppm_calldata_bytesize_fee as nat, 8)),
        (param_key(5), le_encode(h.liftup_entry_base_fee as nat, 8)),
        (param_key(6), le_encode(h.liftup_entry_per_lift_base_fee as nat, 8)),
        (param_key(7), le_encode(h.move_ppm_liquidity_fee as nat, 8)),
        (param_key(8), le_encode(h.in_call_ppm_liquidity_fee as nat, 8)),
    ]
}

/// The views of writes.
pub open spec fn writes_view(ops: Seq<ParamsDiskOp>) -> Seq<(Seq<u8>, Seq<u8>)> {
    ops.map_values(|op: ParamsDiskOp| (op.0@, op.1@))
}

/// The abstract state of a params manager.
pub struct ParamsManagerView {
    /// The permanent params.
    pub params: ParamsHolder,
    /// The ephemerally updated params, if any.
    pub delta: Option<ParamsHolder>,
    /// Backup of the ephemeral update, for rollback.
    pub backup: Option<ParamsHolder>,
}

impl ParamsManagerView {
    /// The params as currently updated: the ephemeral ones if any, else the permanent ones.
    pub open spec fn ephemeral(self) -> ParamsHolder {
        match self.delta {
            Some(h) => h,
            None => self.params,
        }
    }

    /// The state with the ephemeral params replaced.
    pub open spec fn with_ephemeral(self, h: ParamsHolder) -> Self {
        ParamsManagerView { delta: Some(h), ..self }
    }
}

/// Keeps the protocol params, with an ephemeral update on top.
pub struct ParamsManager {
    in_memory_params_holder: ParamsHolder,
    delta: Option<ParamsHolder>,
    backup_of_delta: Option<ParamsHolder>,
}

impl View for ParamsManager {
    type V = ParamsManagerView;

    closed spec fn view(&self) -> ParamsManagerView {
        ParamsManagerView { params: self.in_memory_params_holder, delta: self.delta, backup: self.backup_of_delta }
    }
}

/// Pushes the write of one stored amount.
fn push_amount(ops: &mut Vec<ParamsDiskOp>, index: u8, value: u64)
    ensures
        writes_view(final(ops)@) == writes_view(old(ops)@).push((param_key(index), le_encode(value as nat, 8))),
{
    let key: [u8; 2] = [PARAMS_CATEGORY_CASUAL, index];
    let bytes = u64_to_le_bytes(value);
    ops.push((key, bytes));
    proof {
        assert(key@ =~= param_key(index));
        assert(writes_view(ops@) =~= writes_view(old(ops)@).push((param_key(index), le_encode(value as nat, 8))));
    }
}

/// Pushes the write of one stored flag.
fn push_flag(ops: &mut Vec<ParamsDiskOp>, index: u8, value: bool)
    ensures
        writes_view(final(ops)@) == writes_view(old(ops)@).push((param_key(index), seq![flag_byte(value)])),
{
    let key: [u8; 2] = [PARAMS_CATEGORY_CASUAL, index];
    let mut bytes: Vec<u8> = Vec::new();
    bytes.push(if value {
        1u8
    } else {
        0u8
    });
    ops.push((key, bytes));
    proof {
        assert(key@ =~= param_key(index));
        assert(bytes@ =~= seq![flag_byte(value)]);
        assert(writes_view(ops@) =~= writes_view(old(ops)@).push((param_key(index), seq![flag_byte(value)])));
    }
}

/// Reads one stored entry into the params.
fn read_entry(h: &mut ParamsHolder, key: &[u8], value: &[u8])
    ensures
        *final(h) == entry_read(*old(h), key@, value@),
{
    if key.len() != 2 || key[0] != PARAMS_CATEGORY_CASUAL {
        return;
    }
    if key[1] == 0 {
        h.account_can_initially_deploy_liquidity = if value.len() == 0 {
            true
        } else {
            value[0] != 0
        };
        return;
    }
    if key[1] == 1 {
        h.account_can_initially_deploy_contract = if value.len() == 0 {
            true
        } else {
            value[0] != 0
        };
        return;
    }
    let v = match u64_from_le_bytes(value) {
        Some(v) => v,
        None => {
            return;
        },
    };
    if key[1] == 2 {
        h.move_entry_base_fee = v;
    } else if key[1] == 3 {
        h.call_entry_base_fee = v;
    } else if key[1] == 4 {
        h.call_entry_ppm_calldata_bytesize_fee = v;
    } else if key[1] == 5 {
        h.liftup_entry_base_fee = v;
    } else if key[1] == 6 {
        h.liftup_entry_per_lift_base_fee = v;
    } else if key[1] == 7 {
        h.move_ppm_liquidity_fee = v;
    } else if key[1] == 8 {
        h.in_call_ppm_liquidity_fee = v;
    }
}

impl ParamsManager {
    /// Rebuilds a params manager from the entries of its stored params tree, read in order over the
    /// default params; entries that name no known param are skipped.
    pub fn new(entries: &Vec<(Vec<u8>, Vec<u8>)>) -> (r: Self)
        ensures
            r@ == (ParamsManagerView { params: params_loaded(entries@), delta: None, backup: None }),
    {
        let mut h = ParamsHolder::fresh_new();
        let n = entries.len();
        let mut i: usize = 0;
        while i < n
            invariant
                0 <= i <= n,
                n == entries@.len(),
                h == params_loaded(entries@.subrange(0, i as int)),
            decreases n - i,
        {
            proof {
                assert(entries@.subrange(0, i + 1).drop_last() =~= entries@.subrange(0, i as int));
            }
            read_entry(&mut h, entries[i].0.as_slice(), entries[i].1.as_slice());
            i = i + 1;
        }
        proof {
            assert(entries@.subrange(0, n as int) =~= entries@);
        }
        ParamsManager { in_memory_params_holder: h, delta: None, backup_of_delta: None }
    }

    /// Prepares the params manager before each execution: backs up the ephemeral update.
    pub fn pre_execution(&mut self)
        ensures
            final(self)@ == (ParamsManagerView { backup: old(self)@.delta, ..old(self)@ }),
    {
        self.backup_of_delta = self.delta;
    }

    /// The permanent params (the ephemeral update is not counted).
    pub fn get_params_holder(&self) -> (r: ParamsHolder)
        ensures
            r == self@.params,
    {
        self.in_memory_params_holder
    }

    /// The params as currently updated, to change.
    fn get_ephemeral_params_holder(&self) -> (r: ParamsHolder)
        ensures
            r == self@.ephemeral(),
    {
        match self.delta {
            Some(h) => h,
            None => self.in_memory_params_holder,
        }
    }

    /// Sets whether a new account can deploy liquidity, ephemerally.
    pub fn set_account_can_initially_deploy_liquidity(&mut self, value: bool)
        ensures
            final(self)@ == old(self)@.with_ephemeral(ParamsHolder { account_can_initially_deploy_liquidity: value, ..old(self)@.ephemeral() }),
    {
        let mut h = self.get_ephemeral_params_holder();
        h.account_can_initially_deploy_liquidity = value;
        self.delta = Some(h);
    }

    /// Sets whether a new account can deploy a contract, ephemerally.
    pub fn set_account_can_initially_deploy_contract(&mut self, value: bool)
        ensures
            final(self)@ == old(self)@.with_ephemeral(ParamsHolder { account_can_initially_deploy_contract: value, ..old(self)@.ephemeral() }),
    {
        let mut h = self.get_ephemeral_params_holder();
        h.account_can_initially_deploy_contract = value;
        self.delta = Some(h);
    }

    /// Sets the move entry base fee, ephemerally.
    pub fn set_move_entry_base_fee(&mut self, value: u64)
        ensures
            final(self)@ == old(self)@.with_ephemeral(ParamsHolder { move_entry_base_fee: value, ..old(self)@.ephemeral() }),
    {
        let mut h = self.get_ephemeral_params_holder();
        h.move_entry_base_fee = value;
        self.delta = Some(h);
    }

    /// Sets the call entry base fee, ephemerally.
    pub fn set_call_entry_base_fee(&mut self, value: u64)
        ensures
            final(self)@ == old(self)@.with_ephemeral(ParamsHolder { call_entry_base_fee: value, ..old(self)@.ephemeral() }),
    {
        let mut h = self.get_ephemeral_params_holder();
        h.call_entry_base_fee = value;
        self.delta = Some(h);
    }

    /// Sets the call entry fee per million calldata bytes, ephemerally.
    pub fn set_call_entry_ppm_calldata_bytesize_fee(&mut self, value: u64)
        ensures
            final(self)@ == old(self)@.with_ephemeral(ParamsHolder { call_entry_ppm_calldata_bytesize_fee: value, ..old(self)@.ephemeral() }),
    {
        let mut h = self.get_ephemeral_params_holder();
        h.call_entry_ppm_calldata_bytesize_fee = value;
        self.delta = Some(h);
    }

    /// Sets the liftup entry base fee, ephemerally.
    pub fn set_liftup_entry_base_fee(&mut self, value: u64)
        ensures
            final(self)@ == old(self)@.with_ephemeral(ParamsHolder { liftup_entry_base_fee: value, ..old(self)@.ephemeral() }),
    {
        let mut h = self.get_ephemeral_params_holder();
        h.liftup_entry_base_fee = value;
        self.delta = Some(h);
    }

    /// Sets the liftup entry base fee per lift, ephemerally.
    pub fn set_liftup_entry_per_lift_base_fee(&mut self, value: u64)
        ensures
            final(self)@ == old(self)@.with_ephemeral(ParamsHolder { liftup_entry_per_lift_base_fee: value, ..old(self)@.ephemeral() }),
    {
        let mut h = self.get_ephemeral_params_holder();
        h.liftup_entry_per_lift_base_fee = value;
        self.delta = Some(h);
    }

    /// Sets the move liquidity fee in parts per million, ephemerally.
    pub fn set_move_ppm_liquidity_fee(&mut self, value: u64)
        ensures
            final(self)@ == old(self)@.with_ephemeral(ParamsHolder { move_ppm_liquidity_fee: value, ..old(self)@.ephemeral() }),
    {
        let mut h = self.get_ephemeral_params_holder();
        h.move_ppm_liquidity_fee = value;
        self.delta = Some(h);
    }

    /// Sets the in-call liquidity fee in parts per million, ephemerally.
    pub fn set_in_call_ppm_liquidity_fee(&mut self, value: u64)
        ensures
            final(self)@ == old(self)@.with_ephemeral(ParamsHolder { in_call_ppm_liquidity_fee: value, ..old(self)@.ephemeral() }),
    {
        let mut h = self.get_ephemeral_params_holder();
        h.in_call_ppm_liquidity_fee = value;
        self.delta = Some(h);
    }

    /// Reverts the ephemeral update of the last execution.
    pub fn rollback_last(&mut self)
        ensures
            final(self)@ == (ParamsManagerView { delta: old(self)@.backup, ..old(self)@ }),
    {
        self.delta = self.backup_of_delta;
    }

    /// Makes the ephemeral update, if any, permanent and appends its writes to `ops`, one per param;
    /// the update itself stays.
    pub fn apply_changes(&mut self, ops: &mut Vec<ParamsDiskOp>)
        ensures
            match old(self)@.delta {
                Some(h) => final(self)@ == (ParamsManagerView { params: h, ..old(self)@ })
                    && writes_view(final(ops)@) == writes_view(old(ops)@) + params_writes(h),
                None => final(self)@ == old(self)@ && final(ops)@ == old(ops)@,
            },
    {
        if let Some(h) = self.delta {
            let ghost w0 = writes_view(ops@);
            push_flag(ops, 0, h.account_can_initially_deploy_liquidity);
            push_flag(ops, 1, h.account_can_initially_deploy_contract);
            push_amount(ops, 2, h.move_entry_base_fee);
            push_amount(ops, 3, h.call_entry_base_fee);
            push_amount(ops, 4, h.call_entry_ppm_calldata_bytesize_fee);
            push_amount(ops, 5, h.liftup_entry_base_fee);
            push_amount(ops, 6, h.liftup_entry_per_lift_base_fee);
            push_amount(ops, 7, h.move_ppm_liquidity_fee);
            push_amount(ops, 8, h.in_call_ppm_liquidity_fee);
            assert(writes_view(ops@) =~= w0 + params_writes(h));
            self.in_memory_params_holder = h;
        }
    }

    /// The writes that applying the changes would make, one per param of the ephemeral update; none
    /// when there is no update. Nothing changes, so the writes can be made before the update is.
    pub fn pending_writes(&self) -> (r: Vec<ParamsDiskOp>)
        ensures
            writes_view(r@) == match self@.delta {
                Some(h) => params_writes(h),
                None => Seq::empty(),
            },
    {
        let mut ops: Vec<ParamsDiskOp> = Vec::new();
        if let Some(h) = self.delta {
            push_flag(&mut ops, 0, h.account_can_initially_deploy_liquidity);
            push_flag(&mut ops, 1, h.account_can_initially_deploy_contract);
            push_amount(&mut ops, 2, h.move_entry_base_fee);
            push_amount(&mut ops, 3, h.call_entry_base_fee);
            push_amount(&mut ops, 4, h.call_entry_ppm_calldata_bytesize_fee);
            push_amount(&mut ops, 5, h.liftup_entry_base_fee);
            push_amount(&mut ops, 6, h.liftup_entry_per_lift_base_fee);
            push_amount(&mut ops, 7, h.move_ppm_liquidity_fee);
            push_amount(&mut ops, 8, h.in_call_ppm_liquidity_fee);
            assert(writes_view(ops@) =~= writes_view(Seq::<ParamsDiskOp>::empty()) + params_writes(h));
        }
        proof {
            if self@.delta is None {
                assert(writes_view(ops@) =~= Seq::<(Seq<u8>, Seq<u8>)>::empty());
            }
        }
        ops
    }

    /// Clears the ephemeral update and its backup.
    pub fn flush_delta(&mut self)
        ensures
            final(self)@ == (ParamsManagerView { delta: None, backup: None, ..old(self)@ }),
    {
        self.delta = None;
        self.backup_of_delta = None;
    }
}

} // verus!
