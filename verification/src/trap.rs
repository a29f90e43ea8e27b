//! Trap-handler override tables: per privilege mode, one table of handler
//! addresses indexed by exception code and one indexed by interrupt code,
//! where 0 means that no override is registered. Also the names of the
//! standard exception codes and the decoding the default supervisor
//! exception handler reports.
use vstd::prelude::*;
use crate::cpu_bits::{
    MCAUSE_EC_MASK, MCAUSE_INT_FLAG, SCAUSE_EC_MASK, RISCV_EXCP_INST_ADDR_MIS, RISCV_EXCP_INST_ACCESS_FAULT,
    RISCV_EXCP_ILLEGAL_INST, RISCV_EXCP_BREAKPOINT, RISCV_EXCP_LOAD_ADDR_MIS, RISCV_EXCP_LOAD_ACCESS_FAULT,
    RISCV_EXCP_STORE_AMO_ADDR_MIS, RISCV_EXCP_STORE_AMO_ACCESS_FAULT, RISCV_EXCP_U_ECALL, RISCV_EXCP_S_ECALL,
    RISCV_EXCP_VS_ECALL, RISCV_EXCP_M_ECALL, RISCV_EXCP_INST_PAGE_FAULT, RISCV_EXCP_LOAD_PAGE_FAULT,
    RISCV_EXCP_STORE_PAGE_FAULT, RISCV_EXCP_SW_CHECK, RISCV_EXCP_HW_ERR,
};

use vstd::string::StringSliceAdditionalSpecFns;
use vstd::utf8::encode_utf8;
use crate::uart::{digits, render_digits};

verus! {

/// The privilege mode whose handlers a table overrides.
#[derive(Clone, Copy, Debug, PartialEq, Eq, Structural)]
pub enum TrapMode {
    Machine,
    Supervisor,
    VirtualSupervisor,
}

/// Why an override request fails the test.
#[derive(Clone, Copy, Debug, PartialEq, Eq, Structural)]
pub enum TrapOverrideError {
    /// A virtual-supervisor table was used outside virtualization.
    NotVirtualized,
    /// The cause code is beyond the table.
    CodeOutOfRange,
    /// There is no override to remove.
    NotRegistered,
}

/// The override tables of all privilege modes.
pub struct TrapOverrideAttributes {
    pub mmode_exception_handler_overrides: Vec<u64>,
    pub mmode_interrupt_handler_overrides: Vec<u64>,
    pub smode_exception_handler_overrides: Vec<u64>,
    pub smode_interrupt_handler_overrides: Vec<u64>,
    pub vsmode_exception_handler_overrides: Vec<u64>,
    pub vsmode_interrupt_handler_overrides: Vec<u64>,
}

/// The exception or interrupt code of a cause value.
pub open spec fn cause_code(mcause: u64) -> nat {
    (mcause & MCAUSE_EC_MASK) as nat
}

/// Whether a cause value denotes an interrupt.
pub open spec fn cause_is_interrupt(mcause: u64) -> bool {
    mcause & MCAUSE_INT_FLAG != 0
}

/// The table of `mode`'s interrupt (or exception) overrides.
pub open spec fn table_view(t: TrapOverrideAttributes, mode: TrapMode, interrupt: bool) -> Seq<u64> {
    match (mode, interrupt) {
        (TrapMode::Machine, false) => t.mmode_exception_handler_overrides@,
        (TrapMode::Machine, true) => t.mmode_interrupt_handler_overrides@,
        (TrapMode::Supervisor, false) => t.smode_exception_handler_overrides@,
        (TrapMode::Supervisor, true) => t.smode_interrupt_handler_overrides@,
        (TrapMode::VirtualSupervisor, false) => t.vsmode_exception_handler_overrides@,
        (TrapMode::VirtualSupervisor, true) => t.vsmode_interrupt_handler_overrides@,
    }
}

/// The table a cause value selects in `mode`.
pub open spec fn cause_table(t: TrapOverrideAttributes, mode: TrapMode, mcause: u64) -> Seq<u64> {
    table_view(t, mode, cause_is_interrupt(mcause))
}

/// Every table other than the one `mcause` selects in `mode` is the same in
/// `old` and `new`.
pub open spec fn other_tables_unchanged(old: TrapOverrideAttributes, new: TrapOverrideAttributes, mode: TrapMode, mcause: u64) -> bool {
    forall|m: TrapMode, i: bool| !(m == mode && i == cause_is_interrupt(mcause)) ==> #[trigger] table_view(new, m, i) == table_view(old, m, i)
}

/// `new` is `old` after registering `handler` for `mcause` in `mode`.
pub open spec fn override_registered(old: TrapOverrideAttributes, new: TrapOverrideAttributes, mode: TrapMode, mcause: u64, handler: u64, r: Result<(), TrapOverrideError>) -> bool {
    if cause_code(mcause) < cause_table(old, mode, mcause).len() {
        &&& r is Ok
        &&& cause_table(new, mode, mcause) == cause_table(old, mode, mcause).update(cause_code(mcause) as int, handler)
        &&& other_tables_unchanged(old, new, mode, mcause)
    } else {
        &&& r == Err::<(), TrapOverrideError>(TrapOverrideError::CodeOutOfRange)
        &&& new == old
    }
}

/// `new` is `old` after removing the override for `mcause` in `mode`.
pub open spec fn override_removed(old: TrapOverrideAttributes, new: TrapOverrideAttributes, mode: TrapMode, mcause: u64, r: Result<(), TrapOverrideError>) -> bool {
    if cause_code(mcause) >= cause_table(old, mode, mcause).len() {
        &&& r == Err::<(), TrapOverrideError>(TrapOverrideError::CodeOutOfRange)
        &&& new == old
    } else if cause_table(old, mode, mcause)[cause_code(mcause) as int] == 0 {
        &&& r == Err::<(), TrapOverrideError>(TrapOverrideError::NotRegistered)
        &&& new == old
    } else {
        &&& r is Ok
        &&& cause_table(new, mode, mcause) == cause_table(old, mode, mcause).update(cause_code(mcause) as int, 0)
        &&& other_tables_unchanged(old, new, mode, mcause)
    }
}

/// What looking up the override for `mcause` in `mode` answers.
pub open spec fn override_lookup(t: TrapOverrideAttributes, mode: TrapMode, mcause: u64) -> Result<u64, TrapOverrideError> {
    if cause_code(mcause) < cause_table(t, mode, mcause).len() {
        Ok(cause_table(t, mode, mcause)[cause_code(mcause) as int])
    } else {
        Err(TrapOverrideError::CodeOutOfRange)
    }
}

/// Sets entry `code` of a table, failing when it is beyond the table.
fn set_entry(table: &mut Vec<u64>, code: u64, value: u64) -> (r: Result<(), TrapOverrideError>)
    ensures
        code < old(table)@.len() ==> r is Ok && final(table)@ == old(table)@.update(code as int, value),
        code >= old(table)@.len() ==> r == Err::<(), TrapOverrideError>(TrapOverrideError::CodeOutOfRange) && *final(table) == *old(table),
{
    if code >= table.len() as u64 {
        return Err(TrapOverrideError::CodeOutOfRange);
    }
    table.set(code as usize, value);
    Ok(())
}

/// Clears entry `code` of a table, failing when it is beyond the table or
/// already clear.
fn clear_entry(table: &mut Vec<u64>, code: u64) -> (r: Result<(), TrapOverrideError>)
    ensures
        code >= old(table)@.len() ==> r == Err::<(), TrapOverrideError>(TrapOverrideError::CodeOutOfRange) && *final(table) == *old(table),
        code < old(table)@.len() && old(table)@[code as int] == 0 ==> r == Err::<(), TrapOverrideError>(TrapOverrideError::NotRegistered) && *final(table) == *old(table),
        code < old(table)@.len() && old(table)@[code as int] != 0 ==> r is Ok && final(table)@ == old(table)@.update(code as int, 0),
{
    if code >= table.len() as u64 {
        return Err(TrapOverrideError::CodeOutOfRange);
    }
    if table[code as usize] == 0 {
        return Err(TrapOverrideError::NotRegistered);
    }
    table.set(code as usize, 0);
    Ok(())
}

/// Reads entry `code` of a table, failing when it is beyond the table.
fn get_entry(table: &Vec<u64>, code: u64) -> (r: Result<u64, TrapOverrideError>)
    ensures
        code < table@.len() ==> r == Ok::<u64, TrapOverrideError>(table@[code as int]),
        code >= table@.len() ==> r == Err::<u64, TrapOverrideError>(TrapOverrideError::CodeOutOfRange),
{
    if code >= table.len() as u64 {
        return Err(TrapOverrideError::CodeOutOfRange);
    }
    Ok(table[code as usize])
}

/// Exec form of the cause decoding.
fn decode_cause(mcause: u64) -> (r: (u64, bool))
    ensures
        r.0 == cause_code(mcause),
        r.1 == cause_is_interrupt(mcause),
{
    (mcause & MCAUSE_EC_MASK, (mcause & MCAUSE_INT_FLAG) != 0)
}

impl TrapOverrideAttributes {
    /// Tables of the given sizes with no override registered.
    pub fn new(
        num_mmode_exceptions: usize,
        num_mmode_interrupts: usize,
        num_smode_exceptions: usize,
        num_smode_interrupts: usize,
        num_vsmode_exceptions: usize,
        num_vsmode_interrupts: usize,
    ) -> (r: Self)
        ensures
            table_view(r, TrapMode::Machine, false) == Seq::new(num_mmode_exceptions as nat, |i: int| 0u64),
            table_view(r, TrapMode::Machine, true) == Seq::new(num_mmode_interrupts as nat, |i: int| 0u64),
            table_view(r, TrapMode::Supervisor, false) == Seq::new(num_smode_exceptions as nat, |i: int| 0u64),
            table_view(r, TrapMode::Supervisor, true) == Seq::new(num_smode_interrupts as nat, |i: int| 0u64),
            table_view(r, TrapMode::VirtualSupervisor, false) == Seq::new(num_vsmode_exceptions as nat, |i: int| 0u64),
            table_view(r, TrapMode::VirtualSupervisor, true) == Seq::new(num_vsmode_interrupts as nat, |i: int| 0u64),
    {
        TrapOverrideAttributes {
            mmode_exception_handler_overrides: zeroed_table(num_mmode_exceptions),
            mmode_interrupt_handler_overrides: zeroed_table(num_mmode_interrupts),
            smode_exception_handler_overrides: zeroed_table(num_smode_exceptions),
            smode_interrupt_handler_overrides: zeroed_table(num_smode_interrupts),
            vsmode_exception_handler_overrides: zeroed_table(num_vsmode_exceptions),
            vsmode_interrupt_handler_overrides: zeroed_table(num_vsmode_interrupts),
        }
    }

    /// Registers `handler` for `mcause` in `mode`.
    fn register_override(&mut self, mode: TrapMode, mcause: u64, handler: u64) -> (r: Result<(), TrapOverrideError>)
        ensures
            override_registered(*old(self), *final(self), mode, mcause, handler, r),
    {
        let (code, is_interrupt) = decode_cause(mcause);
        match (mode, is_interrupt) {
            (TrapMode::Machine, false) => set_entry(&mut self.mmode_exception_handler_overrides, code, handler),
            (TrapMode::Machine, true) => set_entry(&mut self.mmode_interrupt_handler_overrides, code, handler),
            (TrapMode::Supervisor, false) => set_entry(&mut self.smode_exception_handler_overrides, code, handler),
            (TrapMode::Supervisor, true) => set_entry(&mut self.smode_interrupt_handler_overrides, code, handler),
            (TrapMode::VirtualSupervisor, false) => set_entry(&mut self.vsmode_exception_handler_overrides, code, handler),
            (TrapMode::VirtualSupervisor, true) => set_entry(&mut self.vsmode_interrupt_handler_overrides, code, handler),
        }
    }

    /// Removes the override for `mcause` in `mode`.
    fn remove_override(&mut self, mode: TrapMode, mcause: u64) -> (r: Result<(), TrapOverrideError>)
        ensures
            override_removed(*old(self), *final(self), mode, mcause, r),
    {
        let (code, is_interrupt) = decode_cause(mcause);
        match (mode, is_interrupt) {
            (TrapMode::Machine, false) => clear_entry(&mut self.mmode_exception_handler_overrides, code),
            (TrapMode::Machine, true) => clear_entry(&mut self.mmode_interrupt_handler_overrides, code),
            (TrapMode::Supervisor, false) => clear_entry(&mut self.smode_exception_handler_overrides, code),
            (TrapMode::Supervisor, true) => clear_entry(&mut self.smode_interrupt_handler_overrides, code),
            (TrapMode::VirtualSupervisor, false) => clear_entry(&mut self.vsmode_exception_handler_overrides, code),
            (TrapMode::VirtualSupervisor, true) => clear_entry(&mut self.vsmode_interrupt_handler_overrides, code),
        }
    }

    /// Looks up the override for `mcause` in `mode`.
    fn lookup_override(&self, mode: TrapMode, mcause: u64) -> (r: Result<u64, TrapOverrideError>)
        ensures
            r == override_lookup(*self, mode, mcause),
    {
        let (code, is_interrupt) = decode_cause(mcause);
        match (mode, is_interrupt) {
            (TrapMode::Machine, false) => get_entry(&self.mmode_exception_handler_overrides, code),
            (TrapMode::Machine, true) => get_entry(&self.mmode_interrupt_handler_overrides, code),
            (TrapMode::Supervisor, false) => get_entry(&self.smode_exception_handler_overrides, code),
            (TrapMode::Supervisor, true) => get_entry(&self.smode_interrupt_handler_overrides, code),
            (TrapMode::VirtualSupervisor, false) => get_entry(&self.vsmode_exception_handler_overrides, code),
            (TrapMode::VirtualSupervisor, true) => get_entry(&self.vsmode_interrupt_handler_overrides, code),
        }
    }

    /// Registers `handler_address` as the machine-mode handler for `mcause`.
    pub fn register_mmode_trap_handler_override(&mut self, mcause: u64, handler_address: u64) -> (r: Result<(), TrapOverrideError>)
        ensures
            override_registered(*old(self), *final(self), TrapMode::Machine, mcause, handler_address, r),
    {
        self.register_override(TrapMode::Machine, mcause, handler_address)
    }

    /// Removes the machine-mode handler override for `mcause`; fails when
    /// none is registered.
    pub fn deregister_mmode_trap_handler_override(&mut self, mcause: u64) -> (r: Result<(), TrapOverrideError>)
        ensures
            override_removed(*old(self), *final(self), TrapMode::Machine, mcause, r),
    {
        self.remove_override(TrapMode::Machine, mcause)
    }

    /// The machine-mode handler override for `mcause` (0 when none).
    pub fn get_mmode_trap_handler_override(&self, mcause: u64) -> (r: Result<u64, TrapOverrideError>)
        ensures
            r == override_lookup(*self, TrapMode::Machine, mcause),
    {
        self.lookup_override(TrapMode::Machine, mcause)
    }

    /// Registers `handler_address` as the supervisor-mode handler for `mcause`.
    pub fn register_smode_trap_handler_override(&mut self, mcause: u64, handler_address: u64) -> (r: Result<(), TrapOverrideError>)
        ensures
            override_registered(*old(self), *final(self), TrapMode::Supervisor, mcause, handler_address, r),
    {
        self.register_override(TrapMode::Supervisor, mcause, handler_address)
    }

    /// Removes the supervisor-mode handler override for `mcause`; fails when
    /// none is registered.
    pub fn deregister_smode_trap_handler_override(&mut self, mcause: u64) -> (r: Result<(), TrapOverrideError>)
        ensures
            override_removed(*old(self), *final(self), TrapMode::Supervisor, mcause, r),
    {
        self.remove_override(TrapMode::Supervisor, mcause)
    }

    /// The supervisor-mode handler override for `mcause` (0 when none).
    pub fn get_smode_trap_handler_override(&self, mcause: u64) -> (r: Result<u64, TrapOverrideError>)
        ensures
            r == override_lookup(*self, TrapMode::Supervisor, mcause),
    {
        self.lookup_override(TrapMode::Supervisor, mcause)
    }

    /// Registers `handler_address` as the virtual-supervisor-mode handler for `mcause`. Fails outside virtualization (`v_bit` other than 1).
    pub fn register_vsmode_trap_handler_override(&mut self, v_bit: u64, mcause: u64, handler_address: u64) -> (r: Result<(), TrapOverrideError>)
        ensures
            v_bit != 1 ==> r == Err::<(), TrapOverrideError>(TrapOverrideError::NotVirtualized) && *final(self) == *old(self),
            v_bit == 1 ==> override_registered(*old(self), *final(self), TrapMode::VirtualSupervisor, mcause, handler_address, r),
    {
        if v_bit != 1 {
            return Err(TrapOverrideError::NotVirtualized);
        }
        self.register_override(TrapMode::VirtualSupervisor, mcause, handler_address)
    }

    /// Removes the virtual-supervisor-mode handler override for `mcause`; fails when
    /// none is registered. Fails outside virtualization (`v_bit` other than 1).
    pub fn deregister_vsmode_trap_handler_override(&mut self, v_bit: u64, mcause: u64) -> (r: Result<(), TrapOverrideError>)
        ensures
            v_bit != 1 ==> r == Err::<(), TrapOverrideError>(TrapOverrideError::NotVirtualized) && *final(self) == *old(self),
            v_bit == 1 ==> override_removed(*old(self), *final(self), TrapMode::VirtualSupervisor, mcause, r),
    {
        if v_bit != 1 {
            return Err(TrapOverrideError::NotVirtualized);
        }
        self.remove_override(TrapMode::VirtualSupervisor, mcause)
    }

    /// The virtual-supervisor-mode handler override for `mcause` (0 when none). Fails outside virtualization (`v_bit` other than 1).
    pub fn get_vsmode_trap_handler_override(&self, v_bit: u64, mcause: u64) -> (r: Result<u64, TrapOverrideError>)
        ensures
            v_bit != 1 ==> r == Err::<u64, TrapOverrideError>(TrapOverrideError::NotVirtualized),
            v_bit == 1 ==> r == override_lookup(*self, TrapMode::VirtualSupervisor, mcause),
    {
        if v_bit != 1 {
            return Err(TrapOverrideError::NotVirtualized);
        }
        self.lookup_override(TrapMode::VirtualSupervisor, mcause)
    }
}

/// A table of `n` entries, all 0.
fn zeroed_table(n: usize) -> (r: Vec<u64>)
    ensures
        r@ == Seq::new(n as nat, |i: int| 0u64),
{
    let mut v: Vec<u64> = Vec::new();
    let mut k: usize = 0;
    while k < n
        invariant
            k <= n,
            v@ == Seq::new(k as nat, |i: int| 0u64),
        decreases n - k,
    {
        v.push(0);
        k = k + 1;
        assert(v@ =~= Seq::new(k as nat, |i: int| 0u64));
    }
    v
}

/// Name of a standard exception code.
pub open spec fn exception_name(exception_id: u64) -> Seq<char> {
    if exception_id == RISCV_EXCP_INST_ADDR_MIS {
        "Instruction Address Misaligned"@
    } else if exception_id == RISCV_EXCP_INST_ACCESS_FAULT {
        "Instruction Access Fault"@
    } else if exception_id == RISCV_EXCP_ILLEGAL_INST {
        "Illegal Instruction"@
    } else if exception_id == RISCV_EXCP_BREAKPOINT {
        "Breakpoint"@
    } else if exception_id == RISCV_EXCP_LOAD_ADDR_MIS {
        "Load Address Misaligned"@
    } else if exception_id == RISCV_EXCP_LOAD_ACCESS_FAULT {
        "Load Access Fault"@
    } else if exception_id == RISCV_EXCP_STORE_AMO_ADDR_MIS {
        "Store/AMO Address Misaligned"@
    } else if exception_id == RISCV_EXCP_STORE_AMO_ACCESS_FAULT {
        "Store/AMO Access Fault"@
    } else if exception_id == RISCV_EXCP_U_ECALL {
        "User ECALL"@
    } else if exception_id == RISCV_EXCP_S_ECALL {
        "Supervisor ECALL"@
    } else if exception_id == RISCV_EXCP_VS_ECALL {
        "Virtual Supervisor ECALL"@
    } else if exception_id == RISCV_EXCP_M_ECALL {
        "Machine ECALL"@
    } else if exception_id == RISCV_EXCP_INST_PAGE_FAULT {
        "Instruction Page Fault"@
    } else if exception_id == RISCV_EXCP_LOAD_PAGE_FAULT {
        "Load Page Fault"@
    } else if exception_id == RISCV_EXCP_STORE_PAGE_FAULT {
        "Store Page Fault"@
    } else if exception_id == RISCV_EXCP_SW_CHECK {
        "SW check"@
    } else if exception_id == RISCV_EXCP_HW_ERR {
        "HW Error"@
    } else {
        "Unknown Exception"@
    }
}

/// Name of a standard exception code, for diagnostics.
pub fn get_exception_name(exception_id: u64) -> (r: &'static str)
    ensures
        r@ == exception_name(exception_id),
{
    match exception_id {
        RISCV_EXCP_INST_ADDR_MIS => "Instruction Address Misaligned",
        RISCV_EXCP_INST_ACCESS_FAULT => "Instruction Access Fault",
        RISCV_EXCP_ILLEGAL_INST => "Illegal Instruction",
        RISCV_EXCP_BREAKPOINT => "Breakpoint",
        RISCV_EXCP_LOAD_ADDR_MIS => "Load Address Misaligned",
        RISCV_EXCP_LOAD_ACCESS_FAULT => "Load Access Fault",
        RISCV_EXCP_STORE_AMO_ADDR_MIS => "Store/AMO Address Misaligned",
        RISCV_EXCP_STORE_AMO_ACCESS_FAULT => "Store/AMO Access Fault",
        RISCV_EXCP_U_ECALL => "User ECALL",
        RISCV_EXCP_S_ECALL => "Supervisor ECALL",
        RISCV_EXCP_VS_ECALL => "Virtual Supervisor ECALL",
        RISCV_EXCP_M_ECALL => "Machine ECALL",
        RISCV_EXCP_INST_PAGE_FAULT => "Instruction Page Fault",
        RISCV_EXCP_LOAD_PAGE_FAULT => "Load Page Fault",
        RISCV_EXCP_STORE_PAGE_FAULT => "Store Page Fault",
        RISCV_EXCP_SW_CHECK => "SW check",
        RISCV_EXCP_HW_ERR => "HW Error",
        _ => "Unknown Exception",
    }
}

/// The exception codes that get the default supervisor handler.
pub open spec fn default_exception_codes() -> Seq<u64> {
    seq![
        RISCV_EXCP_INST_ADDR_MIS,
        RISCV_EXCP_INST_ACCESS_FAULT,
        RISCV_EXCP_ILLEGAL_INST,
        RISCV_EXCP_BREAKPOINT,
        RISCV_EXCP_LOAD_ADDR_MIS,
        RISCV_EXCP_LOAD_ACCESS_FAULT,
        RISCV_EXCP_STORE_AMO_ADDR_MIS,
        RISCV_EXCP_STORE_AMO_ACCESS_FAULT,
        RISCV_EXCP_INST_PAGE_FAULT,
        RISCV_EXCP_LOAD_PAGE_FAULT,
        RISCV_EXCP_STORE_PAGE_FAULT,
        RISCV_EXCP_SW_CHECK,
        RISCV_EXCP_HW_ERR,
    ]
}

/// `table` after setting, in order, each entry named in `codes` to
/// `handler`, skipping codes beyond the table.
pub open spec fn apply_codes(table: Seq<u64>, codes: Seq<u64>, handler: u64) -> Seq<u64>
    decreases codes.len(),
{
    if codes.len() == 0 {
        table
    } else {
        let t = apply_codes(table, codes.drop_last(), handler);
        if (codes.last() as int) < t.len() {
            t.update(codes.last() as int, handler)
        } else {
            t
        }
    }
}

/// An entry of `table` after applying codes that all lie inside it is the
/// handler exactly for the codes in the list.
proof fn lemma_apply_codes_entry(table: Seq<u64>, codes: Seq<u64>, handler: u64, c: int)
    requires
        forall|j: int| 0 <= j < codes.len() ==> #[trigger] codes[j] < table.len(),
        0 <= c < table.len(),
        table.len() <= u64::MAX,
    ensures
        apply_codes(table, codes, handler).len() == table.len(),
        apply_codes(table, codes, handler)[c] == (if codes.contains(c as u64) { handler } else { table[c] }),
    decreases codes.len(),
{
    if codes.len() > 0 {
        let d = codes.drop_last();
        assert forall|j: int| 0 <= j < d.len() implies #[trigger] d[j] < table.len() by {
            assert(d[j] == codes[j]);
        }
        lemma_apply_codes_entry(table, d, handler, c);
        let t = apply_codes(table, d, handler);
        assert(codes[codes.len() - 1] < table.len());
        assert(codes.last() == codes[codes.len() - 1]);
        assert(apply_codes(table, codes, handler) == t.update(codes.last() as int, handler));
        if codes.contains(c as u64) && codes.last() != c as u64 {
            let j = choose|j: int| 0 <= j < codes.len() && codes[j] == c as u64;
            assert(j != codes.len() - 1);
            assert(d[j] == c as u64);
        }
        if d.contains(c as u64) {
            let j = choose|j: int| 0 <= j < d.len() && d[j] == c as u64;
            assert(codes[j] == c as u64);
        }
        if codes.last() == c as u64 {
            assert(codes[codes.len() - 1] == c as u64);
        }
    }
}

/// The standard exception codes that get the default supervisor handler:
/// every named code except the environment calls (8 to 11).
pub open spec fn default_handled(c: int) -> bool {
    (0 <= c <= 7) || c == 0xc || c == 0xd || c == 0xf || c == 0x12 || c == 0x13
}

/// Once the default supervisor handlers are registered, in a table that
/// holds every standard exception code, each exception other than the
/// environment calls maps to the handler and every other entry, the
/// environment calls included, keeps its old value.
pub proof fn lemma_default_handlers_registered(old: Seq<u64>, new: Seq<u64>, handler: u64)
    requires
        new == apply_codes(old, default_exception_codes(), handler),
        RISCV_EXCP_HW_ERR < old.len() <= usize::MAX,
    ensures
        new.len() == old.len(),
        forall|c: int| 0 <= c < old.len() ==> #[trigger] new[c] == (if default_handled(c) { handler } else { old[c] }),
{
    let codes = default_exception_codes();
    assert forall|j: int| 0 <= j < codes.len() implies #[trigger] codes[j] < old.len() by {
        assert(codes[j] <= 0x13);
    }
    lemma_apply_codes_len(old, codes, handler);
    assert forall|c: int| 0 <= c < old.len() implies #[trigger] new[c] == (if default_handled(c) { handler } else { old[c] }) by {
        lemma_apply_codes_entry(old, codes, handler, c);
        if default_handled(c) {
            if c <= 7 {
                assert(codes[c] == c as u64);
            } else if c == 0xc {
                assert(codes[8] == c as u64);
            } else if c == 0xd {
                assert(codes[9] == c as u64);
            } else if c == 0xf {
                assert(codes[10] == c as u64);
            } else if c == 0x12 {
                assert(codes[11] == c as u64);
            } else {
                assert(codes[12] == c as u64);
            }
        } else if codes.contains(c as u64) {
            let j = choose|j: int| 0 <= j < codes.len() && codes[j] == c as u64;
            assert(0 <= j < 13);
            assert(j == 0 || j == 1 || j == 2 || j == 3 || j == 4 || j == 5 || j == 6 || j == 7 || j == 8 || j == 9
                || j == 10 || j == 11 || j == 12);
        }
    }
}

/// Applying codes keeps the table's length.
proof fn lemma_apply_codes_len(table: Seq<u64>, codes: Seq<u64>, handler: u64)
    ensures
        apply_codes(table, codes, handler).len() == table.len(),
    decreases codes.len(),
{
    if codes.len() > 0 {
        lemma_apply_codes_len(table, codes.drop_last(), handler);
    }
}

/// Codes beyond the table change nothing.
proof fn lemma_apply_codes_tail(table: Seq<u64>, codes: Seq<u64>, handler: u64, k: int)
    requires
        0 <= k <= codes.len(),
        forall|j: int| k <= j < codes.len() ==> #[trigger] codes[j] >= table.len(),
    ensures
        apply_codes(table, codes, handler) == apply_codes(table, codes.take(k), handler),
    decreases codes.len(),
{
    if codes.len() == k {
        assert(codes.take(k) =~= codes);
    } else {
        let d = codes.drop_last();
        lemma_apply_codes_len(table, d, handler);
        assert(codes[codes.len() - 1] >= table.len());
        lemma_apply_codes_tail(table, d, handler, k);
        assert(d.take(k) =~= codes.take(k));
    }
}

impl TrapOverrideAttributes {
    /// Registers `handler_address` as the supervisor-mode handler of every
    /// standard exception except the environment calls, in increasing code
    /// order, stopping at the first code beyond the table.
    pub fn register_default_smode_exception_handlers(&mut self, handler_address: u64) -> (r: Result<(), TrapOverrideError>)
        ensures
            table_view(*final(self), TrapMode::Supervisor, false) == apply_codes(table_view(*old(self), TrapMode::Supervisor, false), default_exception_codes(), handler_address),
            forall|m: TrapMode, i: bool| !(m == TrapMode::Supervisor && i == false) ==> #[trigger] table_view(*final(self), m, i) == table_view(*old(self), m, i),
            r is Ok <==> RISCV_EXCP_HW_ERR < table_view(*old(self), TrapMode::Supervisor, false).len(),
            r is Err ==> r == Err::<(), TrapOverrideError>(TrapOverrideError::CodeOutOfRange),
    {
        let codes: [u64; 13] = [
            RISCV_EXCP_INST_ADDR_MIS,
            RISCV_EXCP_INST_ACCESS_FAULT,
            RISCV_EXCP_ILLEGAL_INST,
            RISCV_EXCP_BREAKPOINT,
            RISCV_EXCP_LOAD_ADDR_MIS,
            RISCV_EXCP_LOAD_ACCESS_FAULT,
            RISCV_EXCP_STORE_AMO_ADDR_MIS,
            RISCV_EXCP_STORE_AMO_ACCESS_FAULT,
            RISCV_EXCP_INST_PAGE_FAULT,
            RISCV_EXCP_LOAD_PAGE_FAULT,
            RISCV_EXCP_STORE_PAGE_FAULT,
            RISCV_EXCP_SW_CHECK,
            RISCV_EXCP_HW_ERR,
        ];
        assert(codes@ =~= default_exception_codes());
        let ghost t0 = table_view(*self, TrapMode::Supervisor, false);
        let mut k: usize = 0;
        while k < 13
            invariant
                k <= 13,
                codes@ == default_exception_codes(),
                forall|j: int| 0 <= j < k ==> #[trigger] codes@[j] < t0.len(),
                table_view(*self, TrapMode::Supervisor, false) == apply_codes(t0, codes@.take(k as int), handler_address),
                forall|m: TrapMode, i: bool| !(m == TrapMode::Supervisor && i == false) ==> #[trigger] table_view(*self, m, i) == table_view(*old(self), m, i),
                t0 == table_view(*old(self), TrapMode::Supervisor, false),
            decreases 13 - k,
        {
            let code = codes[k];
            assert(cause_code(code) == code && !cause_is_interrupt(code)) by (bit_vector)
                requires
                    code <= 0x13,
            ;
            proof {
                lemma_apply_codes_len(t0, codes@.take(k as int), handler_address);
            }
            let res = self.register_smode_trap_handler_override(code, handler_address);
            if res.is_err() {
                proof {
                    assert forall|j: int| k <= j < 13 implies #[trigger] codes@[j] >= t0.len() by {
                        assert(codes@[j] >= codes@[k as int]);
                    }
                    lemma_apply_codes_tail(t0, codes@, handler_address, k as int);
                }
                return res;
            }
            proof {
                let nk = (k + 1) as int;
                assert(codes@.take(nk).drop_last() =~= codes@.take(k as int));
                assert(codes@.take(nk).last() == code);
            }
            k = k + 1;
        }
        proof {
            assert(codes@.take(13) =~= codes@);
        }
        Ok(())
    }
}

/// What the default supervisor exception handler reports about a trap.
pub struct ExceptionReport {
    pub exception_id: u64,
    pub spp: u64,
    pub sie: u64,
    pub spie: u64,
    pub ube: u64,
    pub sbe: u64,
}

/// Decodes `scause` and `sstatus` into the report of the default
/// supervisor exception handler: the exception code and the SPP, SIE, SPIE,
/// UBE and SBE status bits.
pub fn describe_smode_exception(scause: u64, sstatus: u64) -> (r: ExceptionReport)
    ensures
        r.exception_id == scause & SCAUSE_EC_MASK,
        r.spp == (sstatus >> 8u64) & 1,
        r.sie == (sstatus >> 1u64) & 1,
        r.spie == (sstatus >> 5u64) & 1,
        r.ube == (sstatus >> 6u64) & 1,
        r.sbe == (sstatus >> 36u64) & 1,
{
    ExceptionReport {
        exception_id: scause & SCAUSE_EC_MASK,
        spp: (sstatus >> 8u64) & 1,
        sie: (sstatus >> 1u64) & 1,
        spie: (sstatus >> 5u64) & 1,
        ube: (sstatus >> 6u64) & 1,
        sbe: (sstatus >> 36u64) & 1,
    }
}

/// The bytes of a text.
pub open spec fn text(s: &str) -> Seq<u8> {
    s.spec_bytes()
}

/// The start of each line of the report: `CPU_<id>_LOG: `.
pub open spec fn report_line_start(cpu_id: u8) -> Seq<u8> {
    text("CPU_") + digits(cpu_id as nat, 10) + text("_LOG: ")
}

/// The report the default supervisor exception handler prints for a trap
/// on hart `cpu_id`: what went wrong, the exception and its name, the
/// trapping `sepc`, `stval` and `sstatus` in hexadecimal, and the decoded
/// status bits.
pub open spec fn exception_report(cpu_id: u8, scause: u64, sepc: u64, stval: u64, sstatus: u64) -> Seq<u8> {
    let id = scause & SCAUSE_EC_MASK;
    let p = report_line_start(cpu_id);
    p + text("ERROR: Unexpected exception occurred!\n")
        + p + text("Exception ID: 0x") + digits(id as nat, 16) + text(" (") + encode_utf8(exception_name(id)) + text(")\n")
        + p + text("Program Counter (sepc): 0x") + digits(sepc as nat, 16) + text("\n")
        + p + text("Trap Value (stval): 0x") + digits(stval as nat, 16) + text("\n")
        + p + text("Status Register (sstatus): 0x") + digits(sstatus as nat, 16) + text("\n")
        + p + text("Status bits: SPP=") + digits(((sstatus >> 8u64) & 1) as nat, 10)
        + text(" | SIE=") + digits(((sstatus >> 1u64) & 1) as nat, 10)
        + text(" | SPIE=") + digits(((sstatus >> 5u64) & 1) as nat, 10)
        + text(" | UBE=") + digits(((sstatus >> 6u64) & 1) as nat, 10)
        + text(" | SBE=") + digits(((sstatus >> 36u64) & 1) as nat, 10) + text("\n")
}

/// Appends the bytes of `s` to `out`.
fn push_text(out: &mut Vec<u8>, s: &str)
    ensures
        final(out)@ == old(out)@ + text(s),
{
    let mut b = s.as_bytes_vec();
    out.append(&mut b);
}

/// Appends the digits of `n` in `base` to `out`.
fn push_digits(out: &mut Vec<u8>, n: u64, base: u64)
    requires
        2 <= base <= 16,
    ensures
        final(out)@ == old(out)@ + digits(n as nat, base as nat),
{
    let mut d = render_digits(n, base);
    out.append(&mut d);
}

/// Appends the start of a report line to `out`.
fn push_line_start(out: &mut Vec<u8>, cpu_id: u8)
    ensures
        final(out)@ == old(out)@ + report_line_start(cpu_id),
{
    let ghost o = out@;
    push_text(out, "CPU_");
    push_digits(out, cpu_id as u64, 10);
    push_text(out, "_LOG: ");
    assert(out@ =~= o + report_line_start(cpu_id));
}

/// The text the default supervisor exception handler prints.
pub fn exception_report_text(cpu_id: u8, scause: u64, sepc: u64, stval: u64, sstatus: u64) -> (r: Vec<u8>)
    ensures
        r@ == exception_report(cpu_id, scause, sepc, stval, sstatus),
{
    let report = describe_smode_exception(scause, sstatus);
    let name = get_exception_name(report.exception_id);
    let mut out: Vec<u8> = Vec::new();
    push_line_start(&mut out, cpu_id);
    push_text(&mut out, "ERROR: Unexpected exception occurred!\n");
    push_line_start(&mut out, cpu_id);
    push_text(&mut out, "Exception ID: 0x");
    push_digits(&mut out, report.exception_id, 16);
    push_text(&mut out, " (");
    push_text(&mut out, name);
    push_text(&mut out, ")\n");
    push_line_start(&mut out, cpu_id);
    push_text(&mut out, "Program Counter (sepc): 0x");
    push_digits(&mut out, sepc, 16);
    push_text(&mut out, "\n");
    push_line_start(&mut out, cpu_id);
    push_text(&mut out, "Trap Value (stval): 0x");
    push_digits(&mut out, stval, 16);
    push_text(&mut out, "\n");
    push_line_start(&mut out, cpu_id);
    push_text(&mut out, "Status Register (sstatus): 0x");
    push_digits(&mut out, sstatus, 16);
    push_text(&mut out, "\n");
    push_line_start(&mut out, cpu_id);
    push_text(&mut out, "Status bits: SPP=");
    push_digits(&mut out, report.spp, 10);
    push_text(&mut out, " | SIE=");
    push_digits(&mut out, report.sie, 10);
    push_text(&mut out, " | SPIE=");
    push_digits(&mut out, report.spie, 10);
    push_text(&mut out, " | UBE=");
    push_digits(&mut out, report.ube, 10);
    push_text(&mut out, " | SBE=");
    push_digits(&mut out, report.sbe, 10);
    push_text(&mut out, "\n");
    assert(name.spec_bytes() == encode_utf8(exception_name(report.exception_id)));
    assert(out@ =~= exception_report(cpu_id, scause, sepc, stval, sstatus));
    out
}

/// Looking up a cause right after registering a handler for it gives that
/// handler.
pub proof fn lemma_lookup_after_register(old: TrapOverrideAttributes, new: TrapOverrideAttributes, mode: TrapMode, mcause: u64, handler: u64, r: Result<(), TrapOverrideError>)
    requires
        override_registered(old, new, mode, mcause, handler, r),
        r is Ok,
    ensures
        override_lookup(new, mode, mcause) == Ok::<u64, TrapOverrideError>(handler),
{
}

/// Registering a handler for one cause does not change what any other
/// cause looks up.
pub proof fn lemma_register_keeps_other_causes(old: TrapOverrideAttributes, new: TrapOverrideAttributes, mode: TrapMode, mcause: u64, handler: u64, r: Result<(), TrapOverrideError>, other_mode: TrapMode, other: u64)
    requires
        override_registered(old, new, mode, mcause, handler, r),
        !(other_mode == mode && cause_is_interrupt(other) == cause_is_interrupt(mcause) && cause_code(other) == cause_code(mcause)),
    ensures
        override_lookup(new, other_mode, other) == override_lookup(old, other_mode, other),
{
    assert(table_view(new, other_mode, cause_is_interrupt(other)) == table_view(old, other_mode, cause_is_interrupt(other)) || (other_mode == mode && cause_is_interrupt(other) == cause_is_interrupt(mcause)));
}

/// Removing an override just registered for a cause that had none gives
/// back the tables as they were.
pub proof fn lemma_remove_undoes_register(
    t0: TrapOverrideAttributes,
    t1: TrapOverrideAttributes,
    t2: TrapOverrideAttributes,
    mode: TrapMode,
    mcause: u64,
    handler: u64,
    r1: Result<(), TrapOverrideError>,
    r2: Result<(), TrapOverrideError>,
)
    requires
        override_registered(t0, t1, mode, mcause, handler, r1),
        r1 is Ok,
        handler != 0,
        cause_table(t0, mode, mcause)[cause_code(mcause) as int] == 0,
        override_removed(t1, t2, mode, mcause, r2),
    ensures
        r2 is Ok,
        forall|m: TrapMode, i: bool| #[trigger] table_view(t2, m, i) == table_view(t0, m, i),
{
    assert(cause_table(t2, mode, mcause) =~= cause_table(t0, mode, mcause));
    assert forall|m: TrapMode, i: bool| #[trigger] table_view(t2, m, i) == table_view(t0, m, i) by {
        if !(m == mode && i == cause_is_interrupt(mcause)) {
            assert(table_view(t1, m, i) == table_view(t0, m, i));
            assert(table_view(t2, m, i) == table_view(t1, m, i));
        }
    }
}

} // verus!
