use jumpstart::cpu_bits::{
    MCAUSE_INT_FLAG, RISCV_EXCP_HW_ERR, RISCV_EXCP_ILLEGAL_INST, RISCV_EXCP_LOAD_PAGE_FAULT,
    RISCV_EXCP_STORE_PAGE_FAULT, RISCV_EXCP_S_ECALL, RISCV_EXCP_U_ECALL,
};
use jumpstart::trap::{
    describe_smode_exception, exception_report_text, get_exception_name, TrapOverrideAttributes, TrapOverrideError,
};

fn tables() -> TrapOverrideAttributes {
    TrapOverrideAttributes::new(32, 16, 32, 16, 32, 16)
}

#[test]
fn new_tables_hold_no_overrides() {
    let t = tables();
    assert_eq!(t.mmode_exception_handler_overrides, vec![0u64; 32]);
    assert_eq!(t.smode_interrupt_handler_overrides, vec![0u64; 16]);
    assert_eq!(t.get_mmode_trap_handler_override(5), Ok(0));
    assert_eq!(t.get_smode_trap_handler_override(MCAUSE_INT_FLAG | 3), Ok(0));
}

#[test]
fn lookup_after_register_gives_handler() {
    let mut t = tables();
    assert_eq!(t.register_mmode_trap_handler_override(5, 0xdead), Ok(()));
    assert_eq!(t.get_mmode_trap_handler_override(5), Ok(0xdead));
    assert_eq!(t.register_smode_trap_handler_override(MCAUSE_INT_FLAG | 9, 0xbeef), Ok(()));
    assert_eq!(t.get_smode_trap_handler_override(MCAUSE_INT_FLAG | 9), Ok(0xbeef));
}

#[test]
fn register_keeps_other_causes() {
    let mut t = tables();
    t.register_mmode_trap_handler_override(7, 0x1000).unwrap();
    t.register_mmode_trap_handler_override(MCAUSE_INT_FLAG | 7, 0x2000).unwrap();
    // The exception and the interrupt with the same code are separate.
    assert_eq!(t.get_mmode_trap_handler_override(7), Ok(0x1000));
    assert_eq!(t.get_mmode_trap_handler_override(MCAUSE_INT_FLAG | 7), Ok(0x2000));
    assert_eq!(t.get_mmode_trap_handler_override(6), Ok(0));
    // Other modes are untouched.
    assert_eq!(t.get_smode_trap_handler_override(7), Ok(0));
    assert_eq!(t.get_vsmode_trap_handler_override(1, 7), Ok(0));
}

#[test]
fn remove_undoes_register() {
    let mut t = tables();
    t.register_smode_trap_handler_override(12, 0x4444).unwrap();
    assert_eq!(t.deregister_smode_trap_handler_override(12), Ok(()));
    assert_eq!(t.get_smode_trap_handler_override(12), Ok(0));
    assert_eq!(t.smode_exception_handler_overrides, vec![0u64; 32]);
}

#[test]
fn deregister_without_override_fails() {
    let mut t = tables();
    assert_eq!(t.deregister_mmode_trap_handler_override(3), Err(TrapOverrideError::NotRegistered));
    assert_eq!(t.deregister_smode_trap_handler_override(3), Err(TrapOverrideError::NotRegistered));
    assert_eq!(t.deregister_vsmode_trap_handler_override(1, 3), Err(TrapOverrideError::NotRegistered));
}

#[test]
fn code_beyond_table_fails() {
    let mut t = tables();
    assert_eq!(t.register_mmode_trap_handler_override(32, 1), Err(TrapOverrideError::CodeOutOfRange));
    assert_eq!(t.register_smode_trap_handler_override(MCAUSE_INT_FLAG | 16, 1), Err(TrapOverrideError::CodeOutOfRange));
    assert_eq!(t.get_mmode_trap_handler_override(40), Err(TrapOverrideError::CodeOutOfRange));
    assert_eq!(t.deregister_mmode_trap_handler_override(40), Err(TrapOverrideError::CodeOutOfRange));
    assert_eq!(t.mmode_exception_handler_overrides, vec![0u64; 32]);
}

#[test]
fn vsmode_needs_virtualization() {
    let mut t = tables();
    assert_eq!(t.register_vsmode_trap_handler_override(0, 5, 0x10), Err(TrapOverrideError::NotVirtualized));
    assert_eq!(t.get_vsmode_trap_handler_override(0, 5), Err(TrapOverrideError::NotVirtualized));
    assert_eq!(t.deregister_vsmode_trap_handler_override(0, 5), Err(TrapOverrideError::NotVirtualized));
    assert_eq!(t.vsmode_exception_handler_overrides, vec![0u64; 32]);
    assert_eq!(t.register_vsmode_trap_handler_override(1, 5, 0x10), Ok(()));
    assert_eq!(t.get_vsmode_trap_handler_override(1, 5), Ok(0x10));
    assert_eq!(t.deregister_vsmode_trap_handler_override(1, 5), Ok(()));
    assert_eq!(t.get_vsmode_trap_handler_override(1, 5), Ok(0));
}

#[test]
fn default_handlers_skip_environment_calls() {
    let mut t = tables();
    assert_eq!(t.register_default_smode_exception_handlers(0x8000), Ok(()));
    assert_eq!(t.get_smode_trap_handler_override(RISCV_EXCP_ILLEGAL_INST), Ok(0x8000));
    assert_eq!(t.get_smode_trap_handler_override(RISCV_EXCP_HW_ERR), Ok(0x8000));
    assert_eq!(t.get_smode_trap_handler_override(RISCV_EXCP_U_ECALL), Ok(0));
    assert_eq!(t.get_smode_trap_handler_override(RISCV_EXCP_S_ECALL), Ok(0));
    assert_eq!(t.get_smode_trap_handler_override(0xe), Ok(0));
    let set: usize = t.smode_exception_handler_overrides.iter().filter(|h| **h == 0x8000).count();
    assert_eq!(set, 13);
    assert_eq!(t.mmode_exception_handler_overrides, vec![0u64; 32]);
}

#[test]
fn default_handlers_stop_at_small_table() {
    let mut t = TrapOverrideAttributes::new(0, 0, 16, 0, 0, 0);
    assert_eq!(t.register_default_smode_exception_handlers(0x8000), Err(TrapOverrideError::CodeOutOfRange));
    assert_eq!(t.get_smode_trap_handler_override(RISCV_EXCP_STORE_PAGE_FAULT), Ok(0x8000));
    assert_eq!(t.get_smode_trap_handler_override(RISCV_EXCP_LOAD_PAGE_FAULT), Ok(0x8000));
    assert_eq!(t.get_smode_trap_handler_override(RISCV_EXCP_HW_ERR), Err(TrapOverrideError::CodeOutOfRange));
}

#[test]
fn exception_names() {
    assert_eq!(get_exception_name(0), "Instruction Address Misaligned");
    assert_eq!(get_exception_name(RISCV_EXCP_ILLEGAL_INST), "Illegal Instruction");
    assert_eq!(get_exception_name(7), "Store/AMO Access Fault");
    assert_eq!(get_exception_name(0xb), "Machine ECALL");
    assert_eq!(get_exception_name(0x13), "HW Error");
    assert_eq!(get_exception_name(0xe), "Unknown Exception");
    assert_eq!(get_exception_name(100), "Unknown Exception");
}

#[test]
fn exception_report_decodes_status_bits() {
    let sstatus: u64 = (1 << 8) | (1 << 5) | (1 << 36);
    let r = describe_smode_exception(MCAUSE_INT_FLAG | 0xd, sstatus);
    assert_eq!(r.exception_id, 0xd);
    assert_eq!((r.spp, r.sie, r.spie, r.ube, r.sbe), (1, 0, 1, 0, 1));
    let r2 = describe_smode_exception(2, (1 << 1) | (1 << 6));
    assert_eq!(r2.exception_id, 2);
    assert_eq!((r2.spp, r2.sie, r2.spie, r2.ube, r2.sbe), (0, 1, 0, 1, 0));
}

#[test]
fn exception_report_text_lists_trap_state() {
    let sstatus: u64 = (1 << 8) | (1 << 5) | (1 << 36) | 0x6000;
    let text = exception_report_text(3, 0xd, 0x8000_1234, 0xdead_beef, sstatus);
    let expected = format!(
        "CPU_3_LOG: ERROR: Unexpected exception occurred!\n\
         CPU_3_LOG: Exception ID: 0xd (Load Page Fault)\n\
         CPU_3_LOG: Program Counter (sepc): 0x80001234\n\
         CPU_3_LOG: Trap Value (stval): 0xdeadbeef\n\
         CPU_3_LOG: Status Register (sstatus): 0x{:x}\n\
         CPU_3_LOG: Status bits: SPP=1 | SIE=0 | SPIE=1 | UBE=0 | SBE=1\n",
        sstatus
    );
    assert_eq!(String::from_utf8(text).unwrap(), expected);
}

#[test]
fn exception_report_text_for_unknown_exception() {
    let text = exception_report_text(12, MCAUSE_INT_FLAG | 0x30, 0, 0, 0);
    let s = String::from_utf8(text).unwrap();
    assert!(s.starts_with("CPU_12_LOG: ERROR: Unexpected exception occurred!\n"));
    assert!(s.contains("CPU_12_LOG: Exception ID: 0x30 (Unknown Exception)\n"));
    assert!(s.ends_with("CPU_12_LOG: Status bits: SPP=0 | SIE=0 | SPIE=0 | UBE=0 | SBE=0\n"));
}
