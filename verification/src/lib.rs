//! Verified core of the JumpStart bare-metal runtime: CSR bit-field helpers,
//! bit-range extraction, the first-fit heap allocator, the RISC-V page-table
//! walker, trap-handler override tables, C string helpers and the printk
//! formatter.
use vstd::prelude::*;

pub mod cpu_bits;
pub mod heap;
pub mod string;
pub mod tablewalk;
pub mod time;
pub mod trap;
pub mod uart;
pub mod utils;
