# jumpstart

The logic of the JumpStart bare-metal RISC-V runtime, verified with Verus.

- `src/` is the verified library:
  - `cpu_bits`: bit-field helpers on control and status register values and
    the architectural constants;
  - `utils`: bit-range extraction and insertion, the linear-congruential
    generator and the entropy-seed poll;
  - `heap`: the three DDR heaps (write-back, write-combining, uncached), a
    round-robin first-fit allocator with splitting and coalescing;
  - `tablewalk`: the Sv39/Sv48 (and x4 guest) page-table walker;
  - `trap`: trap-handler override tables, exception decoding and the
    default handler's report;
  - `string`: C character classification and NUL-terminated strings;
  - `uart`: what `puts` and `printk` print;
  - `time`: time of day from timer ticks, and when a `delay_us` busy-wait
    on the timer is over.
- `app/` is the runtime around it: the C entry points, the spinlocks and
  atomics shared between harts, and the accesses to registers, the timer,
  the UART and raw memory.
- `tests/` runs the library on concrete values.
