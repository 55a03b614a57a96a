//! The simulation run: register file and stack setup around the address
//! space.

use vstd::prelude::*;

use crate::args::Args;
use crate::memory::MemoryManager;

verus! {

/// Highest address of the simulated stack.
pub const STACK_BASE_ADDR: u32 = 0x80000000;

/// Size in bytes of the simulated stack region.
pub const STACK_SIZE: u32 = 0x400000;

/// Number of general-purpose registers.
pub const REG_COUNT: usize = 32;

/// Register number of the stack pointer.
pub const REG_SP: usize = 2;

/// A simulation run: the address space it owns, the options it was started
/// with, the program counter and the register file.
pub struct Simulator {
    pub memory: MemoryManager,
    pub args: Args,
    pub pc: u32,
    pub regs: Vec<u32>,
}

impl Simulator {
    /// A run always carries a well-formed address space and a full register
    /// file.
    pub open spec fn wf(self) -> bool {
        &&& self.memory.wf()
        &&& self.regs@.len() == REG_COUNT
    }

    /// Starts a run at `pc`: every register is zero but the stack pointer,
    /// which starts at the stack base; the whole stack region is mapped and
    /// zeroed.  Mappings made before (by the loader) are kept, and bytes
    /// outside the stack region keep their values where their pages already
    /// existed.
    pub fn new(args: Args, memory: MemoryManager, pc: u32) -> (sim: Simulator)
        requires
            memory.wf(),
        ensures
            sim.wf(),
            sim.args == args,
            sim.pc == pc,
            forall|x: int| 0 <= x < REG_COUNT && x != REG_SP ==> sim.regs@[x] == 0,
            sim.regs@[REG_SP as int] == STACK_BASE_ADDR,
            forall|a: u32|
                STACK_BASE_ADDR - STACK_SIZE < a <= STACK_BASE_ADDR ==> #[trigger] sim.memory
                    .spec_mapped(a) && sim.memory.spec_byte(a) == 0,
            forall|a: u32| memory.spec_mapped(a) ==> #[trigger] sim.memory.spec_mapped(a),
            forall|a: u32|
                !(STACK_BASE_ADDR - STACK_SIZE < a <= STACK_BASE_ADDR) && memory.spec_mapped(a)
                    ==> #[trigger] sim.memory.spec_byte(a) == memory.spec_byte(a),
            forall|a: u32|
                !(STACK_BASE_ADDR - STACK_SIZE < a <= STACK_BASE_ADDR) && !memory.spec_mapped(a)
                    && #[trigger] sim.memory.spec_mapped(a) ==> sim.memory.spec_byte(a) == 0,
    {
        let mut regs: Vec<u32> = Vec::new();
        let mut x: usize = 0;
        while x < REG_COUNT
            invariant
                x <= REG_COUNT,
                regs@.len() == x,
                forall|t: int| 0 <= t < x ==> regs@[t] == 0,
            decreases REG_COUNT - x,
        {
            regs.push(0);
            x = x + 1;
        }
        regs[REG_SP] = STACK_BASE_ADDR;
        let mut sim = Simulator { memory, args, pc, regs };
        let mut addr: u32 = STACK_BASE_ADDR - STACK_SIZE + 1;
        while addr <= STACK_BASE_ADDR
            invariant
                sim.memory.wf(),
                sim.args == args,
                sim.pc == pc,
                sim.regs@.len() == REG_COUNT,
                forall|t: int| 0 <= t < REG_COUNT && t != REG_SP ==> sim.regs@[t] == 0,
                sim.regs@[REG_SP as int] == STACK_BASE_ADDR,
                STACK_BASE_ADDR - STACK_SIZE < addr <= STACK_BASE_ADDR + 1,
                forall|a: u32|
                    STACK_BASE_ADDR - STACK_SIZE < a < addr ==> #[trigger] sim.memory.spec_mapped(
                        a,
                    ) && sim.memory.spec_byte(a) == 0,
                forall|a: u32| memory.spec_mapped(a) ==> #[trigger] sim.memory.spec_mapped(a),
                forall|a: u32|
                    !(STACK_BASE_ADDR - STACK_SIZE < a < addr) && memory.spec_mapped(a)
                        ==> #[trigger] sim.memory.spec_byte(a) == memory.spec_byte(a),
                forall|a: u32|
                    !(STACK_BASE_ADDR - STACK_SIZE < a < addr) && !memory.spec_mapped(a)
                        && #[trigger] sim.memory.spec_mapped(a) ==> sim.memory.spec_byte(a) == 0,
            decreases STACK_BASE_ADDR + 1 - addr,
        {
            let ghost m1 = sim.memory;
            if !sim.memory.is_page_exist(addr) {
                let _ = sim.memory.add_page(addr);
            }
            let ghost m2 = sim.memory;
            let _ = sim.memory.set_byte(addr, 0);
            proof {
                assert forall|a: u32| STACK_BASE_ADDR - STACK_SIZE < a < addr + 1 implies
                    #[trigger] sim.memory.spec_mapped(a) && sim.memory.spec_byte(a) == 0 by {
                    if a != addr {
                        assert(STACK_BASE_ADDR - STACK_SIZE < a && (a as int) < addr as int);
                        assert(m1.spec_mapped(a));
                        assert(m1.spec_byte(a) == 0);
                        assert(m2.spec_mapped(a));
                        assert(m2.spec_byte(a) == m1.spec_byte(a));
                        assert(sim.memory.spec_byte(a) == m2.spec_byte(a));
                    }
                }
                assert forall|a: u32| memory.spec_mapped(a) implies #[trigger] sim.memory
                    .spec_mapped(a) by {
                    assert(m1.spec_mapped(a));
                    assert(m2.spec_mapped(a));
                }
                assert forall|a: u32|
                    !(STACK_BASE_ADDR - STACK_SIZE < a < addr + 1) && memory.spec_mapped(
                        a,
                    ) implies #[trigger] sim.memory.spec_byte(a) == memory.spec_byte(a) by {
                    assert(m1.spec_mapped(a));
                    assert(m1.spec_byte(a) == memory.spec_byte(a));
                    assert(m2.spec_byte(a) == m1.spec_byte(a));
                    assert(a != addr);
                    assert(sim.memory.spec_byte(a) == m2.spec_byte(a));
                }
                assert forall|a: u32|
                    !(STACK_BASE_ADDR - STACK_SIZE < a < addr + 1) && !memory.spec_mapped(a)
                        && #[trigger] sim.memory.spec_mapped(a) implies sim.memory.spec_byte(a)
                    == 0 by {
                    assert(m2.spec_mapped(a));
                    assert(a != addr);
                    if m1.spec_mapped(a) {
                        assert(m1.spec_byte(a) == 0);
                        assert(m2.spec_byte(a) == m1.spec_byte(a));
                    } else {
                        assert(m2.spec_byte(a) == 0);
                    }
                    assert(sim.memory.spec_byte(a) == m2.spec_byte(a));
                }
            }
            addr = addr + 1;
        }
        sim
    }
}

} // verus!
