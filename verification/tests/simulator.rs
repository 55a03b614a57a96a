use rvsim::args::{Args, BranchPredictorStrategy};
use rvsim::memory::MemoryManager;
use rvsim::simulator::{Simulator, REG_COUNT, REG_SP, STACK_BASE_ADDR, STACK_SIZE};

#[test]
fn simulator_new_initializes_stack_and_registers() {
    let mut memory = MemoryManager::new();
    memory.add_page(0x1000);
    memory.set_byte(0x1000, 7).unwrap();

    let args = Args {
        elf_file: String::from("prog.elf"),
        verbose: true,
        is_single_stop: false,
        dump_history: false,
        strategy: Some(BranchPredictorStrategy::AT),
    };
    let sim = Simulator::new(args, memory, 0x1000);

    assert_eq!(sim.pc, 0x1000);
    assert_eq!(sim.regs.len(), REG_COUNT);
    assert_eq!(sim.regs[REG_SP], STACK_BASE_ADDR);
    for (x, value) in sim.regs.iter().enumerate() {
        if x != REG_SP {
            assert_eq!(*value, 0);
        }
    }
    assert_eq!(sim.args.elf_file, "prog.elf");
    assert!(sim.args.verbose);

    // The whole stack region is mapped and zeroed.
    let lowest = STACK_BASE_ADDR - STACK_SIZE + 1;
    assert!(sim.memory.is_page_exist(STACK_BASE_ADDR));
    assert!(sim.memory.is_page_exist(lowest));
    assert_eq!(sim.memory.get_byte(STACK_BASE_ADDR), Ok(0));
    assert_eq!(sim.memory.get_byte(lowest), Ok(0));
    assert_eq!(sim.memory.get_byte(0x7FE0_0000), Ok(0));

    // Memory loaded before the run is kept.
    assert_eq!(sim.memory.get_byte(0x1000), Ok(7));
}
