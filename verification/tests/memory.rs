use rvsim::memory::{CopyFault, MappingOutcome, MemoryManager, MissingMapping};

#[test]
fn set_and_get_byte() {
    let mut manage = MemoryManager::new();
    let addr = 1_u32;
    manage.add_page(addr);

    manage.set_byte(addr, 123).unwrap();
    assert!(manage.get_byte(addr).unwrap() == 123);

    manage.set_short(addr, 123).unwrap();
    assert!(manage.get_short(addr).unwrap() == 123);

    manage.set_int(addr, 123).unwrap();
    assert!(manage.get_int(addr).unwrap() == 123);

    manage.set_long(addr, 123).unwrap();
    assert!(manage.get_long(addr).unwrap() == 123);
}

#[test]
fn page_miss() {
    let mut manage = MemoryManager::new();
    manage.dump_memory();
    let addr = 1_u32;

    assert!(manage.set_byte(addr, 123).is_err());
    assert!(manage.get_short(addr).is_err());

    manage.add_page(addr);
    assert!(manage.set_byte(addr, 123).is_ok());
    assert!(manage.get_short(addr).is_ok());
}

#[test]
fn copy_from() {
    let mut manage = MemoryManager::new();
    manage.add_page(0_u32);

    manage.set_byte(1_u32, 1).unwrap();
    manage.set_byte(2_u32, 2).unwrap();
    manage.set_byte(3_u32, 3).unwrap();

    assert!(manage.copy_from(1, 4, 3).is_ok());
    assert!(manage.get_byte(4).unwrap() == 1);
    assert!(manage.get_byte(5).unwrap() == 2);
    assert!(manage.get_byte(6).unwrap() == 3);
}

#[test]
fn unmapped_by_default() {
    let m = MemoryManager::new();
    for addr in [0u32, 1, 0xFFF, 0x1000, 0xFFC0_0000, 0xFFFF_FFFF] {
        assert!(!m.is_page_exist(addr));
        assert_eq!(m.get_byte(addr), Err(MissingMapping(addr)));
    }
}

#[test]
fn allocate_then_zero() {
    let mut m = MemoryManager::new();
    let addr = 0x1234_5678_u32;
    assert_eq!(m.add_page(addr), MappingOutcome::Created);
    assert!(m.is_page_exist(addr));
    assert_eq!(m.get_byte(addr), Ok(0));
}

#[test]
fn idempotent_allocation() {
    let mut m = MemoryManager::new();
    let addr = 0x4000_u32;
    assert_eq!(m.add_page(addr), MappingOutcome::Created);
    m.set_byte(addr, 0x7B).unwrap();
    assert_eq!(m.add_page(addr), MappingOutcome::AlreadyMapped);
    assert_eq!(m.get_byte(addr), Ok(0x7B));
}

#[test]
fn little_endian_round_trip() {
    let mut m = MemoryManager::new();
    let addr = 0x2000_u32;
    m.add_page(addr);

    m.set_int(addr, 0xDEAD_BEEF).unwrap();
    assert_eq!(m.get_int(addr), Ok(0xDEAD_BEEF));
    assert_eq!(m.get_byte(addr), Ok(0xEF));
    assert_eq!(m.get_byte(addr + 1), Ok(0xBE));
    assert_eq!(m.get_byte(addr + 2), Ok(0xAD));
    assert_eq!(m.get_byte(addr + 3), Ok(0xDE));

    m.set_short(addr, 0x1234).unwrap();
    assert_eq!(m.get_short(addr), Ok(0x1234));
    assert_eq!(m.get_byte(addr), Ok(0x34));
    assert_eq!(m.get_byte(addr + 1), Ok(0x12));

    m.set_long(addr, 0x0102_0304_0506_0708).unwrap();
    assert_eq!(m.get_long(addr), Ok(0x0102_0304_0506_0708));
    assert_eq!(m.get_byte(addr), Ok(0x08));
    assert_eq!(m.get_byte(addr + 7), Ok(0x01));
}

#[test]
fn atomic_short_write() {
    let mut m = MemoryManager::new();
    // 0xFFF is the last byte of the first page; 0x1000 stays unmapped.
    m.add_page(0xFFF);
    assert_eq!(m.set_short(0xFFF, 0x1234), Err(MissingMapping(0x1000)));
    // The first byte was not torn-written.
    assert_eq!(m.get_byte(0xFFF), Ok(0));
}

#[test]
fn atomic_int_and_long_write() {
    let mut m = MemoryManager::new();
    m.add_page(0);
    assert_eq!(m.set_int(0xFFE, 0x11223344), Err(MissingMapping(0x1000)));
    assert_eq!(m.get_byte(0xFFE), Ok(0));
    assert_eq!(m.get_byte(0xFFF), Ok(0));
    assert_eq!(m.set_long(0xFFC, 0x1122334455667788), Err(MissingMapping(0x1000)));
    for addr in 0xFFC..0x1000_u32 {
        assert_eq!(m.get_byte(addr), Ok(0));
    }
}

#[test]
fn multi_byte_read_faults_name_first_missing() {
    let mut m = MemoryManager::new();
    m.add_page(0);
    assert_eq!(m.get_short(0xFFF), Err(MissingMapping(0x1000)));
    assert_eq!(m.get_int(0xFFD), Err(MissingMapping(0x1000)));
    assert_eq!(m.get_long(0xFFC), Err(MissingMapping(0x1000)));
    assert_eq!(m.get_long(0x2000), Err(MissingMapping(0x2000)));
}

#[test]
fn cross_page_access() {
    let mut m = MemoryManager::new();
    m.add_page(0);
    m.add_page(0x1000);
    m.set_int(0xFFE, 0xCAFEBABE).unwrap();
    assert_eq!(m.get_int(0xFFE), Ok(0xCAFEBABE));
    assert_eq!(m.get_byte(0xFFE), Ok(0xBE));
    assert_eq!(m.get_byte(0x1001), Ok(0xCA));
    assert_eq!(m.get_short(0xFFF), Ok(0xFEBA));
}

#[test]
fn copy_failure_leaves_memory_untouched() {
    let mut m = MemoryManager::new();
    m.add_page(0);
    m.set_byte(1, 1).unwrap();
    m.set_byte(2, 2).unwrap();
    m.set_byte(3, 3).unwrap();
    m.set_byte(0xFFE, 0xAA).unwrap();

    // Destination runs off the mapped page at 0x1000.
    assert_eq!(m.copy_from(1, 0xFFE, 3), Err(CopyFault::DestinationUnmapped(0x1000)));
    assert_eq!(m.get_byte(0xFFE), Ok(0xAA));
    assert_eq!(m.get_byte(0xFFF), Ok(0));

    // Source runs off the mapped page.
    assert_eq!(m.copy_from(0xFFE, 4, 3), Err(CopyFault::SourceUnmapped(0x1000)));
    assert_eq!(m.get_byte(4), Ok(0));
}

#[test]
fn copy_overlapping_ranges() {
    let mut m = MemoryManager::new();
    m.add_page(0);
    m.set_byte(1, 1).unwrap();
    m.set_byte(2, 2).unwrap();
    m.set_byte(3, 3).unwrap();
    // Overlapping forward copy behaves as if staged through a buffer.
    assert!(m.copy_from(1, 2, 3).is_ok());
    assert_eq!(m.get_byte(2), Ok(1));
    assert_eq!(m.get_byte(3), Ok(2));
    assert_eq!(m.get_byte(4), Ok(3));
    assert_eq!(m.get_byte(1), Ok(1));
}

#[test]
fn highest_directory_slot_reachable() {
    let mut m = MemoryManager::new();
    m.add_page(0xFFC0_0000);
    m.set_byte(0xFFC0_0000, 0x11).unwrap();
    assert_eq!(m.get_byte(0xFFC0_0000), Ok(0x11));

    m.add_page(0xFFFF_FFFF);
    m.set_byte(0xFFFF_FFFF, 0xFF).unwrap();
    assert_eq!(m.get_byte(0xFFFF_FFFF), Ok(0xFF));
    assert!(m.is_page_exist(0xFFFF_F000));
    assert!(!m.is_page_exist(0xFFFF_EFFF));
}

#[test]
fn dump_lists_every_mapped_byte_in_order() {
    let mut m = MemoryManager::new();
    assert!(m.dump_memory().is_empty());

    m.add_page(0x1000);
    m.add_page(0x40_0000);
    m.set_byte(0x1005, 0x42).unwrap();
    m.set_byte(0x40_0001, 0x24).unwrap();

    let dump = m.dump_memory();
    assert_eq!(dump.len(), 2 * 4096);
    for w in dump.windows(2) {
        assert!(w[0].0 < w[1].0);
    }
    assert_eq!(dump[0], (0x1000, 0));
    assert_eq!(dump[5], (0x1005, 0x42));
    assert_eq!(dump[4096], (0x40_0000, 0));
    assert_eq!(dump[4097], (0x40_0001, 0x24));
    assert_eq!(dump[8191], (0x40_0FFF, 0));
}

#[test]
fn index_decomposition() {
    assert_eq!(MemoryManager::get_first_entry_id(0xFFC0_0000), 0x3FF);
    assert_eq!(MemoryManager::get_second_entry_id(0x003F_F000), 0x3FF);
    assert_eq!(MemoryManager::get_page_offset(0x0000_0FFF), 0xFFF);
    assert_eq!(MemoryManager::get_first_entry_id(0x8040_3FFF), 0x201);
    assert_eq!(MemoryManager::get_second_entry_id(0x8040_3FFF), 0x3);
    assert_eq!(MemoryManager::get_page_offset(0x8040_3FFF), 0xFFF);
}
