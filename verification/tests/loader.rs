use rvsim::loader::{load_segment, load_segments, AddressSpaceOverflow, Segment};
use rvsim::memory::{MemoryManager, MissingMapping};

#[test]
fn image_load_scenario() {
    let mut m = MemoryManager::new();
    let seg = Segment {
        virtual_address: 0x1000,
        file_size: 2,
        memory_size: 4,
        source_bytes: vec![0xDE, 0xAD],
    };
    assert!(load_segment(&mut m, &seg).is_ok());
    assert_eq!(m.get_byte(0x1000), Ok(0xDE));
    assert_eq!(m.get_byte(0x1001), Ok(0xAD));
    assert_eq!(m.get_byte(0x1002), Ok(0));
    assert_eq!(m.get_byte(0x1003), Ok(0));
    for addr in 0x1000..0x1004_u32 {
        assert!(m.is_page_exist(addr));
    }
}

#[test]
fn overflow_rejection() {
    let mut m = MemoryManager::new();
    let seg = Segment {
        virtual_address: 0xFFFF_FFF0,
        file_size: 0,
        memory_size: 0x20,
        source_bytes: Vec::new(),
    };
    assert_eq!(load_segment(&mut m, &seg), Err(AddressSpaceOverflow));
    assert!(!m.is_page_exist(0xFFFF_FFF0));
    assert_eq!(m.get_byte(0xFFFF_FFF0), Err(MissingMapping(0xFFFF_FFF0)));
}

#[test]
fn overflowing_segment_aborts_whole_load() {
    let mut m = MemoryManager::new();
    let good = Segment {
        virtual_address: 0x1000,
        file_size: 1,
        memory_size: 1,
        source_bytes: vec![0x55],
    };
    let bad = Segment {
        virtual_address: 0xFFFF_FFF0,
        file_size: 0,
        memory_size: 0x20,
        source_bytes: Vec::new(),
    };
    assert_eq!(load_segments(&mut m, &vec![good, bad]), Err(AddressSpaceOverflow));
    // Nothing was mapped: the whole load is rejected up front.
    assert!(!m.is_page_exist(0x1000));
}

#[test]
fn later_segment_wins_on_overlap() {
    let mut m = MemoryManager::new();
    let first = Segment {
        virtual_address: 0x1000,
        file_size: 4,
        memory_size: 4,
        source_bytes: vec![1, 2, 3, 4],
    };
    let second = Segment {
        virtual_address: 0x1002,
        file_size: 2,
        memory_size: 3,
        source_bytes: vec![9, 8],
    };
    assert!(load_segments(&mut m, &vec![first, second]).is_ok());
    assert_eq!(m.get_byte(0x1000), Ok(1));
    assert_eq!(m.get_byte(0x1001), Ok(2));
    assert_eq!(m.get_byte(0x1002), Ok(9));
    assert_eq!(m.get_byte(0x1003), Ok(8));
    assert_eq!(m.get_byte(0x1004), Ok(0));
}

#[test]
fn load_keeps_bytes_outside_segment() {
    let mut m = MemoryManager::new();
    m.add_page(0x1000);
    m.set_byte(0x1800, 0x77).unwrap();
    let seg = Segment {
        virtual_address: 0x1000,
        file_size: 1,
        memory_size: 2,
        source_bytes: vec![0xAB],
    };
    assert!(load_segment(&mut m, &seg).is_ok());
    assert_eq!(m.get_byte(0x1000), Ok(0xAB));
    assert_eq!(m.get_byte(0x1001), Ok(0));
    assert_eq!(m.get_byte(0x1800), Ok(0x77));
}

#[test]
fn segment_fitting_exactly_is_accepted() {
    let mut m = MemoryManager::new();
    // virtual_address + memory_size == 0xFFFFFFFF is the largest accepted sum.
    let seg = Segment {
        virtual_address: 0xFFFF_FFFD,
        file_size: 1,
        memory_size: 2,
        source_bytes: vec![0x31],
    };
    assert!(load_segment(&mut m, &seg).is_ok());
    assert_eq!(m.get_byte(0xFFFF_FFFD), Ok(0x31));
    assert_eq!(m.get_byte(0xFFFF_FFFE), Ok(0));
}
