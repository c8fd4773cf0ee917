use rvemu::{DramError, DRAM};

fn bytes_of(m: &DRAM, addr: u32, n: u32) -> Vec<u32> {
    (0..n).map(|i| m.load(addr + i, 8).unwrap()).collect()
}

#[test]
fn scenario_image_load_store() {
    let mut m = DRAM::new(&[0xAA, 0xBB], 0x1000, 4);
    assert_eq!(bytes_of(&m, 0x1000, 4), vec![0xAA, 0xBB, 0x00, 0x00]);
    assert_eq!(m.load(0x1000, 16), Ok(0xBBAA));
    assert_eq!(m.store(0x1002, 0xCCDD, 16), Ok(()));
    assert_eq!(bytes_of(&m, 0x1000, 4), vec![0xAA, 0xBB, 0xDD, 0xCC]);
    assert_eq!(m.load(0x1000, 32), Ok(0xCCDDBBAA));
    assert_eq!(m.load(0x1004, 8), Err(DramError::OutOfRangeAddress { addr: 0x1004 }));
}

#[test]
fn round_trip_each_width() {
    let mut m = DRAM::new(&[], 0x8000_0000, 16);
    assert_eq!(m.store(0x8000_0000, 0x1234_5678, 8), Ok(()));
    assert_eq!(m.load(0x8000_0000, 8), Ok(0x78));
    assert_eq!(m.store(0x8000_0004, 0x1234_5678, 16), Ok(()));
    assert_eq!(m.load(0x8000_0004, 16), Ok(0x5678));
    assert_eq!(m.store(0x8000_0009, 0xDEAD_BEEF, 32), Ok(()));
    assert_eq!(m.load(0x8000_0009, 32), Ok(0xDEAD_BEEF));
    assert_eq!(m.store(0x8000_000C, 0xFFFF_FFFF, 32), Ok(()));
    assert_eq!(m.load(0x8000_000C, 32), Ok(0xFFFF_FFFF));
}

#[test]
fn load_bits_above_width_are_zero() {
    let m = DRAM::new(&[0xFF, 0xFF, 0xFF, 0xFF], 0, 4);
    assert_eq!(m.load(0, 8), Ok(0xFF));
    assert_eq!(m.load(0, 16), Ok(0xFFFF));
    assert_eq!(m.load(0, 32), Ok(0xFFFF_FFFF));
}

#[test]
fn outside_window_refused() {
    let mut m = DRAM::new(&[1, 2, 3, 4], 0x100, 4);
    for size in [8u32, 16, 32, 7] {
        assert_eq!(m.load(0xFF, size), Err(DramError::OutOfRangeAddress { addr: 0xFF }));
        assert_eq!(m.load(0x104, size), Err(DramError::OutOfRangeAddress { addr: 0x104 }));
        assert_eq!(m.store(0, 9, size), Err(DramError::OutOfRangeAddress { addr: 0 }));
        assert_eq!(
            m.store(0xFFFF_FFFF, 9, size),
            Err(DramError::OutOfRangeAddress { addr: 0xFFFF_FFFF })
        );
    }
}

#[test]
fn unsupported_width_refused() {
    let mut m = DRAM::new(&[1, 2, 3, 4], 0x100, 4);
    for size in [0u32, 1, 4, 24, 64, u32::MAX] {
        assert_eq!(m.load(0x100, size), Err(DramError::UnsupportedWidth { size }));
        assert_eq!(m.store(0x103, 5, size), Err(DramError::UnsupportedWidth { size }));
    }
}

#[test]
fn address_checked_before_width() {
    let m = DRAM::new(&[], 0x100, 4);
    assert_eq!(m.load(0x200, 12), Err(DramError::OutOfRangeAddress { addr: 0x200 }));
}

#[test]
fn access_running_past_the_end_refused() {
    let mut m = DRAM::new(&[1, 2, 3, 4], 0x100, 4);
    assert_eq!(m.load(0x103, 16), Err(DramError::OutOfRangeAddress { addr: 0x103 }));
    assert_eq!(m.load(0x101, 32), Err(DramError::OutOfRangeAddress { addr: 0x101 }));
    assert_eq!(m.store(0x102, 0xFFFF_FFFF, 32), Err(DramError::OutOfRangeAddress { addr: 0x102 }));
    assert_eq!(m.load(0x100, 32), Ok(0x0403_0201));
}

#[test]
fn word_stored_lowest_byte_first() {
    let mut m = DRAM::new(&[], 0x2000, 8);
    assert_eq!(m.store(0x2004, 0x0403_0201, 32), Ok(()));
    assert_eq!(bytes_of(&m, 0x2004, 4), vec![0x01, 0x02, 0x03, 0x04]);
    assert_eq!(bytes_of(&m, 0x2000, 4), vec![0, 0, 0, 0]);
}

#[test]
fn construction_zero_fills_and_rounds_up() {
    let m = DRAM::new(&[9, 8, 7], 0x10, 5);
    assert_eq!(bytes_of(&m, 0x10, 8), vec![9, 8, 7, 0, 0, 0, 0, 0]);
    assert_eq!(m.load(0x18, 8), Err(DramError::OutOfRangeAddress { addr: 0x18 }));
}

#[test]
fn empty_memory_refuses_everything() {
    let m = DRAM::new(&[], 0x10, 0);
    assert_eq!(m.load(0x10, 8), Err(DramError::OutOfRangeAddress { addr: 0x10 }));
}

#[test]
fn refused_store_writes_nothing() {
    let mut m = DRAM::new(&[1, 2, 3, 4, 5, 6, 7, 8], 0x100, 8);
    assert_eq!(m.store(0x106, 0xAABB_CCDD, 32), Err(DramError::OutOfRangeAddress { addr: 0x106 }));
    assert_eq!(m.store(0x104, 0xAABB_CCDD, 12), Err(DramError::UnsupportedWidth { size: 12 }));
    assert_eq!(bytes_of(&m, 0x100, 8), vec![1, 2, 3, 4, 5, 6, 7, 8]);
}

#[test]
fn window_at_top_of_address_space() {
    let mut m = DRAM::new(&[], 0xFFFF_FFF8, 8);
    assert_eq!(m.store(0xFFFF_FFFC, 0x1122_3344, 32), Ok(()));
    assert_eq!(m.load(0xFFFF_FFFC, 32), Ok(0x1122_3344));
    assert_eq!(m.load(0xFFFF_FFFF, 8), Ok(0x11));
    assert_eq!(m.load(0xFFFF_FFFF, 16), Err(DramError::OutOfRangeAddress { addr: 0xFFFF_FFFF }));
}

#[test]
fn try_new_rejects_oversized_image() {
    assert!(DRAM::try_new(&[1, 2, 3, 4, 5], 0, 4).is_none());
    assert!(DRAM::try_new(&[], 0, u32::MAX).is_none());
    let m = DRAM::try_new(&[1, 2, 3, 4, 5], 0, 5).unwrap();
    assert_eq!(m.load(4, 32), Ok(5));
}
