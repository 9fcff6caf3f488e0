use wordgrid::bits::{cell_bit, count_cells, test_bit};

#[test]
fn cell_bit_is_one_shifted() {
    assert_eq!(cell_bit(0), 1);
    assert_eq!(cell_bit(5), 32);
    assert_eq!(cell_bit(63), 1u64 << 63);
}

#[test]
fn test_bit_reads_membership() {
    assert!(test_bit(0b1010, 1));
    assert!(!test_bit(0b1010, 0));
    assert!(test_bit(u64::MAX, 63));
    assert!(!test_bit(0, 17));
}

#[test]
fn count_cells_counts_members() {
    assert_eq!(count_cells(0), 0);
    assert_eq!(count_cells(1), 1);
    assert_eq!(count_cells(0b1011), 3);
    assert_eq!(count_cells(u64::MAX), 64);
    assert_eq!(count_cells(0x8000_0000_0000_0001), 2);
}
