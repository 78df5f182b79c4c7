use lamzfs::vdev::{dva_byte_offset, Topology, LABEL_RESERVE};

#[test]
fn dva_offset_maps_past_the_label_reserve() {
    assert_eq!(dva_byte_offset(0), Some(LABEL_RESERVE));
    assert_eq!(dva_byte_offset(1), Some(LABEL_RESERVE + 512));
    assert_eq!(dva_byte_offset(1 << 60), None);
}

#[test]
fn read_order_single_and_mirror() {
    assert_eq!(Topology::Single(2).read_order(), &[2]);
    assert_eq!(Topology::Mirror(vec![1, 3, 5]).read_order(), &[1, 3, 5]);
}
