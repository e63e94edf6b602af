use rcore_kernel::mm::address::VirtAddr;

#[test]
fn virtual_addresses_have_39_bits() {
    assert_eq!(VirtAddr::new(0xffff_ffff_ffff_f000).0, 0x7f_ffff_f000);
    assert_eq!(VirtAddr::new(0xffff_ffff_ffff_f000).value(), 0xffff_ffff_ffff_f000);
    assert_eq!(VirtAddr::new(0x1001).floor().0, 1);
    assert_eq!(VirtAddr::new(0x1001).ceil().0, 2);
    assert_eq!(VirtAddr::new(0).ceil().0, 0);
}
