#[test]
fn abi_version_is_one() {
    assert_eq!(spt_native::ABI_VERSION, 1);
}
