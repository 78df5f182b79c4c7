use lamzfs::path::Path;

#[test]
fn splits_and_filters() {
    let p = Path::new(b"/boot//BOOT/./vmlinuz");
    let comps: Vec<&[u8]> = p.components();
    assert_eq!(comps, [&b"boot"[..], &b"BOOT"[..], &b"vmlinuz"[..]]);
}

#[test]
fn root_has_no_components() {
    assert_eq!(Path::new(b"/").components().len(), 0);
    assert_eq!(Path::new(b"").components().len(), 0);
}
