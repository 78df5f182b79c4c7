use lamzfs::error::{Error, LabelReason, Location};
use lamzfs::path::Path;
use lamzfs::util::fixed_str::Fstr;
use lamzfs::util::text::{decode, same_bytes, same_text};

#[test]
fn fixed_strings_from_text() {
    let f = Fstr::<8>::from("boot");
    assert_eq!(f.as_str(), Some("boot"));
    assert_eq!(f.as_bytes(), b"boot");
    assert_eq!((f.len(), f.capacity()), (4, 8));
    assert!(!f.is_trimmed() && !f.is_empty());
    let f = Fstr::<8>::from("vmlinuz-6");
    assert_eq!(f.as_str(), Some("vmlinuz-"));
    assert!(f.is_trimmed());
    assert!(Fstr::<8>::from("").is_empty());
}

#[test]
fn fixed_strings_are_cut_between_characters() {
    // Two bytes each: five characters in ten bytes.
    let f = Fstr::<5>::from("\u{e9}\u{e9}\u{e9}\u{e9}\u{e9}");
    assert_eq!(f.as_str(), Some("\u{e9}\u{e9}"));
    assert!(f.is_trimmed());
    // Four bytes each.
    let f = Fstr::<7>::from("\u{1f600}\u{1f601}");
    assert_eq!(f.as_str(), Some("\u{1f600}"));
    // There is no room for a whole character.
    let f = Fstr::<2>::from("\u{1f600}");
    assert_eq!(f.as_bytes(), &[0xf0, 0x9f]);
    assert_eq!(f.as_str(), None);
    assert!(f.is_trimmed());
    let f = Fstr::<0>::from("x");
    assert!(f.is_empty() && f.is_trimmed());
}

#[test]
fn fixed_strings_from_bytes() {
    let f = Fstr::<4>::from(&b"abcdef"[..]);
    assert_eq!(f.as_bytes(), b"abcd");
    assert!(f.is_trimmed());
    let f = Fstr::<4>::from(&[0xffu8, 0xfe][..]);
    assert_eq!(f.as_str(), None);
    assert!(!f.is_trimmed());
}

#[test]
fn fixed_strings_shown() {
    assert_eq!(Fstr::<8>::from("boot").show(), "boot");
    assert_eq!(
        Fstr::<8>::from(&[0xffu8, 0, 10, 99, 100][..]).show(),
        "[255, 0, 10, 99, 100]"
    );
}

#[test]
fn text_and_bytes() {
    assert_eq!(decode("gr\u{fc}n".as_bytes()), Some("gr\u{fc}n"));
    assert_eq!(decode(&[0xc3]), None);
    assert!(same_bytes(b"ab", b"ab") && !same_bytes(b"ab", b"abc"));
    assert!(same_text("ROOT", "ROOT") && !same_text("ROOT", "root"));
}

#[test]
fn redundant_parts_of_paths() {
    let of = |p: &'static [u8]| Path::new(p).components();
    assert_eq!(of(b"/boot//vmlinuz"), of(b"/boot/vmlinuz"));
    assert_eq!(of(b"/boot/./vmlinuz/"), of(b"boot/vmlinuz"));
    assert_eq!(of(b"..//.hidden/."), [&b".."[..], &b".hidden"[..]]);
    assert_eq!(Path::new(b"/a").as_bytes(), b"/a");
}

#[test]
fn tokens_of_errors() {
    let cases: Vec<(Error, &str)> = vec![
        (
            Error::Io {
                token: "io_block",
                vdev: 1,
                offset: 2,
            },
            "io_block",
        ),
        (Error::BadLabel(LabelReason::BadMagic), "label_bad_magic"),
        (
            Error::BadLabel(LabelReason::BadChecksum),
            "label_bad_checksum",
        ),
        (Error::BadLabel(LabelReason::NoLabels), "label_none"),
        (
            Error::BadLabel(LabelReason::PoolGuidMismatch),
            "label_pool_guid_mismatch",
        ),
        (
            Error::BadLabel(LabelReason::NotAZfsMember),
            "label_not_a_member",
        ),
        (Error::NoValidUberblock, "no_valid_uberblock"),
        (Error::UnsupportedFeature("encryption"), "encryption"),
        (Error::UnsupportedTopology("topo_draid"), "topo_draid"),
        (Error::Unsupported("gang_block"), "gang_block"),
        (
            Error::ChecksumMismatch {
                vdev: 0,
                offset: 0,
                what: "csum_sha256",
            },
            "csum_sha256",
        ),
        (
            Error::Inconsistent {
                token: "nv_u64",
                where_: Location::Uberblock,
            },
            "nv_u64",
        ),
        (Error::UnsupportedCompression { comp: 1 }, "comp_unsupported"),
        (
            Error::BadCompression {
                comp: 3,
                token: "lzjb_bad",
            },
            "lzjb_bad",
        ),
        (Error::NotFound { component: "path" }, "not_found"),
        (Error::NotARegularFile, "not_a_regular_file"),
        (Error::NotADirectory, "not_a_directory"),
        (Error::NotASymlink, "not_a_symlink"),
        (Error::FileTooLarge { size: 2, max: 1 }, "file_too_large"),
        (Error::OutOfMemory { site: "alloc" }, "alloc"),
    ];
    for (e, token) in cases {
        assert_eq!(e.token(), token);
        assert_eq!(e.message(), format!("lamzfs: {token}"));
    }
}
