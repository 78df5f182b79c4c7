use lamzfs::block_read::{read_exact, BlockRead, MemImage, PoolMember};
use lamzfs::checksum::sha256::{Sha256, Sha256Implementation};
use lamzfs::checksum::Checksum;
use lamzfs::dataset::{sa_file_size, EntryKind};
use lamzfs::error::{Error, Location};
use lamzfs::file::{read_dnode_block, read_dnode_range};
use lamzfs::phys::block_pointer::{
    BlockPointer, Dva, EmbeddedPointer, EncryptedPointer, RegularPointer,
};
use lamzfs::phys::dnode::{Dnode, ObjectSet};
use lamzfs::phys::dsl::{DslDataSet, DslDirectory};
use lamzfs::phys::endian::EndianOrder;
use lamzfs::phys::label::{label_verify, UberBlock};
use lamzfs::phys::nv::{Lookup, NvList};
use lamzfs::phys::property::{ChecksumType, ChecksumValue, CompressionType};
use lamzfs::phys::zap::{check_micro, decode_micro};
use lamzfs::phys::Malformed;
use lamzfs::raidz::{join, recover, unit_size, Geometry};
use lamzfs::vdev::{read_block_pointer, Topology, Vdev, LABEL_RESERVE};
use lamzfs::walk::{read_object_dnode, zap_entries, zap_lookup};

const BIG: EndianOrder = EndianOrder::Big;
const LITTLE: EndianOrder = EndianOrder::Little;

fn put(b: &mut [u8], at: usize, v: u64, order: EndianOrder) {
    let bytes = match order {
        EndianOrder::Big => v.to_be_bytes(),
        EndianOrder::Little => v.to_le_bytes(),
    };
    b[at..at + 8].copy_from_slice(&bytes);
}

fn regular(order: EndianOrder) -> Vec<u8> {
    let mut b = vec![0u8; 128];
    put(&mut b, 0, 5 << 32 | 8, order);
    put(&mut b, 8, 0x1234, order);
    put(&mut b, 32, 6 << 32 | 8, order);
    put(&mut b, 40, 1 << 63 | 0x99, order);
    put(
        &mut b,
        48,
        15 | 7 << 16 | 15 << 32 | 7 << 40 | 1 << 63,
        order,
    );
    for i in 0..4 {
        put(&mut b, 96 + 8 * i, 100 + i as u64, order);
    }
    b
}

#[test]
fn pointers_in_both_orders() {
    for order in [BIG, LITTLE] {
        let bp = BlockPointer::from_bytes(&regular(order), 0, order)
            .unwrap()
            .unwrap();
        assert_eq!(bp.order(), LITTLE);
        let BlockPointer::Regular(r) = bp else {
            panic!("not regular")
        };
        assert_eq!(r.logical_sectors, 16);
        assert_eq!(r.physical_sectors, 8);
        assert_eq!(r.compression, CompressionType::Lz4);
        assert_eq!(r.checksum_type, ChecksumType::Fletcher4);
        assert_eq!(r.checksum_value.words, [100, 101, 102, 103]);
        assert_eq!(
            r.dvas,
            [
                Some(Dva {
                    vdev: 5,
                    offset: 0x1234,
                    is_gang: false
                }),
                None,
                Some(Dva {
                    vdev: 6,
                    offset: 0x99,
                    is_gang: true
                })
            ]
        );
    }
}

#[test]
fn pointers_of_other_kinds() {
    assert!(matches!(
        BlockPointer::from_bytes(&[0u8; 128], 0, LITTLE),
        Ok(None)
    ));
    // A hole that carries properties.
    let mut b = vec![0u8; 128];
    put(&mut b, 48, 15 | 1 << 63, LITTLE);
    assert!(matches!(BlockPointer::from_bytes(&b, 0, LITTLE), Ok(None)));
    let mut b = regular(LITTLE);
    put(&mut b, 48, 1 << 61 | 2 << 32, LITTLE);
    let bp = BlockPointer::from_bytes(&b, 0, LITTLE).unwrap().unwrap();
    assert!(matches!(bp, BlockPointer::Encrypted(_)));
    assert_eq!(bp.order(), BIG);
    // An unknown compression, and an unknown checksum.
    put(&mut b, 48, 100 << 32, LITTLE);
    assert!(BlockPointer::from_bytes(&b, 0, LITTLE).is_err());
    put(&mut b, 48, 2 << 32 | 99 << 40, LITTLE);
    assert!(BlockPointer::from_bytes(&b, 0, LITTLE).is_err());
    // An embedded pointer, and one of another type.
    let mut b: Vec<u8> = (0..128).collect();
    put(&mut b, 48, 99 | 11 << 25 | 2 << 32 | 1 << 39, LITTLE);
    let Ok(Some(BlockPointer::Embedded(e))) = BlockPointer::from_bytes(&b, 0, LITTLE) else {
        panic!("not embedded")
    };
    assert_eq!((e.logical_size, e.physical_size), (100, 12));
    assert_eq!(e.payload[47..49], [47, 56]);
    assert_eq!(e.payload[71..73], [79, 88]);
    put(&mut b, 48, 2 << 32 | 1 << 39 | 1 << 40, LITTLE);
    assert!(BlockPointer::from_bytes(&b, 0, LITTLE).is_err());
}

fn members(image: Vec<u8>) -> Vec<PoolMember<MemImage>> {
    vec![PoolMember {
        device_size_bytes: image.len() as u64,
        reader: MemImage(image),
    }]
}

fn off_pointer(dvas: [Option<Dva>; 3], sectors: u32) -> RegularPointer {
    RegularPointer {
        logical_sectors: sectors,
        physical_sectors: sectors,
        dvas,
        checksum_type: ChecksumType::Off,
        checksum_value: ChecksumValue { words: [0; 4] },
        compression: CompressionType::Off,
        order: LITTLE,
    }
}

fn at(offset: u64) -> Option<Dva> {
    Some(Dva {
        vdev: 4,
        offset,
        is_gang: false,
    })
}

fn single(guid: u64) -> Vdev {
    Vdev {
        topology: Topology::Single(0),
        guids: vec![guid],
    }
}

#[test]
fn pointers_that_cannot_be_read() {
    let vdev = single(77);
    let mut m = members(vec![7u8; LABEL_RESERVE as usize + 1024]);
    let mut error = |bp: BlockPointer| read_block_pointer(&mut m, &vdev, &bp).unwrap_err();
    assert_eq!(
        error(BlockPointer::Encrypted(EncryptedPointer { order: BIG })),
        Error::UnsupportedFeature("encryption")
    );
    let inconsistent = |token| Error::Inconsistent {
        token,
        where_: Location::Mos,
    };
    assert_eq!(
        error(BlockPointer::Regular(off_pointer([at(0), None, None], 0))),
        inconsistent("bp_bad_psize")
    );
    assert_eq!(
        error(BlockPointer::Regular(off_pointer(
            [at(0), None, None],
            0x8001
        ))),
        inconsistent("bp_bad_psize")
    );
    assert_eq!(
        error(BlockPointer::Regular(off_pointer([None, None, None], 1))),
        inconsistent("bp_no_readable_copy")
    );
    assert_eq!(
        error(BlockPointer::Regular(off_pointer(
            [at(1 << 60), None, None],
            1
        ))),
        inconsistent("dva_out_of_range")
    );
    let gang = Some(Dva {
        vdev: 0,
        offset: 0,
        is_gang: true,
    });
    assert_eq!(
        error(BlockPointer::Regular(off_pointer([gang, None, None], 1))),
        Error::Unsupported("gang_block")
    );
    assert_eq!(
        error(BlockPointer::Regular(off_pointer([at(2), None, None], 1))),
        Error::Io {
            token: "io_block",
            vdev: 77,
            offset: LABEL_RESERVE + 1024
        }
    );
    assert_eq!(
        error(BlockPointer::Embedded(EmbeddedPointer {
            payload: [0; 112],
            logical_size: 1,
            physical_size: 113,
            compression: CompressionType::Off,
            order: BIG,
        })),
        inconsistent("embedded_short")
    );
    let mut skein = off_pointer([at(0), None, None], 1);
    skein.checksum_type = ChecksumType::Skein;
    assert_eq!(
        error(BlockPointer::Regular(skein)),
        Error::UnsupportedFeature("csum_unsupported")
    );
    let mut large = off_pointer([at(0), None, None], 1);
    large.logical_sectors = 0x8001;
    assert!(matches!(
        error(BlockPointer::Regular(large)),
        Error::FileTooLarge { .. }
    ));
}

#[test]
fn the_first_copy_that_can_be_read() {
    let mut image = vec![0u8; LABEL_RESERVE as usize + 2048];
    image[LABEL_RESERVE as usize + 1024..].fill(9);
    let mut m = members(image);
    let bp = BlockPointer::Regular(off_pointer([at(1000), None, at(2)], 1));
    let vdev = Vdev {
        topology: Topology::Mirror(vec![5, 0]),
        guids: vec![50, 51],
    };
    let out = read_block_pointer(&mut m, &vdev, &bp).unwrap();
    assert_eq!(out, vec![9u8; 512]);
}

/// A pointer to one sector whose checksum no sector of the tests has.
fn fletcher_pointer(sector: u64) -> BlockPointer {
    let mut r = off_pointer([at(sector), None, None], 1);
    r.checksum_type = ChecksumType::Fletcher4;
    r.checksum_value.words = [1, 2, 3, 4];
    BlockPointer::Regular(r)
}

#[test]
fn mismatches_name_the_leaf_and_the_byte() {
    let mut m = members(vec![7u8; LABEL_RESERVE as usize + 2048]);
    m.extend(members(vec![8u8; LABEL_RESERVE as usize + 1024]));
    let mismatch = |vdev, offset| Error::ChecksumMismatch {
        vdev,
        offset,
        what: "csum_fletcher4",
    };
    assert_eq!(
        read_block_pointer(&mut m, &single(77), &fletcher_pointer(2)).unwrap_err(),
        mismatch(77, 4194304 + 2 * 512)
    );
    let mut vdev = Vdev {
        topology: Topology::Mirror(vec![1, 0]),
        guids: vec![51, 50],
    };
    assert_eq!(
        read_block_pointer(&mut m, &vdev, &fletcher_pointer(1)).unwrap_err(),
        mismatch(50, 4194304 + 512)
    );
    vdev.topology = Topology::Mirror(vec![0, 1]);
    assert_eq!(
        read_block_pointer(&mut m, &vdev, &fletcher_pointer(3)).unwrap_err(),
        Error::Io {
            token: "io_block",
            vdev: 50,
            offset: 4194304 + 3 * 512
        }
    );
    vdev.guids.clear();
    assert_eq!(
        read_block_pointer(&mut m, &vdev, &fletcher_pointer(1)).unwrap_err(),
        mismatch(0, 4194304 + 512)
    );
}

#[test]
fn errors_of_groups() {
    let mut m = members(vec![7u8; LABEL_RESERVE as usize + 2048]);
    m.extend(members(vec![7u8; LABEL_RESERVE as usize + 2048]));
    // The parity of the block at sector 0 is on the first child, its data on the second.
    let mut vdev = Vdev {
        topology: Topology::RaidZ1 {
            children: vec![Some(0), Some(1), None],
            ashift: 9,
        },
        guids: vec![50, 51, 52],
    };
    assert_eq!(
        read_block_pointer(&mut m, &vdev, &fletcher_pointer(0)).unwrap_err(),
        Error::ChecksumMismatch {
            vdev: 0,
            offset: 4194304,
            what: "csum_fletcher4"
        }
    );
    vdev.topology = Topology::RaidZ1 {
        children: vec![None, None, Some(0)],
        ashift: 9,
    };
    assert_eq!(
        read_block_pointer(&mut m, &vdev, &fletcher_pointer(3)).unwrap_err(),
        Error::Io {
            token: "io_block",
            vdev: 51,
            offset: 4194304 + 512
        }
    );
}

#[test]
fn errors_of_devices() {
    let mut image = MemImage(vec![1, 2, 3, 4]);
    let mut buf = [0u8; 2];
    assert_eq!(read_exact(&mut image, 1, &mut buf, 9, "t"), Ok(()));
    assert_eq!(buf, [2, 3]);
    assert_eq!(
        read_exact(&mut image, 3, &mut buf, 9, "t"),
        Err(Error::Io {
            token: "t",
            vdev: 9,
            offset: 3
        })
    );
    assert_eq!(image.read_at(u64::MAX, &mut buf), Err(()));
}

fn dnode_bytes(order: EndianOrder) -> Vec<u8> {
    let mut d = vec![0u8; 512];
    d[0] = 19;
    d[1] = 17;
    d[2] = 3;
    d[3] = 1;
    let word = |v: u16| match order {
        EndianOrder::Big => v.to_be_bytes(),
        EndianOrder::Little => v.to_le_bytes(),
    };
    d[8..10].copy_from_slice(&word(256));
    d[10..12].copy_from_slice(&word(4));
    d[64..192].copy_from_slice(&regular(order));
    d[192..196].copy_from_slice(b"bonu");
    d
}

#[test]
fn dnodes() {
    for order in [BIG, LITTLE] {
        let d = Dnode::from_bytes(&dnode_bytes(order), order).unwrap().unwrap();
        assert_eq!((d.levels, d.indirect_block_shift), (3, 17));
        assert_eq!(d.data_block_size_sectors, 256);
        assert_eq!(d.pointers().len(), 1);
        assert_eq!(d.bonus_used(), b"bonu");
        let mut set = dnode_bytes(order);
        assert!(ObjectSet::from_bytes(&set, order).is_err());
        set.resize(1024, 0);
        assert_eq!(ObjectSet::from_bytes(&set, order).unwrap().dnode.levels, 3);
        set[0] = 0;
        assert!(ObjectSet::from_bytes(&set, order).is_err());
    }
    assert!(matches!(Dnode::from_bytes(&[0u8; 512], BIG), Ok(None)));
    assert!(matches!(
        Dnode::from_bytes(&[1u8; 511], BIG),
        Err(Malformed {})
    ));
    for (at, v) in [(3, 0u8), (3, 4), (11, 2)] {
        let mut d = dnode_bytes(LITTLE);
        d[at] = v;
        assert!(Dnode::from_bytes(&d, LITTLE).is_err(), "{at} {v}");
    }
    // Room for a pointer to more bonus data is taken off the end.
    let mut d = dnode_bytes(LITTLE);
    d[10..12].copy_from_slice(&300u16.to_le_bytes());
    assert!(Dnode::from_bytes(&d, LITTLE).is_ok());
    d[7] = 4;
    assert!(Dnode::from_bytes(&d, LITTLE).is_err());
}

fn hole_dnode(levels: u8, shift: u8, sectors: u16) -> Dnode {
    Dnode {
        levels,
        indirect_block_shift: shift,
        data_block_size_sectors: sectors,
        ptrs: vec![None],
        bonus: vec![],
    }
}

#[test]
fn objects_without_blocks() {
    let vdev = single(77);
    let mut m = members(vec![]);
    let mut block = |d: &Dnode, id| read_dnode_block(&mut m, &vdev, d, id, LITTLE);
    assert_eq!(block(&hole_dnode(0, 17, 1), 0), Ok(None));
    assert_eq!(block(&hole_dnode(3, 17, 1), 12345), Ok(None));
    assert_eq!(
        block(&hole_dnode(17, 17, 1), 0).unwrap_err().token(),
        "dnode_levels"
    );
    assert_eq!(
        block(&hole_dnode(8, 17, 1), 0).unwrap_err().token(),
        "dnode_indshift"
    );
    assert_eq!(
        block(&hole_dnode(1, 80, 1), 0).unwrap_err().token(),
        "dnode_indshift"
    );
    let mut m = members(vec![]);
    let mut range = |d: &Dnode, off, len| read_dnode_range(&mut m, &vdev, d, off, len, LITTLE);
    assert_eq!(range(&hole_dnode(2, 17, 3), 1000, 2000), Ok(vec![0; 2000]));
    assert_eq!(
        range(&hole_dnode(1, 17, 0), 0, 1).unwrap_err().token(),
        "dnode_dbsz0"
    );
    assert_eq!(
        range(&hole_dnode(1, 17, 1), u64::MAX, 600).unwrap_err().token(),
        "range_overflow"
    );
    assert_eq!(range(&hole_dnode(1, 17, 1), u64::MAX, 1), Ok(vec![0]));
    let mut m = members(vec![]);
    let array = hole_dnode(1, 17, 32);
    let mut object = |n| {
        read_object_dnode(&mut m, &vdev, &array, n, LITTLE)
            .unwrap_err()
            .token()
    };
    assert_eq!(object(5), "dnode_empty");
    assert_eq!(object(1 << 60), "range_overflow");
    let mut m = members(vec![]);
    assert_eq!(
        zap_entries(&mut m, &vdev, &array, LITTLE).unwrap_err().token(),
        "zap_micro"
    );
    assert_eq!(
        zap_lookup(&mut m, &vdev, &hole_dnode(1, 17, 0), "x", LITTLE)
            .unwrap_err()
            .token(),
        "zap_dbsz0"
    );
}

#[test]
fn blocks_that_are_too_short() {
    let vdev = single(77);
    let mut m = members(vec![0x55u8; LABEL_RESERVE as usize + 4096]);
    let pointer = || Some(BlockPointer::Regular(off_pointer([at(0), None, None], 1)));
    let mut d = hole_dnode(1, 17, 2);
    d.ptrs = vec![pointer()];
    assert_eq!(
        read_dnode_range(&mut m, &vdev, &d, 0, 512, LITTLE),
        Ok(vec![0x55; 512])
    );
    assert_eq!(
        read_dnode_range(&mut m, &vdev, &d, 0, 513, LITTLE)
            .unwrap_err()
            .token(),
        "block_short"
    );
    let mut d = hole_dnode(2, 17, 1);
    d.ptrs = vec![pointer()];
    assert_eq!(
        read_dnode_block(&mut m, &vdev, &d, 4, LITTLE).unwrap_err(),
        Error::Inconsistent {
            token: "indirect_oob",
            where_: Location::Indirect { obj: 0, level: 1 }
        }
    );
    assert_eq!(
        read_dnode_block(&mut m, &vdev, &d, 0, LITTLE)
            .unwrap_err()
            .token(),
        "indirect_bp_decode"
    );
}

#[test]
fn maps() {
    let mut b = vec![0u8; 320];
    assert!(!check_micro(&b, BIG));
    put(&mut b, 0, 1 << 63 | 3, BIG);
    assert!(check_micro(&b, BIG) && !check_micro(&b, LITTLE));
    put(&mut b, 128, 77, BIG);
    b[142..146].copy_from_slice(b"name");
    assert_eq!(decode_micro(&b, BIG).unwrap(), [("name".to_string(), 77)]);
    b[200..].fill(b'x');
    assert!(decode_micro(&b, BIG).is_err());
    b[319] = 0;
    b[255] = 0;
    assert_eq!(decode_micro(&b, BIG).unwrap().len(), 3);
    b[206] = 0xff;
    assert!(decode_micro(&b, BIG).is_err());
}

#[test]
fn the_first_of_two_entries_with_a_name() {
    let mut image = vec![0u8; LABEL_RESERVE as usize + 512];
    let b = &mut image[LABEL_RESERVE as usize..];
    put(b, 0, 1 << 63 | 3, LITTLE);
    for (slot, value) in [(1, 70), (2, 71), (4, 72)] {
        put(b, 64 * slot, value, LITTLE);
        b[64 * slot + 14] = b'x';
    }
    b[64 * 4 + 15] = b'y';
    let mut m = members(image);
    let vdev = single(77);
    let mut d = hole_dnode(1, 17, 1);
    d.ptrs = vec![Some(BlockPointer::Regular(off_pointer(
        [at(0), None, None],
        1,
    )))];
    assert_eq!(zap_entries(&mut m, &vdev, &d, LITTLE).unwrap().len(), 3);
    let mut find = |name| zap_lookup(&mut m, &vdev, &d, name, LITTLE).unwrap();
    assert_eq!(find("x"), Some(70));
    assert_eq!(find("xy"), Some(72));
    assert_eq!(find("y"), None);
}

#[test]
fn directories_and_datasets() {
    let mut b = vec![0u8; 320];
    put(&mut b, 8, 21, BIG);
    put(&mut b, 32, 22, BIG);
    assert_eq!(
        DslDirectory::from_bytes(&b, BIG).unwrap(),
        DslDirectory {
            head_dataset_obj: Some(21),
            child_directory_zap_obj: 22
        }
    );
    put(&mut b, 8, 0, BIG);
    assert_eq!(
        DslDirectory::from_bytes(&b, BIG).unwrap().head_dataset_obj,
        None
    );
    assert!(DslDirectory::from_bytes(&b[..255], BIG).is_err());
    assert!(DslDataSet::from_bytes(&b, BIG)
        .unwrap()
        .block_pointer
        .is_none());
    b[128..256].copy_from_slice(&regular(BIG));
    assert!(DslDataSet::from_bytes(&b, BIG)
        .unwrap()
        .block_pointer
        .is_some());
    assert!(DslDataSet::from_bytes(&b[..319], BIG).is_err());
}

#[test]
fn sizes_of_files() {
    let mut b = vec![0u8; 40];
    b[0..4].copy_from_slice(&0x002f_505au32.to_be_bytes());
    b[4..6].copy_from_slice(&(2u16 << 10 | 5).to_be_bytes());
    put(&mut b, 24, 4711, BIG);
    assert_eq!(sa_file_size(&b, BIG), Ok(4711));
    let unsupported = Err(Error::UnsupportedFeature("sa_layout"));
    assert_eq!(sa_file_size(&b, LITTLE), unsupported);
    assert_eq!(sa_file_size(&b[..31], BIG), unsupported);
    assert_eq!(sa_file_size(&b[..5], BIG), unsupported);
    assert_eq!(EntryKind::of(4 << 60 | 9), EntryKind::Directory);
    assert_eq!(EntryKind::of(8 << 60), EntryKind::Regular);
    assert_eq!(EntryKind::of(10 << 60), EntryKind::Symlink);
    assert_eq!(EntryKind::of(1 << 60), EntryKind::Other);
}

#[test]
fn name_value_lists() {
    assert!(NvList::from_bytes(&[0u8; 12]).is_err());
    assert!(NvList::from_bytes(&[1u8, 0, 0, 0]).is_err());
    let mut b = vec![1u8, 1, 0, 0, 0, 0, 0, 0, 0, 0, 0, 1];
    b.extend([0, 0, 0, 36, 0, 0, 0, 32]);
    b.extend([0, 0, 0, 5]);
    b.extend(b"state\0\0\0");
    b.extend([0, 0, 0, 8, 0, 0, 0, 1, 0, 0, 0, 0, 0, 0, 1, 2]);
    let open = b.clone();
    b.extend([0u8; 8]);
    let list = NvList::from_bytes(&b).unwrap();
    let Lookup::Hit(pair) = list.lookup("state") else {
        panic!("not found")
    };
    assert_eq!(pair.get_u64(), Ok(258));
    assert!(pair.get_str().is_err());
    assert!(pair.get_nv_list().is_err());
    assert!(pair.get_nv_list_array().is_err());
    assert!(matches!(list.lookup("other"), Lookup::Missing));
    let list = NvList::from_bytes(&open).unwrap();
    assert!(matches!(list.lookup("other"), Lookup::Bad));
}

#[test]
fn sealed_parts_of_labels() {
    let mut sha = Sha256::new(Sha256Implementation::Generic).unwrap();
    for order in [BIG, LITTLE] {
        let mut b = vec![5u8; 1024];
        put(&mut b, 0, 0x00ba_b10c, order);
        put(&mut b, 8, 5000, order);
        put(&mut b, 16, 12, order);
        put(&mut b, 32, 13, order);
        b[40..168].copy_from_slice(&regular(order));
        put(&mut b, 984, 0x0210_da7a_b10c_7a11, order);
        b[992..].fill(0);
        put(&mut b, 992, 4096, order);
        let words = sha.hash(&b, order).unwrap();
        for (i, w) in words.iter().enumerate() {
            put(&mut b, 992 + 8 * i, *w, order);
        }
        assert!(label_verify(&b, 4096, &mut sha));
        assert!(!label_verify(&b, 8192, &mut sha));
        assert!(!label_verify(&b[..39], 4096, &mut sha));
        let u = UberBlock::from_bytes(&b, 4096, &mut sha).unwrap().unwrap();
        assert_eq!((u.txg, u.timestamp), (12, 13));
        assert!(!u.is_newer_than(&u));
        b[500] ^= 1;
        assert!(!label_verify(&b, 4096, &mut sha));
        assert!(UberBlock::from_bytes(&b, 4096, &mut sha).is_err());
    }
}

#[test]
fn columns_of_groups() {
    assert_eq!((unit_size(9), unit_size(12), unit_size(8)), (512, 4096, 0));
    // Five units on four children: the parity, then the first two columns are longer.
    let g = Geometry::new(512 * 6, 512 * 5, 4, 512);
    assert_eq!(g.columns, 4);
    let places: Vec<(usize, u64, usize)> = (0..4)
        .map(|c| g.get(c))
        .map(|c| (c.child, c.offset, c.size))
        .collect();
    assert_eq!(
        places,
        [(2, 512, 1024), (3, 512, 1024), (0, 1024, 1024), (1, 1024, 512)]
    );
    // One unit: a parity and a data column, which change places in an odd megabyte.
    let g = Geometry::new(1 << 20, 512, 4, 512);
    assert_eq!(g.columns, 2);
    assert_eq!((g.get(0).child, g.get(1).child), (1, 0));
    // No two columns are on the same child.
    for sectors in 1..40usize {
        let g = Geometry::new(512 * 1234 * sectors as u64, 512 * sectors, 5, 512);
        let mut children: Vec<usize> = (0..g.columns).map(|c| g.get(c).child).collect();
        children.sort();
        children.dedup();
        assert_eq!(children.len(), g.columns);
        let data: usize = (1..g.columns).map(|c| g.get(c).size).sum();
        assert_eq!(data, 512 * sectors);
    }
}

#[test]
fn columns_recovered_from_parity() {
    let columns = vec![vec![1u8, 2, 3], vec![4, 5, 6], vec![7, 8]];
    let parity: Vec<u8> = vec![1 ^ 4 ^ 7, 2 ^ 5 ^ 8, 3 ^ 6];
    for c in 0..3 {
        let mut damaged = columns.clone();
        damaged[c] = vec![0xee; 3];
        let size = columns[c].len();
        let column = recover(&parity, &damaged, c, size);
        assert_eq!(column, columns[c]);
        assert_eq!(join(&damaged, c, &column), [1, 2, 3, 4, 5, 6, 7, 8]);
    }
    assert_eq!(join(&columns, 9, &[]), [1, 2, 3, 4, 5, 6, 7, 8]);
}
