use lamzfs::block_read::MemImage;
use lamzfs::checksum::sha256::{Sha256, Sha256Implementation};
use lamzfs::checksum::Checksum;
use lamzfs::compression::lzjb::LzjbEncoder;
use lamzfs::compression::Compression;
use lamzfs::phys::endian::EndianOrder;
use lamzfs::{
    BlockRead, EntryKind, Error, LabelReason, Metadata, PoolMember, Zfs, MAX_FILE_BYTES,
};

const LABEL_RESERVE: usize = 4 << 20;
const DEVICE_SIZE: usize = 8 << 20;

const OFF: u64 = 2;
const LZJB: u64 = 3;
const GZIP6: u64 = 10;
const ZLE: u64 = 14;
const LZ4: u64 = 15;
const ZSTD: u64 = 16;

const CK_FLETCHER2: u64 = 6;
const CK_FLETCHER4: u64 = 7;
const CK_SHA256: u64 = 8;

fn put16(b: &mut [u8], at: usize, v: u16) {
    b[at..at + 2].copy_from_slice(&v.to_le_bytes());
}

fn put32(b: &mut [u8], at: usize, v: u32) {
    b[at..at + 4].copy_from_slice(&v.to_le_bytes());
}

fn put64(b: &mut [u8], at: usize, v: u64) {
    b[at..at + 8].copy_from_slice(&v.to_le_bytes());
}

fn fletcher2(data: &[u8]) -> [u64; 4] {
    let mut s = [0u64; 4];
    for c in data.chunks_exact(16) {
        s[0] = s[0].wrapping_add(u64::from_le_bytes(c[..8].try_into().unwrap()));
        s[1] = s[1].wrapping_add(u64::from_le_bytes(c[8..].try_into().unwrap()));
        s[2] = s[2].wrapping_add(s[0]);
        s[3] = s[3].wrapping_add(s[1]);
    }
    s
}

fn fletcher4(data: &[u8]) -> [u64; 4] {
    let mut s = [0u64; 4];
    for c in data.chunks_exact(4) {
        s[0] = s[0].wrapping_add(u64::from(u32::from_le_bytes(c.try_into().unwrap())));
        s[1] = s[1].wrapping_add(s[0]);
        s[2] = s[2].wrapping_add(s[1]);
        s[3] = s[3].wrapping_add(s[2]);
    }
    s
}

fn sha256(data: &[u8]) -> [u64; 4] {
    Sha256::new(Sha256Implementation::Generic)
        .unwrap()
        .hash(data, EndianOrder::Little)
        .unwrap()
}

/// How blocks go to the devices.
#[derive(Clone, Copy)]
enum Kind {
    Mirror,
    Raidz,
}

/// A pool under construction.
struct Builder {
    devices: Vec<Vec<u8>>,
    kind: Kind,
    next: u64,
}

impl Builder {
    fn new(n: usize, kind: Kind) -> Builder {
        Builder {
            devices: vec![vec![0u8; DEVICE_SIZE]; n],
            kind,
            next: 0,
        }
    }

    /// Stores bytes, and returns their offset in sectors.
    fn store(&mut self, raw: &[u8]) -> u64 {
        let at = self.next;
        match self.kind {
            Kind::Mirror => {
                let from = LABEL_RESERVE + at as usize * 512;
                for d in &mut self.devices {
                    d[from..from + raw.len()].copy_from_slice(raw);
                }
                self.next += (raw.len() / 512) as u64;
            }
            Kind::Raidz => {
                let n = self.devices.len();
                let units = raw.len() / 512;
                let full = units / (n - 1);
                let rest = units % (n - 1);
                let long = if rest == 0 { 0 } else { rest + 1 };
                let columns = if full == 0 { long } else { n };
                let mut data = Vec::new();
                let mut from = 0;
                for c in 1..columns {
                    let size = (if c < long { full + 1 } else { full }) * 512;
                    data.push(raw[from..from + size].to_vec());
                    from += size;
                }
                let mut parity = vec![0u8; data[0].len()];
                for d in &data {
                    for (p, b) in parity.iter_mut().zip(d) {
                        *p ^= *b;
                    }
                }
                let mut all = vec![parity];
                all.extend(data);
                let first = at as usize % n;
                let base = at as usize / n * 512;
                let mut places: Vec<(usize, usize)> = (0..columns)
                    .map(|c| {
                        if first + c >= n {
                            (first + c - n, base + 512)
                        } else {
                            (first + c, base)
                        }
                    })
                    .collect();
                if (at * 512) >> 20 & 1 == 1 {
                    places.swap(0, 1);
                }
                let mut used = 0;
                for (bytes, (child, off)) in all.iter().zip(&places) {
                    let from = LABEL_RESERVE + off;
                    self.devices[*child][from..from + bytes.len()].copy_from_slice(bytes);
                    used += bytes.len() / 512;
                }
                self.next += (used + used % 2) as u64;
            }
        }
        at
    }

    /// Stores a block that is already compressed, and returns a pointer to it.
    fn pointer(&mut self, raw: &[u8], lsize: usize, comp: u64, cksum: u64) -> Vec<u8> {
        let mut padded = raw.to_vec();
        padded.resize((raw.len() + 511) / 512 * 512, 0);
        let at = self.store(&padded);
        let words = match cksum {
            CK_FLETCHER2 => fletcher2(&padded),
            CK_FLETCHER4 => fletcher4(&padded),
            _ => sha256(&padded),
        };
        let mut bp = vec![0u8; 128];
        put64(&mut bp, 0, (padded.len() / 512) as u64);
        put64(&mut bp, 8, at);
        let prop = (lsize as u64 / 512 - 1)
            | (padded.len() as u64 / 512 - 1) << 16
            | comp << 32
            | cksum << 40
            | 1 << 63;
        put64(&mut bp, 48, prop);
        for (i, w) in words.iter().enumerate() {
            put64(&mut bp, 96 + 8 * i, *w);
        }
        bp
    }

    fn plain(&mut self, data: &[u8]) -> Vec<u8> {
        assert!(data.len() % 512 == 0);
        self.pointer(data, data.len(), OFF, CK_FLETCHER4)
    }
}

fn dnode(levels: u8, block: usize, pointers: &[Vec<u8>], bonus: &[u8]) -> Vec<u8> {
    let mut d = vec![0u8; 512];
    d[0] = 10;
    d[1] = 14;
    d[2] = levels;
    d[3] = pointers.len() as u8;
    put16(&mut d, 8, (block / 512) as u16);
    put16(&mut d, 10, bonus.len() as u16);
    for (i, p) in pointers.iter().enumerate() {
        d[64 + 128 * i..64 + 128 * (i + 1)].copy_from_slice(p);
    }
    let at = 64 + 128 * pointers.len();
    d[at..at + bonus.len()].copy_from_slice(bonus);
    d
}

fn zap(entries: &[(&str, u64)]) -> Vec<u8> {
    let mut b = vec![0u8; 1024];
    put64(&mut b, 0, (1 << 63) | 3);
    for (i, (name, value)) in entries.iter().enumerate() {
        // Every other slot is free.
        let at = 64 + 64 * (2 * i);
        put64(&mut b, at, *value);
        b[at + 14..at + 14 + name.len()].copy_from_slice(name.as_bytes());
    }
    b
}

/// A dnode array, from objects with their numbers.
fn array(objects: &[(usize, Vec<u8>)]) -> Vec<u8> {
    let mut b = vec![0u8; 16384];
    for (n, d) in objects {
        b[512 * n..512 * n + 512].copy_from_slice(d);
    }
    b
}

fn objset(b: &mut Builder, objects: &[(usize, Vec<u8>)]) -> Vec<u8> {
    let p = b.plain(&array(objects));
    let mut set = dnode(1, 16384, &[p], &[]);
    set.resize(1024, 0);
    b.plain(&set)
}

fn sa(size: u64) -> Vec<u8> {
    let mut s = vec![0u8; 24];
    put32(&mut s, 0, 0x002f_505a);
    put16(&mut s, 4, 1 << 10 | 2);
    put64(&mut s, 8, 0o100644);
    put64(&mut s, 16, size);
    s
}

/// A file with one direct block for each pointer.
fn file(pointers: &[Vec<u8>], block: usize, size: u64) -> Vec<u8> {
    dnode(1, block, pointers, &sa(size))
}

fn xdr_str(out: &mut Vec<u8>, s: &str) {
    out.extend((s.len() as u32).to_be_bytes());
    out.extend(s.as_bytes());
    while out.len() % 4 != 0 {
        out.push(0);
    }
}

fn nv_pair(name: &str, ty: u32, count: u32, value: &[u8]) -> Vec<u8> {
    let mut body = Vec::new();
    xdr_str(&mut body, name);
    body.extend(ty.to_be_bytes());
    body.extend(count.to_be_bytes());
    body.extend(value);
    let mut out = ((body.len() + 8) as u32).to_be_bytes().to_vec();
    out.extend(64u32.to_be_bytes());
    out.extend(body);
    out
}

fn nv_u64(name: &str, v: u64) -> Vec<u8> {
    nv_pair(name, 8, 1, &v.to_be_bytes())
}

fn nv_str(name: &str, v: &str) -> Vec<u8> {
    let mut value = Vec::new();
    xdr_str(&mut value, v);
    nv_pair(name, 9, 1, &value)
}

/// A list with its version and flags, and its end.
fn nv_list(pairs: &[Vec<u8>]) -> Vec<u8> {
    let mut out = vec![0, 0, 0, 0, 0, 0, 0, 1];
    for p in pairs {
        out.extend(p);
    }
    out.extend([0u8; 8]);
    out
}

fn seal(part: &mut [u8], offset: u64) {
    let n = part.len();
    put64(part, n - 40, 0x0210_da7a_b10c_7a11);
    put64(part, n - 32, offset);
    for i in n - 24..n {
        part[i] = 0;
    }
    let words = sha256(part);
    for (i, w) in words.iter().enumerate() {
        put64(part, n - 32 + 8 * i, *w);
    }
}

fn vdev_tree(kind: &str, guids: &[u64]) -> Vec<u8> {
    let mut pairs = vec![
        nv_str("type", kind),
        nv_u64("id", 0),
        nv_u64("guid", 77),
        nv_u64("ashift", 9),
    ];
    if kind == "raidz" {
        pairs.push(nv_u64("nparity", 1));
    }
    if !guids.is_empty() {
        let mut children = Vec::new();
        for g in guids {
            children.extend(nv_list(&[nv_str("type", "file"), nv_u64("guid", *g)]));
        }
        pairs.push(nv_pair("children", 20, guids.len() as u32, &children));
    }
    nv_list(&pairs)
}

fn nvpairs_region(guid: u64, tree: &[u8]) -> Vec<u8> {
    let config = nv_list(&[
        nv_u64("version", 5000),
        nv_str("name", "bpool"),
        nv_u64("pool_guid", 0x1234_5678_9abc_def0),
        nv_u64("guid", guid),
        nv_pair("vdev_tree", 19, 1, tree),
    ]);
    let mut region = vec![0u8; 112 * 1024];
    region[0] = 1;
    region[1] = 1;
    region[4..4 + config.len()].copy_from_slice(&config);
    seal(&mut region, 16 * 1024);
    region
}

fn uberblock(txg: u64, timestamp: u64, bp: &[u8], at: u64) -> Vec<u8> {
    let mut u = vec![0u8; 1024];
    put64(&mut u, 0, 0x00ba_b10c);
    put64(&mut u, 8, 5000);
    put64(&mut u, 16, txg);
    put64(&mut u, 32, timestamp);
    u[40..168].copy_from_slice(bp);
    seal(&mut u, at);
    u
}

fn pattern(n: usize, seed: u32) -> Vec<u8> {
    let mut x = seed;
    (0..n)
        .map(|_| {
            x = x.wrapping_mul(1664525).wrapping_add(1013904223);
            (x >> 24) as u8
        })
        .collect()
}

/// Text that compresses well.
fn text(n: usize) -> Vec<u8> {
    b"the kernel and its initial ramdisk, over and over again; "
        .iter()
        .cycle()
        .take(n)
        .copied()
        .collect()
}

fn lz4(data: &[u8]) -> Vec<u8> {
    let block = lz4_flex::block::compress(data);
    let mut out = (block.len() as u32).to_be_bytes().to_vec();
    out.extend(block);
    out
}

/// A zstd frame of raw blocks without its magic number, behind its header.
fn zstd(data: &[u8]) -> Vec<u8> {
    let mut frame = vec![0xa0u8];
    frame.extend((data.len() as u32).to_le_bytes());
    let header = 1 | (data.len() as u32) << 3;
    frame.extend(&header.to_le_bytes()[..3]);
    frame.extend(data);
    let mut out = (frame.len() as u32).to_be_bytes().to_vec();
    out.extend([1, 2, 3, 4]);
    out.extend(frame);
    out
}

fn lzjb(data: &[u8]) -> Vec<u8> {
    let mut dst = vec![0u8; data.len()];
    let n = LzjbEncoder::new().compress(&mut dst, data, 0).unwrap();
    dst.truncate(n);
    dst
}

fn zle(data: &[u8]) -> Vec<u8> {
    let mut out = Vec::new();
    let mut i = 0;
    while i < data.len() {
        let zero = data[i] == 0;
        let n = data[i..]
            .iter()
            .take(64)
            .take_while(|b| (**b == 0) == zero)
            .count();
        if zero {
            out.push(0x3f + n as u8);
        } else {
            out.push(n as u8 - 1);
            out.extend(&data[i..i + n]);
        }
        i += n;
    }
    out
}

const DIR: u64 = 4 << 60;
const REG: u64 = 8 << 60;
const LNK: u64 = 10 << 60;

fn big_file() -> Vec<u8> {
    let mut data = pattern(512 * 5, 7);
    for b in &mut data[512..1536] {
        *b = 0;
    }
    data
}

/// The contents of the files of the pool.
fn files() -> Vec<(&'static str, Vec<u8>)> {
    let mut sparse = pattern(4096, 3);
    for b in &mut sparse[100..3000] {
        *b = 0;
    }
    vec![
        ("vmlinuz", pattern(1500, 1)),
        ("lz4.txt", text(4096)),
        ("gzip.txt", text(4096)),
        ("zstd.txt", text(4096)),
        ("lzjb.txt", text(4096)),
        ("zle.bin", sparse),
    ]
}

/// Builds the datasets of a pool, and returns the pointer to the meta object set.
fn build_tree(b: &mut Builder) -> Vec<u8> {
    let mut objects = Vec::new();
    let mut root = Vec::new();
    for (i, (name, data)) in files().into_iter().enumerate() {
        let obj = 10 + i;
        let (raw, comp, cksum) = match name {
            "lz4.txt" => (lz4(&data), LZ4, CK_FLETCHER4),
            "gzip.txt" => (
                miniz_oxide::deflate::compress_to_vec_zlib(&data, 6),
                GZIP6,
                CK_SHA256,
            ),
            "zstd.txt" => (zstd(&data), ZSTD, CK_FLETCHER4),
            "lzjb.txt" => (lzjb(&data), LZJB, CK_FLETCHER2),
            "zle.bin" => (zle(&data), ZLE, CK_FLETCHER4),
            _ => (data.clone(), OFF, CK_FLETCHER4),
        };
        let block = (data.len() + 511) / 512 * 512;
        let p = b.pointer(&raw, block, comp, cksum);
        objects.push((obj, file(&[p], block, data.len() as u64)));
        root.push((name, REG | obj as u64));
    }
    // A file of five blocks behind an indirect block, two of them holes.
    let data = big_file();
    let mut indirect = vec![0u8; 16384];
    for i in [0usize, 3, 4] {
        let p = b.plain(&data[512 * i..512 * (i + 1)]);
        indirect[128 * i..128 * (i + 1)].copy_from_slice(&p);
    }
    let raw = lz4(&indirect);
    let top = b.pointer(&raw, 16384, LZ4, CK_FLETCHER4);
    objects.push((20, dnode(2, 512, &[top], &sa(2500))));
    root.push(("big.bin", REG | 20));
    // An embedded file.
    let mut e = vec![0u8; 128];
    let hello = b"hello embedded world";
    e[..hello.len()].copy_from_slice(hello);
    put64(
        &mut e,
        48,
        511 | (hello.len() as u64 - 1) << 25 | ZLE << 32 | 1 << 39 | 1 << 63,
    );
    let mut run = vec![hello.len() as u8 - 1];
    run.extend(hello);
    let mut rest = 512 - hello.len();
    while rest > 0 {
        let n = rest.min(192);
        run.push(0x3f + n as u8);
        rest -= n;
    }
    for (i, byte) in run.iter().enumerate() {
        let skip = if i < 48 { 0 } else { 8 };
        e[i + skip] = *byte;
    }
    put64(
        &mut e,
        48,
        511 | (run.len() as u64 - 1) << 25 | ZLE << 32 | 1 << 39 | 1 << 63,
    );
    objects.push((21, dnode(1, 512, &[e], &sa(hello.len() as u64))));
    root.push(("embedded", REG | 21));
    // A directory with a file in it, and a link.
    let conf = b.plain(&text(512));
    objects.push((23, file(&[conf], 512, 300)));
    let p = b.plain(&zap(&[("entry.conf", REG | 23)]));
    objects.push((22, dnode(1, 1024, &[p], &sa(3))));
    root.push(("loader", DIR | 22));
    root.push(("link", LNK | 21));
    let mut huge = file(&[vec![0u8; 128]], 131072, MAX_FILE_BYTES + 5);
    huge[1] = 17;
    objects.push((24, huge));
    root.push(("huge.bin", REG | 24));

    let mut dir = zap(&[]);
    dir.resize(4096, 0);
    for (i, (name, value)) in root.iter().enumerate() {
        let at = 64 + 64 * i;
        put64(&mut dir, at, *value);
        dir[at + 14..at + 14 + name.len()].copy_from_slice(name.as_bytes());
    }
    let p = b.plain(&dir);
    objects.push((3, dnode(1, 4096, &[p], &sa(9))));
    let p = b.plain(&zap(&[("VERSION", 5), ("ROOT", 3)]));
    objects.push((1, dnode(1, 1024, &[p], &[])));
    let boot = objset(b, &objects);

    // A dataset with the files of a small boot partition.
    let p = b.plain(&text(512));
    let catalog: Vec<(&str, u64)> = vec![
        ("vmlinuz-6.1.0-test", REG | 4),
        ("initrd.img-6.1.0-test", REG | 4),
        ("os-release", REG | 4),
        ("big.bin", REG | 4),
        ("loader", DIR | 5),
        ("EFI", DIR | 5),
        ("vmlinuz", LNK | 4),
    ];
    let list = b.plain(&zap(&catalog));
    let empty = b.plain(&zap(&[]));
    let master = b.plain(&zap(&[("ROOT", 3)]));
    let test = objset(
        b,
        &[
            (1, dnode(1, 1024, &[master], &[])),
            (3, dnode(1, 1024, &[list], &sa(7))),
            (4, file(&[p], 512, 500)),
            (5, dnode(1, 1024, &[empty], &sa(2))),
        ],
    );

    // The root dataset has an empty root directory.
    let p = b.plain(&zap(&[("ROOT", 2)]));
    let empty = b.plain(&zap(&[]));
    let top = objset(
        b,
        &[
            (1, dnode(1, 1024, &[p], &[])),
            (2, dnode(1, 1024, &[empty], &sa(2))),
        ],
    );

    let hole = vec![0u8; 128];
    let dsl_dir = |head: u64, children: u64| {
        let mut bonus = vec![0u8; 256];
        put64(&mut bonus, 8, head);
        put64(&mut bonus, 32, children);
        dnode(1, 512, &[hole.clone()], &bonus)
    };
    let dsl_dataset = |bp: &[u8]| {
        let mut bonus = vec![0u8; 320];
        bonus[128..256].copy_from_slice(bp);
        dnode(1, 512, &[hole.clone()], &bonus)
    };
    let directory = b.plain(&zap(&[("root_dataset", 2)]));
    let children = b.plain(&zap(&[("BOOT", 5), ("$MOS", 9), ("home", 12)]));
    let none = b.plain(&zap(&[]));
    let grand = b.plain(&zap(&[("default", 8), ("test", 14)]));
    objset(
        b,
        &[
            (1, dnode(1, 1024, &[directory], &[])),
            (2, dsl_dir(3, 4)),
            (3, dsl_dataset(&top)),
            (4, dnode(1, 1024, &[children], &[])),
            (5, dsl_dir(0, 7)),
            (7, dnode(1, 1024, &[grand], &[])),
            (8, dsl_dir(10, 11)),
            (10, dsl_dataset(&boot)),
            (11, dnode(1, 1024, &[none.clone()], &[])),
            (12, dsl_dir(13, 11)),
            (13, dsl_dataset(&hole)),
            (14, dsl_dir(15, 11)),
            (15, dsl_dataset(&test)),
        ],
    )
}

const GUIDS: [u64; 5] = [101, 102, 103, 104, 105];

fn finish(b: &mut Builder, tree: &[u8], mos: &[u8]) {
    for (i, d) in b.devices.iter_mut().enumerate() {
        let region = nvpairs_region(GUIDS[i], tree);
        d[16384..16384 + region.len()].copy_from_slice(&region);
        for (slot, txg) in [(0u64, 40u64), (1, 42), (2, 41)] {
            let at = 131072 + 1024 * slot;
            let bp = if txg == 42 { mos } else { &[0x55u8; 128][..] };
            let u = uberblock(txg, 1000 + txg, bp, at);
            d[at as usize..at as usize + 1024].copy_from_slice(&u);
        }
        // A newer one that does not verify.
        let at = 131072 + 1024 * 3;
        let mut u = uberblock(99, 5000, mos, at);
        u[600] ^= 1;
        d[at as usize..at as usize + 1024].copy_from_slice(&u);
    }
}

fn single() -> Builder {
    let mut b = Builder::new(1, Kind::Mirror);
    let mos = build_tree(&mut b);
    finish(&mut b, &vdev_tree("disk", &[]), &mos);
    b
}

fn mirror() -> Builder {
    let mut b = Builder::new(2, Kind::Mirror);
    let mos = build_tree(&mut b);
    finish(&mut b, &vdev_tree("mirror", &GUIDS[..2]), &mos);
    b
}

fn raidz(n: usize) -> Builder {
    let mut b = Builder::new(n, Kind::Raidz);
    let mos = build_tree(&mut b);
    finish(&mut b, &vdev_tree("raidz", &GUIDS[..n]), &mos);
    b
}

fn members(devices: Vec<Vec<u8>>) -> Vec<PoolMember<MemImage>> {
    devices
        .into_iter()
        .map(|d| PoolMember {
            device_size_bytes: d.len() as u64,
            reader: MemImage(d),
        })
        .collect()
}

fn import(b: Builder) -> Zfs<MemImage> {
    match Zfs::import(members(b.devices)) {
        Ok(z) => z,
        Err(e) => panic!("{}", e.message()),
    }
}

fn import_error(devices: Vec<Vec<u8>>) -> Error {
    match Zfs::import(members(devices)) {
        Ok(_) => panic!("imported"),
        Err(e) => e,
    }
}

const DS: [&str; 2] = ["BOOT", "default"];

fn check_files<R: BlockRead>(z: &mut Zfs<R>) {
    for (name, data) in files() {
        assert_eq!(z.read(&DS, &[name]).unwrap(), data, "{name}");
    }
    assert_eq!(z.read(&DS, &["big.bin"]).unwrap(), big_file()[..2500]);
}

#[test]
fn single_lz4_imports_with_matching_identity() {
    let zfs = import(single());
    assert_eq!(zfs.pool_guid(), 0x1234_5678_9abc_def0, "pool guid");
    assert_eq!(zfs.pool_name(), "bpool", "pool name");
    assert!(zfs.txg() > 0, "active uberblock has a txg");
    assert_eq!(zfs.txg(), 42);
    assert_eq!(zfs.member_count(), 1);
}

#[test]
fn mirror_imports_all_members() {
    let zfs = import(mirror());
    assert_eq!(zfs.pool_guid(), 0x1234_5678_9abc_def0);
    assert_eq!(zfs.member_count(), 2);
}

#[test]
fn single_lz4_read_dir_lists_catalog() {
    let mut zfs = import(single());
    let entries = zfs.read_dir(&["BOOT", "test"]).unwrap();
    let names: Vec<&str> = entries.iter().map(|e| e.name.as_str()).collect();
    for expected in [
        "vmlinuz-6.1.0-test",
        "initrd.img-6.1.0-test",
        "os-release",
        "big.bin",
        "loader",
        "EFI",
    ] {
        assert!(names.contains(&expected), "missing {expected} in {names:?}");
    }
    let by = |n: &str| entries.iter().find(|e| e.name == n).unwrap().clone();
    assert_eq!(by("loader").kind, EntryKind::Directory);
    assert_eq!(by("big.bin").kind, EntryKind::Regular);
    assert_eq!(by("vmlinuz").kind, EntryKind::Symlink);
}

#[test]
fn listing_of_a_dataset() {
    let mut z = import(single());
    let entries = z.read_dir(&DS).unwrap();
    let kind = |n: &str| entries.iter().find(|e| e.name == n).unwrap().kind;
    assert_eq!(entries.len(), 11);
    assert_eq!(kind("vmlinuz"), EntryKind::Regular);
    assert_eq!(kind("loader"), EntryKind::Directory);
    assert_eq!(kind("link"), EntryKind::Symlink);
    let nested = z.read_dir_at(&DS, &["loader"]).unwrap();
    assert_eq!(nested.len(), 1);
    assert_eq!(nested[0].name, "entry.conf");
    assert_eq!(z.read_dir(&[]).unwrap(), vec![]);
    assert_eq!(
        z.read_dir_at(&DS, &["vmlinuz"]).unwrap_err(),
        Error::NotADirectory
    );
}

#[test]
fn files_of_every_compression() {
    let mut z = import(single());
    check_files(&mut z);
    assert_eq!(
        z.read(&DS, &["embedded"]).unwrap(),
        b"hello embedded world".to_vec()
    );
    assert_eq!(
        z.read(&DS, &["loader", "entry.conf"]).unwrap(),
        text(300)
    );
}

#[test]
fn ranged_reads_are_windows_of_the_file() {
    let mut z = import(single());
    let whole = z.read(&DS, &["big.bin"]).unwrap();
    for (offset, len) in [(0usize, 10usize), (500, 30), (511, 1100), (2400, 500), (2500, 1), (9999, 4)] {
        let end = whole.len().min(offset + len);
        let expected = if offset < end { &whole[offset..end] } else { &[][..] };
        let got = z.read_at(&DS, &["big.bin"], offset as u64, len).unwrap();
        assert_eq!(got, expected, "{offset} {len}");
    }
}

#[test]
fn what_is_known_of_a_path() {
    let mut z = import(single());
    assert_eq!(
        z.stat(&DS, &["vmlinuz"]).unwrap(),
        Metadata {
            kind: EntryKind::Regular,
            size: 1500
        }
    );
    assert_eq!(
        z.stat(&DS, &["loader"]).unwrap().kind,
        EntryKind::Directory
    );
    assert_eq!(z.path_exists(&DS, &["vmlinuz"]), Ok(true));
    assert_eq!(z.path_exists(&DS, &["initrd"]), Ok(false));
    assert_eq!(z.path_exists(&DS, &["vmlinuz", "x"]), Ok(false));
    assert_eq!(z.path_exists(&["nowhere"], &["vmlinuz"]), Ok(false));
}

#[test]
fn errors_of_paths() {
    let mut z = import(single());
    assert_eq!(
        z.read(&DS, &["missing"]).unwrap_err(),
        Error::NotFound { component: "path" }
    );
    assert_eq!(
        z.read(&DS, &[]).unwrap_err(),
        Error::NotFound {
            component: "empty_path"
        }
    );
    assert_eq!(
        z.read(&DS, &["loader"]).unwrap_err(),
        Error::NotARegularFile
    );
    assert_eq!(
        z.read(&DS, &["vmlinuz", "x"]).unwrap_err(),
        Error::NotADirectory
    );
    assert_eq!(
        z.read(&["BOOT", "other"], &["vmlinuz"]).unwrap_err(),
        Error::NotFound {
            component: "dataset"
        }
    );
    assert_eq!(
        z.read(&["BOOT"], &["vmlinuz"]).unwrap_err(),
        Error::NotFound {
            component: "head_dataset"
        }
    );
    assert_eq!(
        z.read(&["home"], &["x"]).unwrap_err().token(),
        "dataset_no_bp"
    );
    assert_eq!(
        z.read(&DS, &["huge.bin"]).unwrap_err(),
        Error::FileTooLarge {
            size: MAX_FILE_BYTES + 5,
            max: MAX_FILE_BYTES
        }
    );
    assert_eq!(
        z.read_at(&DS, &["huge.bin"], 2, MAX_FILE_BYTES as usize + 1)
            .unwrap_err(),
        Error::FileTooLarge {
            size: MAX_FILE_BYTES + 5,
            max: MAX_FILE_BYTES
        }
    );
    assert_eq!(z.read_at(&DS, &["huge.bin"], 5, 9).unwrap(), vec![0u8; 9]);
}

#[test]
fn datasets_without_internal_ones() {
    let mut z = import(single());
    assert_eq!(z.child_datasets(&[]).unwrap(), ["BOOT", "home"]);
    assert_eq!(z.child_datasets(&["BOOT"]).unwrap(), ["default", "test"]);
    let all = z.datasets().unwrap();
    let expected: Vec<Vec<String>> = vec![
        vec![],
        vec!["BOOT".to_string()],
        vec!["home".to_string()],
        vec!["BOOT".to_string(), "default".to_string()],
        vec!["BOOT".to_string(), "test".to_string()],
    ];
    assert_eq!(all, expected);
}

#[test]
fn datasets_that_go_round_in_a_circle() {
    let mut b = Builder::new(1, Kind::Mirror);
    let directory = b.plain(&zap(&[("root_dataset", 2)]));
    // All children of the root dataset are the root dataset.
    let mut children = zap(&[]);
    children.resize(131072, 0);
    for i in 1..2048 {
        put64(&mut children, 64 * i, 2);
        let name = format!("d{i}");
        children[64 * i + 14..64 * i + 14 + name.len()].copy_from_slice(name.as_bytes());
    }
    let children = b.plain(&children);
    let mut bonus = vec![0u8; 256];
    put64(&mut bonus, 32, 4);
    let mos = objset(
        &mut b,
        &[
            (1, dnode(1, 1024, &[directory], &[])),
            (2, dnode(1, 512, &[vec![0u8; 128]], &bonus)),
            (4, dnode(1, 131072, &[children], &[])),
        ],
    );
    finish(&mut b, &vdev_tree("disk", &[]), &mos);
    let mut z = import(b);
    assert_eq!(z.child_datasets(&["d1", "d2047"]).unwrap().len(), 2047);
    assert_eq!(z.datasets().unwrap_err().token(), "dataset_limit");
}

#[test]
fn mirror_reads_around_a_bad_member() {
    let mut z = import(mirror());
    assert_eq!(z.member_count(), 2);
    check_files(&mut z);
    // Member 0 keeps its label, but its data is gone.
    let mut b = mirror();
    for byte in &mut b.devices[0][LABEL_RESERVE..] {
        *byte = 0xee;
    }
    check_files(&mut import(b));
    let mut b = mirror();
    for d in &mut b.devices {
        for byte in &mut d[LABEL_RESERVE..] {
            *byte = 0xee;
        }
    }
    assert_eq!(import_error(b.devices).token(), "csum_fletcher4");
}

#[test]
fn errors_name_the_leaf() {
    let ruined = |mut b: Builder| {
        for d in &mut b.devices {
            for byte in &mut d[LABEL_RESERVE..] {
                *byte = 0xee;
            }
        }
        b
    };
    let at = LABEL_RESERVE as u64;
    let error = import_error(ruined(single()).devices);
    assert!(
        matches!(error, Error::ChecksumMismatch { vdev: 77, offset, .. } if offset > at),
        "{error:?}"
    );
    let mut b = ruined(mirror());
    b.devices.swap(0, 1);
    let error = import_error(b.devices);
    assert!(
        matches!(error, Error::ChecksumMismatch { vdev: 102, offset, .. } if offset > at),
        "{error:?}"
    );
    let error = import_error(ruined(raidz(3)).devices);
    assert!(
        matches!(error, Error::ChecksumMismatch { vdev: 0, offset, .. } if offset > at),
        "{error:?}"
    );
    let mut b = single();
    b.devices[0].truncate(LABEL_RESERVE);
    let error = import_error(b.devices);
    assert!(
        matches!(error, Error::Io { token: "io_block", vdev: 77, offset } if offset > at),
        "{error:?}"
    );
    let mut b = raidz(3);
    for d in &mut b.devices {
        d.truncate(LABEL_RESERVE);
    }
    let error = import_error(b.devices);
    assert!(
        matches!(error, Error::Io { token: "io_block", vdev: 101..=103, offset } if offset > at),
        "{error:?}"
    );
}

#[test]
fn mirror_needs_the_labels_of_all_members() {
    let b = mirror();
    assert_eq!(
        import_error(b.devices[..1].to_vec()),
        Error::BadLabel(LabelReason::PoolGuidMismatch)
    );
}

#[test]
fn members_are_found_by_their_labels() {
    let mut b = mirror();
    b.devices.swap(0, 1);
    check_files(&mut import(b));
    let mut b = raidz(4);
    b.devices.swap(1, 3);
    check_files(&mut import(b));
}

#[test]
fn the_same_question_has_the_same_answer() {
    let b = raidz(3);
    let again = Builder {
        devices: b.devices.clone(),
        kind: b.kind,
        next: b.next,
    };
    let mut z = import(b);
    assert_eq!(z.txg(), import(again).txg());
    for _ in 0..2 {
        check_files(&mut z);
        assert_eq!(z.read_dir(&DS).unwrap().len(), 11);
    }
}

#[test]
fn what_is_listed_is_resolved() {
    let mut z = import(single());
    for entry in z.read_dir(&["BOOT", "test"]).unwrap() {
        let found = z.stat(&["BOOT", "test"], &[entry.name.as_str()]).unwrap();
        assert_eq!(found.kind, entry.kind);
    }
}

#[test]
fn raidz_reads() {
    for n in [2, 3, 4, 5] {
        check_files(&mut import(raidz(n)));
    }
}

#[test]
fn raidz_reads_without_any_one_member() {
    for n in [3, 4, 5] {
        for lost in 1..n {
            let mut b = raidz(n);
            b.devices.remove(lost);
            check_files(&mut import(b));
        }
    }
}

#[test]
fn raidz_reads_with_any_one_member_corrupt() {
    for n in [3, 4] {
        for bad in 0..n {
            let mut b = raidz(n);
            for byte in &mut b.devices[bad][LABEL_RESERVE..] {
                *byte ^= 0x5a;
            }
            check_files(&mut import(b));
        }
    }
}

#[test]
fn raidz_with_two_members_missing_is_refused() {
    let b = raidz(4);
    assert_eq!(
        import_error(b.devices[..2].to_vec()),
        Error::UnsupportedTopology("topo_raidz_degraded")
    );
}

#[test]
fn topologies_that_are_refused() {
    for (kind, token) in [("draid", "topo_draid"), ("spare", "topo_unknown")] {
        let mut b = Builder::new(1, Kind::Mirror);
        let mos = build_tree(&mut b);
        finish(&mut b, &vdev_tree(kind, &[]), &mos);
        assert_eq!(
            import_error(b.devices),
            Error::UnsupportedTopology(token)
        );
    }
    let mut b = Builder::new(1, Kind::Mirror);
    let mos = build_tree(&mut b);
    let tree = nv_list(&[
        nv_str("type", "raidz"),
        nv_u64("ashift", 9),
        nv_u64("nparity", 2),
    ]);
    finish(&mut b, &tree, &mos);
    assert_eq!(
        import_error(b.devices),
        Error::UnsupportedTopology("topo_raidz_multiparity")
    );
}

#[test]
fn labels_that_are_refused() {
    assert_eq!(
        import_error(vec![]),
        Error::BadLabel(LabelReason::NoLabels)
    );
    assert_eq!(
        import_error(vec![vec![0u8; DEVICE_SIZE]]),
        Error::BadLabel(LabelReason::BadChecksum)
    );
    assert_eq!(
        import_error(vec![vec![0u8; 1000]]),
        Error::Io {
            token: "io_nvpairs",
            vdev: 0,
            offset: 16384
        }
    );
    let mut b = single();
    let mut region = vec![0u8; 112 * 1024];
    seal(&mut region, 16384);
    b.devices[0][16384..16384 + region.len()].copy_from_slice(&region);
    assert_eq!(
        import_error(b.devices),
        Error::BadLabel(LabelReason::BadMagic)
    );
    let mut b = single();
    for byte in &mut b.devices[0][131072..262144] {
        *byte = 0;
    }
    assert_eq!(import_error(b.devices), Error::NoValidUberblock);
    let mut b = single();
    b.devices[0][16384 + 100] ^= 1;
    assert_eq!(import_error(b.devices).token(), "label_bad_checksum");
}

#[test]
fn configurations_that_lack_something() {
    let tree = vdev_tree("disk", &[]);
    let cases: [(Vec<Vec<u8>>, &str); 4] = [
        (vec![], "not_found"),
        (vec![nv_str("pool_guid", "x")], "nv_u64"),
        (vec![nv_u64("pool_guid", 1), nv_u64("name", 1)], "nv_str"),
        (
            vec![
                nv_u64("pool_guid", 1),
                nv_str("name", "p"),
                nv_u64("vdev_tree", 1),
            ],
            "nv_nvlist",
        ),
    ];
    for (pairs, token) in cases {
        let mut b = single();
        let config = nv_list(&pairs);
        let mut region = vec![0u8; 112 * 1024];
        region[0] = 1;
        region[4..4 + config.len()].copy_from_slice(&config);
        seal(&mut region, 16384);
        b.devices[0][16384..16384 + region.len()].copy_from_slice(&region);
        assert_eq!(import_error(b.devices).token(), token);
    }
    let mut b = single();
    let mut region = nvpairs_region(1, &tree);
    region[12] = 0x7f;
    seal(&mut region, 16384);
    b.devices[0][16384..16384 + region.len()].copy_from_slice(&region);
    assert_eq!(import_error(b.devices).token(), "nv_decode");
}

/// A device whose reads fail every other time.
struct Flaky {
    image: MemImage,
    failing: bool,
}

impl BlockRead for Flaky {
    type Error = ();
    fn read_at(&mut self, off: u64, buf: &mut [u8]) -> Result<(), ()> {
        self.failing = !self.failing;
        if self.failing {
            return Err(());
        }
        self.image.read_at(off, buf)
    }
}

#[test]
fn a_device_that_fails_now_and_then() {
    let b = single();
    let member = PoolMember {
        reader: Flaky {
            image: MemImage(b.devices[0].clone()),
            failing: false,
        },
        device_size_bytes: DEVICE_SIZE as u64,
    };
    match Zfs::import(vec![member]) {
        Ok(_) => panic!("imported"),
        Err(e) => assert_eq!(e.token(), "io_nvpairs"),
    }
}
