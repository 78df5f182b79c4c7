# lamzfs

A read-only ZFS pool reader, verified with Verus.

It imports a pool from the byte sources of its members, walks to a dataset, and lists its
directories and reads its files. Single devices, mirrors and single parity RAID-Z are read,
as far as the redundancy goes: a mirror with a member whose data is corrupt or cannot be
read, and RAID-Z with one such member, or without it. To import a mirror, all of its members
have to be there with their labels.
Blocks may be uncompressed or compressed with ZLE, LZJB, LZ4, gzip or zstd, and are verified
with Fletcher-2, Fletcher-4 or SHA-256 checksums before they are used. Encryption, gang
blocks and other topologies are refused with a typed error, and so is a listing of more than
4096 datasets. Name-value maps, which directories are, are read if they are single blocks
(micro ZAPs); larger ones (fat ZAPs) are refused. There is no write path.

```rust
let mut zfs = Zfs::import(members)?;
for entry in zfs.read_dir(&["BOOT", "default"])? {
    println!("{:?} {}", entry.kind, entry.name);
}
let kernel = zfs.read(&["BOOT", "default"], &["vmlinuz"])?;
```

## Layout

- `src/phys/`: on-disk structures, and what their bytes mean.
- `src/checksum/`, `src/cksum.rs`: checksums, and the verification of blocks.
- `src/compression/`, `src/compress.rs`, `src/zstd.rs`: LZJB, the decompression of blocks,
  and a bound on zstd frames.
- `src/block_read.rs`: devices.
- `src/vdev.rs`, `src/raidz.rs`: where blocks are, and how they are read.
- `src/redundancy.rs`: what the redundancy of a pool is good for.
- `src/file.rs`, `src/walk.rs`, `src/dataset.rs`: objects, maps, datasets and files.
- `src/pool.rs`, `src/zfs.rs`: the import of a pool, and reading from it.
- `src/path.rs`, `src/util/`: paths and strings.
- `app/`: a tool that lists a dataset of a pool from images of its members.

## How it is specified

A device is modelled by a state that says what the next read gives and which state it
leaves, so that devices may fail or change over time. Every function that reads has a
counterpart in ghost code that says what comes of it and what state the devices are left
in. The proof functions whose names start with `law_` state what holds across functions;
many of them are about devices whose reads always give the same.

LZ4, gzip and zstd are decompressed by the crates `lz4_flex`, `miniz_oxide` and `ruzstd`.
What they return is taken to depend on the compressed bytes and the size of the output
alone; nothing else is assumed of it.
