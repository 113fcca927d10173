//! Encodings and small arithmetic of the on-disk format.

use gofs::args::{parse_ino, parse_size, NumError};
use gofs::bucket::{bucket_index, hash_name};
use gofs::fmt::{
    blk_addr, blk_split, cell_get, cell_set, csum, dir_append, dir_parse, div_up, extents_parse,
    extents_store, get_i64, get_u16, get_u32, get_u64, ino_addr, put_i64, put_u16, put_u32,
    put_u64, rt_geometry, rt_ref_off, rt_table_blocks, AgEntry, AgHeader, AgMap, AgSegment,
    DirEntry, Extent, FmtError, Inode, Superblock, Ts, AGF_IMMOVABLE, AGF_PRESENT, CELL_FREE,
    CELL_FULL, CELL_REFINED, CELL_RSVD, DT_DIR, DT_FILE, FMT_EMBED, INODE_PAYLOAD,
};
use gofs::record::{
    count_bits, find_clear, find_run, rec_all, rec_fill, rec_ref, rec_ref_set, rec_state,
    rec_state_set, recs_per_block, with_bit, without_bit,
};

#[test]
fn sb_roundtrip() {
    let mut sb = Superblock {
        blocksize: 4096,
        inodesize: 256,
        root_ino: 48,
        next_ag: 1,
        agmap_offset: 16384,
        agmap_length: 65536,
        journal_start: 36,
        journal_length: 1024,
        free_blocks: 2560,
        rsvd_blocks: 1536,
        gen: 1,
        ..Default::default()
    };
    sb.uuid = *b"0123456789abcdef";
    for (i, u) in "test".encode_utf16().enumerate() {
        sb.disk_name[i] = u;
    }
    let b = sb.to_bytes();
    let p = Superblock::parse(&b).unwrap();
    assert_eq!(p.root_ino, 48);
    assert_eq!(p.label(), "test");
    assert_eq!(p.journal_length, 1024);
    // corrupt one byte -> checksum failure
    let mut bad = b;
    bad[100] ^= 1;
    assert!(Superblock::parse(&bad).is_err());
}

#[test]
fn aghdr_roundtrip() {
    let h = AgHeader {
        ag_num: 3,
        gen: 7,
        length: 16384,
        free_blocks: 16000,
        rsvd_blocks: 384,
        alloc_root: 1,
        ..Default::default()
    };
    let b = h.to_bytes();
    let p = AgHeader::parse(&b).unwrap();
    assert_eq!(p.ag_num, 3);
    assert_eq!(p.free_blocks, 16000);
}

#[test]
fn agmap_roundtrip_resolve() {
    let map = AgMap {
        gen: 2,
        entries: vec![
            AgEntry {
                flags: AGF_PRESENT | AGF_IMMOVABLE,
                length: 4096,
                segs: vec![AgSegment { ag_block: 0, blocks: 4096, dev_offset: 0 }],
            },
            AgEntry {
                flags: AGF_PRESENT,
                length: 8192,
                segs: vec![
                    AgSegment { ag_block: 0, blocks: 4096, dev_offset: 4096 * 4096 },
                    AgSegment { ag_block: 4096, blocks: 4096, dev_offset: 10000 * 4096 },
                ],
            },
        ],
    };
    let b = map.to_bytes(65536).unwrap();
    let p = AgMap::parse(&b).unwrap();
    assert_eq!(p.entries.len(), 2);
    assert_eq!(p.resolve(blk_addr(0, 5), 4096), Some(5 * 4096));
    assert_eq!(p.resolve(blk_addr(1, 4097), 4096), Some(10001 * 4096));
    assert_eq!(p.resolve(blk_addr(1, 9000), 4096), None);
    assert_eq!(p.resolve(blk_addr(2, 0), 4096), None);
}

#[test]
fn inode_roundtrip() {
    let mut ino = Inode {
        format: FMT_EMBED,
        mode: 0o100644,
        nlink: 1,
        size: 5,
        mtime: Ts { sec: 1_750_000_000, nsec: 42 },
        ..Default::default()
    };
    ino.payload[..5].copy_from_slice(b"hello");
    let b = ino.to_bytes();
    let p = Inode::parse(&b).unwrap();
    assert!(p.is_file());
    assert_eq!(&p.payload[..5], b"hello");
    assert_eq!(p.mtime.sec, 1_750_000_000);
}

#[test]
fn cells() {
    let mut buf = [0u8; 8];
    cell_set(&mut buf, 0, CELL_RSVD);
    cell_set(&mut buf, 5, CELL_FULL);
    cell_set(&mut buf, 31, CELL_REFINED);
    assert_eq!(cell_get(&buf, 0), CELL_RSVD);
    assert_eq!(cell_get(&buf, 5), CELL_FULL);
    assert_eq!(cell_get(&buf, 31), CELL_REFINED);
    assert_eq!(cell_get(&buf, 1), CELL_FREE);
    cell_set(&mut buf, 5, CELL_FREE);
    assert_eq!(cell_get(&buf, 5), CELL_FREE);
}

#[test]
fn dir_embed() {
    let mut payload = [0u8; INODE_PAYLOAD];
    dir_append(&mut payload, &DirEntry { ino: 49, ftype: DT_FILE, name: "héllo.txt".into() })
        .unwrap();
    dir_append(&mut payload, &DirEntry { ino: 50, ftype: DT_DIR, name: "日本語".into() }).unwrap();
    let v = dir_parse(&payload);
    assert_eq!(v.len(), 2);
    assert_eq!(v[0].name, "héllo.txt");
    assert_eq!(v[1].name, "日本語");
    assert_eq!(v[1].ino, 50);
}

#[test]
fn extents() {
    let mut payload = [0u8; INODE_PAYLOAD];
    extents_store(
        &mut (payload),
        &[Extent { file_block: 0, blk: blk_addr(0, 1280), blocks: 2 }],
    )
    .unwrap();
    let v = extents_parse(&payload);
    assert_eq!(v.len(), 1);
    assert_eq!(blk_split(v[0].blk), (0, 1280));
}

#[test]
fn rt_geom() {
    // 16 MiB AG at 4 KiB blocks = 4096 blocks = 16 cells -> 4 bytes -> 1 block
    assert_eq!(rt_geometry(4096, 4096), (16, 1));
    // 64 GiB AG = 16 Mi blocks = 65536 cells -> 16 KiB -> 4 blocks
    assert_eq!(rt_geometry(16 * 1024 * 1024, 4096), (65536, 4));
}

#[test]
fn table_size_counts_references() {
    // 65536 cells: 16 KiB of states and 384 KiB of references
    assert_eq!(rt_table_blocks(16 * 1024 * 1024, 4096), 100);
    assert_eq!(rt_ref_off(16, 3), 4 + 18);
    assert_eq!(div_up(9, 4), 3);
    assert_eq!(div_up(8, 4), 2);
    assert_eq!(div_up(0, 4), 0);
}

#[test]
fn addresses_split_into_halves() {
    let a = blk_addr(7, 0xfffe_0001);
    assert_eq!(a, 0x0000_0007_fffe_0001);
    assert_eq!(blk_split(a), (7, 0xfffe_0001));
    assert_eq!(ino_addr(1, 2), 0x1_0000_0002);
}

#[test]
fn fields_are_big_endian() {
    let mut b = [0u8; 24];
    put_u16(&mut b, 0, 0x0102);
    put_u32(&mut b, 2, 0x0304_0506);
    put_u64(&mut b, 6, 0x0708_090a_0b0c_0d0e);
    put_i64(&mut b, 14, -2);
    assert_eq!(b[..14], [1, 2, 3, 4, 5, 6, 7, 8, 9, 10, 11, 12, 13, 14]);
    assert_eq!(get_u16(&b, 0), 0x0102);
    assert_eq!(get_u32(&b, 2), 0x0304_0506);
    assert_eq!(get_u64(&b, 6), 0x0708_090a_0b0c_0d0e);
    assert_eq!(get_i64(&b, 14), -2);
}

#[test]
fn checksum_is_crc32c_with_its_field_zeroed() {
    // the check value of CRC-32C over "123456789" is e3069283
    let mut b = vec![0u8; 4];
    b.extend_from_slice(b"");
    assert_eq!(csum(&[0, 0, 0, 0], 0), crc32c::crc32c(&[0, 0, 0, 0]));
    let mut a = *b"0000123456789";
    let x = csum(&a, 0);
    a[2] = 77;
    assert_eq!(csum(&a, 0), x);
    a[5] = 77;
    assert_ne!(csum(&a, 0), x);
    let mut whole = *b"1234567890000";
    whole[9..].copy_from_slice(&[0; 4]);
    assert_eq!(csum(&whole, 9), crc32c::crc32c(&whole));
    assert_eq!(crc32c::crc32c(b"123456789"), 0xe306_9283);
}

#[test]
fn names_hash_by_siphash_2_4_under_the_volume_id() {
    let mut uuid = [0u8; 16];
    for i in 0..16 {
        uuid[i] = i as u8;
    }
    // the first test vector of SipHash-2-4: key 00..0f, empty input
    assert_eq!(hash_name(&uuid, ""), 0x726f_db47_dd0e_0e31);
    assert_ne!(hash_name(&uuid, "a"), hash_name(&uuid, "b"));
    assert_ne!(hash_name(&uuid, "a"), hash_name(&[0u8; 16], "a"));
    assert_eq!(bucket_index(0xffff_0000_0000_0000, 0), 0);
    assert_eq!(bucket_index(0xc000_0000_0000_0000, 2), 3);
}

#[test]
fn superblock_flaws() {
    let sb = Superblock { blocksize: 4096, inodesize: 256, ..Default::default() };
    let b = sb.to_bytes();
    assert!(Superblock::parse(&b).is_ok());
    assert!(matches!(Superblock::parse(&b[..511]), Err(FmtError::ShortRead)));
    let mut m = b;
    m[0] = 0;
    assert!(matches!(Superblock::parse(&m), Err(FmtError::BadMagic)));
    let mut c = b;
    c[200] ^= 1;
    assert!(matches!(Superblock::parse(&c), Err(FmtError::BadChecksum)));
    let mut v = b;
    v[11] = 9;
    let x = csum(&v, 4);
    put_u32(&mut v, 4, x);
    assert!(matches!(Superblock::parse(&v), Err(FmtError::BadVersion(9))));
    let odd = Superblock { blocksize: 4097, inodesize: 256, ..Default::default() };
    assert!(Superblock::parse(&odd.to_bytes()).is_err());
}

#[test]
fn header_and_inode_flaws() {
    let b = AgHeader { ag_num: 1, ..Default::default() }.to_bytes();
    assert!(matches!(AgHeader::parse(&b[..63]), Err(FmtError::ShortRead)));
    let mut m = b;
    m[1] = 0;
    assert!(matches!(AgHeader::parse(&m), Err(FmtError::BadMagic)));
    let mut c = b;
    c[63] = 1;
    assert!(matches!(AgHeader::parse(&c), Err(FmtError::BadChecksum)));

    let i = Inode::default().to_bytes();
    assert!(matches!(Inode::parse(&i[..255]), Err(FmtError::ShortRead)));
    let mut m = i;
    m[0] ^= 1;
    assert!(matches!(Inode::parse(&m), Err(FmtError::BadMagic)));
    let mut c = i;
    c[255] ^= 1;
    assert!(matches!(Inode::parse(&c), Err(FmtError::BadChecksum)));
    let mut v = i;
    v[2] = 3;
    let x = csum(&v, 4);
    put_u32(&mut v, 4, x);
    assert!(matches!(Inode::parse(&v), Err(FmtError::BadVersion(3))));
}

#[test]
fn map_that_does_not_fit() {
    let e = AgEntry {
        flags: AGF_PRESENT,
        length: 1,
        segs: vec![AgSegment { ag_block: 0, blocks: 1, dev_offset: 0 }],
    };
    let map = AgMap { gen: 1, entries: vec![e] };
    assert_eq!(map.to_bytes(48).unwrap().len(), 48);
    assert!(matches!(map.to_bytes(47), Err(FmtError::CapacityExceeded)));
}

#[test]
fn payload_limits() {
    let mut p = [0u8; INODE_PAYLOAD];
    let long: String = std::iter::repeat('x').take(256).collect();
    assert!(matches!(
        dir_append(&mut p, &DirEntry { ino: 1, ftype: DT_FILE, name: long }),
        Err(FmtError::NameTooLong)
    ));
    let most: String = std::iter::repeat('x').take(59).collect();
    dir_append(&mut p, &DirEntry { ino: 1, ftype: DT_FILE, name: most }).unwrap();
    assert!(matches!(
        dir_append(&mut p, &DirEntry { ino: 2, ftype: DT_FILE, name: "y".into() }),
        Err(FmtError::DirectoryFull)
    ));
    let e = Extent { file_block: 0, blk: 1, blocks: 1 };
    assert!(matches!(extents_store(&mut p, &[e; 7]), Err(FmtError::TooManyExtents)));
    extents_store(&mut p, &[e; 6]).unwrap();
    assert_eq!(extents_parse(&p).len(), 6);
}

#[test]
fn unpaired_surrogates_are_replaced() {
    let mut sb = Superblock { blocksize: 4096, inodesize: 256, ..Default::default() };
    sb.disk_name[0] = 0xd800;
    sb.disk_name[1] = 'a' as u16;
    sb.disk_name[2] = 0xd83d;
    sb.disk_name[3] = 0xde00;
    assert_eq!(sb.label(), "\u{fffd}a\u{1f600}");
}

#[test]
fn timestamps_from_clock_readings() {
    assert_eq!(Ts::from_clock(Some((12, 34))).sec, 12);
    assert_eq!(Ts::from_clock(Some((12, 34))).nsec, 34);
    assert_eq!(Ts::from_clock(None).sec, 0);
    let now = Ts::now();
    assert!(now.nsec < 1_000_000_000 && now.sec > 1_600_000_000);
}

#[test]
fn records() {
    let mut rec = [0u8; 128];
    rec_state_set(&mut rec, 3, CELL_FULL);
    rec_ref_set(&mut rec, 3, (77, 5));
    assert_eq!(rec_state(&rec, 3), CELL_FULL);
    assert_eq!(rec_ref(&rec, 3), (77, 5));
    assert_eq!(rec_ref(&rec, 2), (0, 0));
    assert!(!rec_all(&rec, CELL_FREE));
    assert_eq!(find_run(&rec, 4), Some(4));
    assert_eq!(find_run(&rec, 3), Some(0));
    assert_eq!(find_run(&rec, 13), None);
    rec_fill(&mut rec, 0, 16, CELL_FREE);
    assert!(rec_all(&rec, CELL_FREE));
    assert_eq!(recs_per_block(4096), 31);
    assert_eq!(count_bits(0b1011), 3);
    assert_eq!(find_clear(0b1011, 8), 2);
    assert_eq!(with_bit(0b1011, 2), 0b1111);
    assert_eq!(without_bit(0b1011, 1), 0b1001);
}

#[test]
fn sizes_and_inode_numbers_as_text() {
    assert_eq!(parse_size("256M"), Ok(256 << 20));
    assert_eq!(parse_size("8g"), Ok(8 << 30));
    assert_eq!(parse_size("2T"), Ok(2 << 40));
    assert_eq!(parse_size("4k"), Ok(4096));
    assert_eq!(parse_size("+17"), Ok(17));
    assert_eq!(parse_size(""), Err(NumError::Empty));
    assert_eq!(parse_size("M"), Err(NumError::Empty));
    assert_eq!(parse_size("12x"), Err(NumError::InvalidDigit));
    assert_eq!(parse_size("-1"), Err(NumError::InvalidDigit));
    assert_eq!(parse_size("18446744073709551615"), Ok(u64::MAX));
    assert_eq!(parse_size("18446744073709551616"), Err(NumError::Overflow));
    assert_eq!(parse_size("99999999999T"), Err(NumError::Overflow));
    assert_eq!(parse_ino("0x1f"), Ok(31));
    assert_eq!(parse_ino("0xFF"), Ok(255));
    assert_eq!(parse_ino("31"), Ok(31));
    assert_eq!(parse_ino("0x"), Err(NumError::Empty));
    assert_eq!(parse_ino("1f"), Err(NumError::InvalidDigit));
}
