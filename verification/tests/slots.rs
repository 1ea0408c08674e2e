use mercury_mapper::frame::{
    decode_slot, encode_slot, frame_line, from_be, split_slot, sums_agree, to_be,
};
use mercury_mapper::slots::{choose_authoritative, choose_target, slot_offset};
use mercury_mapper::{Error, Extent, Slot, SubVolume, SuperPartition};

const IO: u64 = 64;
const BLOCKS: u64 = 10;

fn cksum(bytes: &[u8]) -> u32 {
    crc::Crc::<u32>::new(&crc::CRC_32_CKSUM).checksum(bytes)
}

fn blank_device() -> Vec<u8> {
    vec![0u8; (IO * BLOCKS) as usize]
}

fn line_of(sp: &SuperPartition) -> String {
    format!("{{\"generation\":{},\"subvols\":{}}}", sp.generation(), sp.entries().len())
}

fn generation_in(line: &str) -> u32 {
    let digits: String = line
        .trim_start_matches("{\"generation\":")
        .chars()
        .take_while(|c| c.is_ascii_digit())
        .collect();
    digits.parse().unwrap()
}

fn read_slot(device: &[u8], slot: Slot) -> Option<u32> {
    let at = slot_offset(device.len() as u64, IO, slot).unwrap() as usize;
    decode_slot(&device[at..]).map(|line| generation_in(&line))
}

fn commit(sp: &mut SuperPartition, device: &mut Vec<u8>) -> Slot {
    let target = sp.commit(read_slot(device, Slot::A), read_slot(device, Slot::B));
    let bytes = encode_slot(&line_of(sp), IO).unwrap();
    let at = slot_offset(device.len() as u64, IO, target).unwrap() as usize;
    device[at..at + bytes.len()].copy_from_slice(&bytes);
    target
}

fn adopted() -> SuperPartition {
    SuperPartition::adopt("dev".to_string(), "data".to_string(), 8 * IO, BLOCKS * IO, IO).unwrap()
}

fn with_generation(generation: u32) -> SuperPartition {
    let mut sp = SuperPartition::new("disk".to_string(), generation);
    sp.insert(
        format!("g{}", generation),
        SubVolume::plain(vec![Extent::new(generation as u64, 1)]),
    );
    sp
}

#[test]
fn checksum_is_crc32_cksum() {
    let slot = encode_slot("123456789", IO).unwrap();
    assert_eq!(&slot[..4], &[0x76, 0x5e, 0x76, 0x80]);
    assert_eq!(&slot[4..13], b"123456789");
    assert_eq!(&slot[13..], b"\n\0");
    let empty = encode_slot("", IO).unwrap();
    assert_eq!(empty, vec![0xff, 0xff, 0xff, 0xff, b'\n', 0]);
}

#[test]
fn slot_is_read_back_as_written() {
    for line in ["{}", "{\"generation\":7}", "", "a b", "\u{e9}t\u{e9} \u{1f600}"] {
        let mut slot = encode_slot(line, 1024).unwrap();
        assert_eq!(decode_slot(&slot), Some(format!("{}\n", line)));
        slot.extend_from_slice(&[0u8; 40]);
        assert_eq!(decode_slot(&slot), Some(format!("{}\n", line)));
        slot.extend_from_slice(b"more\nlines\n");
        assert_eq!(decode_slot(&slot), Some(format!("{}\n", line)));
    }
}

#[test]
fn slot_has_to_be_shorter_than_a_block() {
    let line = "0123456789";
    assert_eq!(encode_slot(line, 16), Err(Error::Size));
    assert_eq!(encode_slot(line, 15), Err(Error::Size));
    assert_eq!(encode_slot(line, 0), Err(Error::Size));
    assert_eq!(encode_slot("", 6), Err(Error::Size));
    assert_eq!(encode_slot("", 7).map(|s| s.len()), Ok(6));
    assert_eq!(encode_slot(line, 17).map(|s| s.len()), Ok(16));
    assert_eq!(encode_slot(line, u64::MAX).map(|s| s.len()), Ok(16));
}

#[test]
fn any_flipped_bit_of_the_line_makes_the_slot_absent() {
    let line = "{\"device\":\"dev\",\"generation\":2,\"subvols\":{}}";
    let slot = encode_slot(line, 1024).unwrap();
    assert!(decode_slot(&slot).is_some());
    for at in 4..4 + line.len() {
        for bit in 0..8 {
            let mut bad = slot.clone();
            bad[at] ^= 1 << bit;
            assert_eq!(decode_slot(&bad), None, "byte {} bit {}", at, bit);
        }
    }
    for at in 0..4 {
        for bit in 0..8 {
            let mut bad = slot.clone();
            bad[at] ^= 1 << bit;
            assert_eq!(decode_slot(&bad), None);
        }
    }
}

#[test]
fn checksum_is_taken_over_the_trimmed_line() {
    let mut slot = cksum(b"abc").to_be_bytes().to_vec();
    slot.extend_from_slice(b"  abc \t\n\0");
    assert_eq!(decode_slot(&slot), Some("  abc \t\n".to_string()));
    let mut slot = cksum(b"abc").to_be_bytes().to_vec();
    slot.extend_from_slice("\u{a0}abc\u{2003}\n".as_bytes());
    assert_eq!(decode_slot(&slot), Some("\u{a0}abc\u{2003}\n".to_string()));
    let mut slot = cksum(b"  abc \n").to_be_bytes().to_vec();
    slot.extend_from_slice(b"  abc \n\0");
    assert_eq!(decode_slot(&slot), None);
    let mut slot = cksum(b"a b").to_be_bytes().to_vec();
    slot.extend_from_slice(b"a b");
    assert_eq!(decode_slot(&slot), Some("a b".to_string()));
}

#[test]
fn line_has_to_be_utf8() {
    let mut slot = cksum(&[0xff, 0xfe]).to_be_bytes().to_vec();
    slot.extend_from_slice(&[0xff, 0xfe, b'\n', 0]);
    assert_eq!(decode_slot(&slot), None);
    let mut slot = cksum(&[0xc3]).to_be_bytes().to_vec();
    slot.extend_from_slice(&[0xc3, b'\n', 0xa9]);
    assert_eq!(decode_slot(&slot), None);
    let mut slot = cksum(&[0xc3, 0xa9]).to_be_bytes().to_vec();
    slot.extend_from_slice(&[0xc3, 0xa9, b'\n', 0xff]);
    assert_eq!(decode_slot(&slot), Some("\u{e9}\n".to_string()));
}

#[test]
fn short_or_blank_slots_are_absent() {
    assert_eq!(decode_slot(&[]), None);
    assert_eq!(decode_slot(&[0xff, 0xff, 0xff]), None);
    assert_eq!(decode_slot(&[0xff, 0xff, 0xff, 0xff]), Some(String::new()));
    assert_eq!(decode_slot(&[0xff, 0xff, 0xff, 0xfe]), None);
    assert_eq!(decode_slot(&[0u8; 64]), None);
    assert_eq!(decode_slot(&blank_device()), None);
}

#[test]
fn slot_splits_into_checksum_and_line() {
    assert_eq!(split_slot(&[1, 2, 3]), None);
    assert_eq!(split_slot(&[1, 2, 3, 4]), Some((0x01020304, &[][..])));
    assert_eq!(
        split_slot(&[0, 0, 1, 0, b'a', b'\n', b'b', b'\n']),
        Some((256, &b"a\n"[..]))
    );
    assert_eq!(split_slot(&[0, 0, 0, 9, b'a', b'b']), Some((9, &b"ab"[..])));
    assert_eq!(split_slot(&[0, 0, 0, 9, b'\n', b'b']), Some((9, &b"\n"[..])));
    assert_eq!(frame_line(0x01020304, b"ab"), vec![1, 2, 3, 4, b'a', b'b', b'\n', 0]);
    assert_eq!(frame_line(0, b""), vec![0, 0, 0, 0, b'\n', 0]);
    assert!(sums_agree(5, 5));
    assert!(!sums_agree(5, 6));
}

#[test]
fn numbers_are_stored_most_significant_byte_first() {
    assert_eq!(to_be(0x765e7680), [0x76, 0x5e, 0x76, 0x80]);
    assert_eq!(to_be(0), [0, 0, 0, 0]);
    assert_eq!(to_be(u32::MAX), [0xff, 0xff, 0xff, 0xff]);
    assert_eq!(to_be(258), 258u32.to_be_bytes());
    assert_eq!(from_be(&[0x76, 0x5e, 0x76, 0x80]), 0x765e7680);
    assert_eq!(from_be(&[0xff, 0xff, 0xff, 0xff, 7]), u32::MAX);
    assert_eq!(from_be(&[0, 0, 1, 2]), 258);
}

#[test]
fn slots_lie_in_the_last_two_blocks() {
    assert_eq!(slot_offset(10, 1, Slot::A), Some(8));
    assert_eq!(slot_offset(10, 1, Slot::B), Some(9));
    assert_eq!(slot_offset(640, 64, Slot::A), Some(512));
    assert_eq!(slot_offset(640, 64, Slot::B), Some(576));
    assert_eq!(slot_offset(703, 64, Slot::B), Some(576));
    assert_eq!(slot_offset(127, 64, Slot::A), None);
    assert_eq!(slot_offset(128, 64, Slot::A), Some(0));
    assert_eq!(slot_offset(128, 0, Slot::A), None);
    assert_eq!(slot_offset(u64::MAX, 1, Slot::B), Some(u64::MAX - 1));
}

#[test]
fn target_is_the_slot_without_the_latest_metadata() {
    assert_eq!(choose_target(None, None), Slot::A);
    assert_eq!(choose_target(Some(4), None), Slot::B);
    assert_eq!(choose_target(None, Some(4)), Slot::A);
    assert_eq!(choose_target(Some(4), Some(5)), Slot::A);
    assert_eq!(choose_target(Some(6), Some(5)), Slot::B);
    assert_eq!(choose_target(Some(5), Some(5)), Slot::A);
    assert_eq!(choose_authoritative(None, None), None);
    assert_eq!(choose_authoritative(Some(4), None), Some(Slot::A));
    assert_eq!(choose_authoritative(None, Some(4)), Some(Slot::B));
    assert_eq!(choose_authoritative(Some(4), Some(5)), Some(Slot::B));
    assert_eq!(choose_authoritative(Some(6), Some(5)), Some(Slot::A));
    assert_eq!(choose_authoritative(Some(5), Some(5)), Some(Slot::A));
}

#[test]
fn open_takes_the_only_valid_slot() {
    let a = with_generation(4);
    let b = with_generation(9);
    let from_a = SuperPartition::open("dev".to_string(), Some(a.clone()), None).unwrap();
    assert_eq!(from_a.generation(), 4);
    assert_eq!(from_a.device(), "dev");
    assert_eq!(from_a.entries(), a.entries());
    let from_b = SuperPartition::open("dev".to_string(), None, Some(b.clone())).unwrap();
    assert_eq!(from_b.generation(), 9);
    assert_eq!(from_b.device(), "dev");
    assert_eq!(from_b.entries(), b.entries());
    assert_eq!(SuperPartition::open("dev".to_string(), None, None).err(), Some(Error::NotFound));
}

#[test]
fn open_takes_the_greater_generation() {
    let pick = |a: u32, b: u32| {
        SuperPartition::open("dev".to_string(), Some(with_generation(a)), Some(with_generation(b)))
            .unwrap()
    };
    assert_eq!(pick(4, 9).generation(), 9);
    assert_eq!(pick(4, 9).entries()[0].name, "g9");
    assert_eq!(pick(9, 4).generation(), 9);
    assert_eq!(pick(9, 4).entries()[0].name, "g9");
    assert_eq!(pick(5, 5).generation(), 5);
}

#[test]
fn first_commit_writes_generation_2_to_slot_a() {
    let mut device = blank_device();
    let mut sp = adopted();
    assert_eq!(commit(&mut sp, &mut device), Slot::A);
    assert_eq!(sp.generation(), 2);
    assert_eq!(read_slot(&device, Slot::A), Some(2));
    assert_eq!(read_slot(&device, Slot::B), None);
    assert!(device[..(8 * IO) as usize].iter().all(|b| *b == 0));
    assert!(device[(9 * IO) as usize..].iter().all(|b| *b == 0));
    assert_eq!(sp.entries(), adopted().entries());
}

#[test]
fn commits_alternate_between_the_slots() {
    let mut device = blank_device();
    let mut sp = adopted();
    let mut targets = Vec::new();
    for n in 1..=7u32 {
        targets.push(commit(&mut sp, &mut device));
        assert_eq!(sp.generation(), 1 + n);
        let (latest, other) = if n % 2 == 1 { (Slot::A, Slot::B) } else { (Slot::B, Slot::A) };
        assert_eq!(read_slot(&device, latest), Some(1 + n));
        assert_eq!(read_slot(&device, other), if n == 1 { None } else { Some(n) });
    }
    assert_eq!(
        targets,
        vec![Slot::A, Slot::B, Slot::A, Slot::B, Slot::A, Slot::B, Slot::A]
    );
}

#[test]
fn corrupt_slot_leaves_the_other_one_to_open() {
    let mut device = blank_device();
    let mut sp = adopted();
    commit(&mut sp, &mut device);
    commit(&mut sp, &mut device);
    assert_eq!(read_slot(&device, Slot::A), Some(2));
    assert_eq!(read_slot(&device, Slot::B), Some(3));
    let at = slot_offset(device.len() as u64, IO, Slot::A).unwrap() as usize;
    device[at + 10] ^= 0x20;
    assert_eq!(read_slot(&device, Slot::A), None);
    assert_eq!(read_slot(&device, Slot::B), Some(3));
    let opened = SuperPartition::open(
        "dev".to_string(),
        read_slot(&device, Slot::A).map(with_generation),
        read_slot(&device, Slot::B).map(with_generation),
    )
    .unwrap();
    assert_eq!(opened.generation(), 3);
    assert_eq!(commit(&mut sp, &mut device), Slot::A);
    assert_eq!(read_slot(&device, Slot::A), Some(4));
}

#[test]
fn corrupt_only_slot_leaves_nothing_to_open() {
    let mut device = blank_device();
    let mut sp = adopted();
    commit(&mut sp, &mut device);
    let at = slot_offset(device.len() as u64, IO, Slot::A).unwrap() as usize;
    device[at + 5] = b'#';
    assert_eq!(read_slot(&device, Slot::A), None);
    assert_eq!(read_slot(&device, Slot::B), None);
    assert_eq!(
        SuperPartition::open("dev".to_string(), None, None).err(),
        Some(Error::NotFound)
    );
}

#[test]
fn commit_changes_the_generation_alone() {
    let mut sp = adopted();
    let before = sp.clone();
    assert_eq!(sp.commit(Some(1), None), Slot::B);
    assert_eq!(sp.generation(), 2);
    assert_eq!(sp.device(), before.device());
    assert_eq!(sp.entries(), before.entries());
}
