use sha2::Digest;
use esp_idf_part::{AppType, DataType, Partition, PartitionTable, SubType, Type};
use espflash_image::error::Error;
use espflash_image::flash::{
    encode_flash_frequency, encode_flash_size, patch_bootloader, Chip, FlashFrequency, FlashMode,
    FlashSize,
};
use espflash_image::image::{Esp32Params, IdfBootloaderFormat};
use espflash_image::layout::{get_segment_padding, save_flash_segment, save_segment, update_checksum};
use espflash_image::segment::{merge_adjacent_segments, CodeSegment};

fn seg(addr: u32, data: &[u8]) -> CodeSegment {
    CodeSegment { addr, data: data.to_vec() }
}

fn pairs(v: &[CodeSegment]) -> Vec<(u32, Vec<u8>)> {
    v.iter().map(|s| (s.addr, s.data.clone())).collect()
}

fn bootloader() -> Vec<u8> {
    let mut b = vec![0xE9, 0x03, 0x02, 0x20, 0x78, 0x56, 0x34, 0x12];
    b.extend_from_slice(&[0xAA; 24]);
    b
}

fn params() -> Esp32Params {
    Esp32Params { boot_addr: 0x1000, partition_addr: 0x8000, chip_id: 0, default_bootloader: bootloader() }
}

fn table(size: u32) -> PartitionTable {
    PartitionTable::new(vec![
        Partition::new("nvs", Type::Data, SubType::Data(DataType::Nvs), 0x9000, 0x6000, false),
        Partition::new("factory", Type::App, SubType::App(AppType::Factory), 0x10000, size, false),
    ])
}

fn read_u32(b: &[u8], at: usize) -> u32 {
    u32::from_le_bytes([b[at], b[at + 1], b[at + 2], b[at + 3]])
}

fn sample_flash() -> Vec<CodeSegment> {
    vec![seg(0x3f40_0020, &[1, 2, 3, 4, 5]), seg(0x400d_0020, &[9; 7])]
}

fn sample_ram() -> Vec<CodeSegment> {
    vec![seg(0x3ffb_0000, &[0x11; 40]), seg(0x4008_0000, &[0x22; 6])]
}

fn build(size: u32) -> Result<IdfBootloaderFormat, Error> {
    IdfBootloaderFormat::new(
        0x4008_1234,
        sample_flash(),
        sample_ram(),
        Chip::Esp32,
        params(),
        table(size),
        None,
        None,
        None,
        None,
    )
}

#[test]
fn padding_is_zero_when_aligned() {
    assert_eq!(get_segment_padding(24, &seg(0x400d_0020, &[])), 0);
}

#[test]
fn padding_moves_to_the_next_unit() {
    assert_eq!(get_segment_padding(100, &seg(0x3f40_0020, &[])), 65452);
    assert_eq!(get_segment_padding(0xfffc, &seg(0x3f40_0020, &[])), 20);
}

#[test]
fn padding_too_small_for_a_header_is_bumped() {
    assert_eq!(get_segment_padding(20, &seg(0x3f40_0020, &[])), 4 + 0x10000 - 8);
}

#[test]
fn merge_joins_adjacent_out_of_order() {
    let m = merge_adjacent_segments(vec![seg(0x14, &[4]), seg(0x10, &[1, 2, 3, 4]), seg(0x30, &[7])]);
    assert_eq!(pairs(&m), vec![(0x10, vec![1, 2, 3, 4, 4]), (0x30, vec![7])]);
}

#[test]
fn merge_joins_chains() {
    let m = merge_adjacent_segments(vec![seg(0, &[1]), seg(1, &[2]), seg(2, &[3, 3])]);
    assert_eq!(pairs(&m), vec![(0, vec![1, 2, 3, 3])]);
}

#[test]
fn merge_of_empty_list() {
    assert!(merge_adjacent_segments(vec![]).is_empty());
}

#[test]
fn merge_is_idempotent_on_example() {
    let once = merge_adjacent_segments(vec![seg(8, &[1, 2]), seg(0, &[5; 8]), seg(20, &[3])]);
    let first = pairs(&once);
    let twice = merge_adjacent_segments(once);
    assert_eq!(pairs(&twice), first);
}

#[test]
fn merge_ignores_input_order() {
    let a = merge_adjacent_segments(vec![seg(0, &[1]), seg(1, &[2]), seg(9, &[3])]);
    let b = merge_adjacent_segments(vec![seg(9, &[3]), seg(1, &[2]), seg(0, &[1])]);
    assert_eq!(pairs(&a), pairs(&b));
}

#[test]
fn merge_keeps_order_of_equal_addresses() {
    let m = merge_adjacent_segments(vec![seg(4, &[1, 1]), seg(4, &[2])]);
    assert_eq!(pairs(&m), vec![(4, vec![1, 1]), (4, vec![2])]);
}

#[test]
fn checksum_folds_xor() {
    assert_eq!(update_checksum(&[], 0xEF), 0xEF);
    assert_eq!(update_checksum(&[0x01, 0x02, 0x0F], 0xEF), 0xEF ^ 0x01 ^ 0x02 ^ 0x0F);
}

#[test]
fn save_segment_pads_to_four() {
    let mut data = vec![0xAB];
    let c = save_segment(&mut data, &seg(0x1234_5678, &[1, 2, 3, 4, 5]), 0xEF);
    assert_eq!(data, vec![0xAB, 0x78, 0x56, 0x34, 0x12, 8, 0, 0, 0, 1, 2, 3, 4, 5, 0, 0, 0]);
    assert_eq!(c, 0xEF ^ 1 ^ 2 ^ 3 ^ 4 ^ 5);
}

#[test]
fn save_flash_segment_applies_page_workaround() {
    let mut data = Vec::new();
    let c = save_flash_segment(&mut data, seg(0x10, &[7; 4]), 0xEF);
    // ends 12 bytes past a boundary: 24 zero bytes are added to the payload
    assert_eq!(read_u32(&data, 4), 28);
    assert_eq!(data.len(), 8 + 28);
    assert_eq!(&data[8..12], &[7, 7, 7, 7]);
    assert!(data[12..].iter().all(|b| *b == 0));
    assert_eq!(c, 0xEF);
}

#[test]
fn save_flash_segment_without_workaround() {
    let mut data = vec![0u8; 0x40];
    let c = save_flash_segment(&mut data, seg(0x10, &[1, 2]), 0xEF);
    assert_eq!(read_u32(&data, 0x44), 4);
    assert_eq!(data.len(), 0x40 + 8 + 4);
    assert_eq!(c, 0xEF ^ 1 ^ 2);
}

#[test]
fn flash_size_codes() {
    assert_eq!(encode_flash_size(FlashSize::_4Mb), Ok(0x20));
    assert_eq!(encode_flash_size(FlashSize::_32Mb), Ok(0x19));
    assert_eq!(encode_flash_size(FlashSize::_256Kb), Err(Error::UnsupportedFlash(0x12)));
}

#[test]
fn flash_frequency_codes() {
    assert_eq!(encode_flash_frequency(Chip::Esp32, FlashFrequency::_80Mhz), Ok(0xf));
    assert_eq!(encode_flash_frequency(Chip::Esp32c2, FlashFrequency::_60Mhz), Ok(0xf));
    assert_eq!(
        encode_flash_frequency(Chip::Esp32, FlashFrequency::_60Mhz),
        Err(Error::UnsupportedFlashFrequency)
    );
}

#[test]
fn patch_mode_only_touches_byte_two() {
    let b = bootloader();
    let p = patch_bootloader(b.clone(), Chip::Esp32, Some(FlashMode::Dout), None, None).unwrap();
    let mut expected = b.clone();
    expected[2] = 3;
    assert_eq!(p, expected);
}

#[test]
fn patch_frequency_keeps_high_nibble() {
    let p = patch_bootloader(bootloader(), Chip::Esp32, None, None, Some(FlashFrequency::_80Mhz)).unwrap();
    assert_eq!(p[3], 0x2f);
    assert_eq!(p[2], 0x02);
}

#[test]
fn patch_size_keeps_low_nibble() {
    let mut b = bootloader();
    b[3] = 0x2f;
    let p = patch_bootloader(b, Chip::Esp32, None, Some(FlashSize::_16Mb), None).unwrap();
    assert_eq!(p[3], 0x4f);
}

#[test]
fn patch_size_and_frequency() {
    let p = patch_bootloader(
        bootloader(),
        Chip::Esp32,
        None,
        Some(FlashSize::_8Mb),
        Some(FlashFrequency::_26Mhz),
    )
    .unwrap();
    assert_eq!(p[3], 0x31);
}

#[test]
fn patch_rejects_bad_magic() {
    let mut b = bootloader();
    b[0] = 0xE8;
    assert_eq!(patch_bootloader(b, Chip::Esp32, None, None, None), Err(Error::InvalidBootloader));
    assert_eq!(patch_bootloader(vec![0xE9, 0, 0], Chip::Esp32, None, None, None), Err(Error::InvalidBootloader));
}

#[test]
fn patch_rejects_unsupported_values() {
    assert_eq!(
        patch_bootloader(bootloader(), Chip::Esp32, None, Some(FlashSize::_256Mb), None),
        Err(Error::UnsupportedFlash(0x22))
    );
    assert_eq!(
        patch_bootloader(bootloader(), Chip::Esp32, None, None, Some(FlashFrequency::_12Mhz)),
        Err(Error::UnsupportedFlashFrequency)
    );
}

#[test]
fn build_produces_walkable_image() {
    let f = build(0x100000).unwrap();
    let segs = f.ota_segments();
    assert_eq!(segs.len(), 1);
    assert_eq!(segs[0].addr, 0x10000);
    let img = &segs[0].data;
    assert_eq!(f.app_size() as usize, img.len());
    assert_eq!(f.part_size(), Some(0x100000));
    assert_eq!(img[0], 0xE9);
    assert_eq!(read_u32(img, 4), 0x4008_1234);
    assert_eq!(img[8], 0xEE);
    assert_eq!(img[23], 1);
    // walk the segment headers that the count byte announces
    let count = img[1] as usize;
    let mut pos = 24;
    let mut checksum = 0xEFu8;
    for _ in 0..count {
        let len = read_u32(img, pos + 4) as usize;
        assert_eq!(len % 4, 0);
        for b in &img[pos + 8..pos + 8 + len] {
            checksum ^= *b;
        }
        pos += 8 + len;
    }
    let body_len = img.len() - 32;
    assert_eq!(body_len % 16, 0);
    assert!(pos < body_len && body_len - pos <= 16);
    assert!(img[pos..body_len - 1].iter().all(|b| *b == 0));
    assert_eq!(img[body_len - 1], checksum);
    // the RAM bytes come in even runs and cancel out; seven nines leave one
    let expected_sum = 0xEFu8 ^ 1 ^ 2 ^ 3 ^ 4 ^ 5 ^ 9;
    assert_eq!(checksum, expected_sum);
}

#[test]
fn build_aligns_flash_segments() {
    let f = build(0x100000).unwrap();
    let img = f.ota_segments().remove(0).data;
    let count = img[1] as usize;
    let mut pos = 24;
    let mut found = 0;
    for _ in 0..count {
        let addr = read_u32(&img, pos);
        let len = read_u32(&img, pos + 4) as usize;
        if addr == 0x3f40_0020 || addr == 0x400d_0020 {
            assert_eq!((pos + 8) as u32 % 0x10000, addr % 0x10000);
            found += 1;
        }
        pos += 8 + len;
    }
    assert_eq!(found, 2);
}

#[test]
fn build_is_reproducible() {
    let a = build(0x100000).unwrap().ota_segments().remove(0).data;
    let b = build(0x100000).unwrap().ota_segments().remove(0).data;
    assert_eq!(a, b);
}

#[test]
fn build_fits_partition_exactly() {
    let size = build(0x100000).unwrap().app_size();
    assert!(build(size).is_ok());
    match build(size - 1) {
        Err(Error::ElfTooBig(app, part)) => {
            assert_eq!(app, size);
            assert_eq!(part, size - 1);
        }
        _ => panic!("expected the image to be too large"),
    }
}

#[test]
fn build_full_flash_sequence() {
    let f = build(0x100000).unwrap();
    let segs = f.flash_segments().unwrap();
    assert_eq!(segs.len(), 3);
    assert_eq!(segs[0].addr, 0x1000);
    assert_eq!(segs[0].data, bootloader());
    assert_eq!(segs[1].addr, 0x8000);
    assert_eq!(segs[1].data, table(0x100000).to_bin().unwrap());
    assert_eq!(segs[2].addr, 0x10000);
    assert_eq!(segs[2].data, f.ota_segments().remove(0).data);
}

#[test]
fn build_without_app_partition() {
    let t = PartitionTable::new(vec![Partition::new(
        "nvs",
        Type::Data,
        SubType::Data(DataType::Nvs),
        0x9000,
        0x6000,
        false,
    )]);
    let r = IdfBootloaderFormat::new(0, vec![], vec![], Chip::Esp32, params(), t, None, None, None, None);
    assert!(matches!(r, Err(Error::NoAppPartition)));
}

#[test]
fn build_uses_first_app_without_factory() {
    let t = PartitionTable::new(vec![Partition::new(
        "ota_0",
        Type::App,
        SubType::App(AppType::Ota_0),
        0x20000,
        0x100000,
        false,
    )]);
    let f = IdfBootloaderFormat::new(0, vec![], vec![], Chip::Esp32, params(), t, None, None, None, None)
        .unwrap();
    assert_eq!(f.ota_segments()[0].addr, 0x20000);
}

#[test]
fn build_patches_given_bootloader() {
    let f = IdfBootloaderFormat::new(
        0,
        sample_flash(),
        vec![],
        Chip::Esp32,
        params(),
        table(0x100000),
        Some(bootloader()),
        Some(FlashMode::Qio),
        Some(FlashSize::_4Mb),
        Some(FlashFrequency::_40Mhz),
    )
    .unwrap();
    let segs = f.flash_segments().unwrap();
    assert_eq!(segs[0].data[2], 0);
    assert_eq!(segs[0].data[3], 0x20);
    assert_eq!(segs[2].data[2], 0);
    assert_eq!(segs[2].data[3], 0x20);
}

#[test]
fn build_rejects_bad_bootloader() {
    let r = IdfBootloaderFormat::new(
        0,
        vec![],
        vec![],
        Chip::Esp32,
        params(),
        table(0x100000),
        Some(vec![0; 8]),
        None,
        None,
        None,
    );
    assert!(matches!(r, Err(Error::InvalidBootloader)));
}

#[test]
fn image_ends_with_sha256_of_body() {
    let img = build(0x100000).unwrap().ota_segments().remove(0).data;
    let body_len = img.len() - 32;
    let expected = sha2::Sha256::digest(&img[..body_len]).to_vec();
    assert_eq!(&img[body_len..], expected.as_slice());
}

#[test]
fn factory_preferred_over_earlier_app() {
    let t = PartitionTable::new(vec![
        Partition::new("ota_0", Type::App, SubType::App(AppType::Ota_0), 0x20000, 0x100000, false),
        Partition::new("factory", Type::App, SubType::App(AppType::Factory), 0x120000, 0x100000, false),
    ]);
    let f = IdfBootloaderFormat::new(0, vec![], vec![], Chip::Esp32, params(), t, None, None, None, None)
        .unwrap();
    assert_eq!(f.ota_segments()[0].addr, 0x120000);
}

#[test]
fn save_empty_segment() {
    let mut data = Vec::new();
    let c = save_segment(&mut data, &seg(0x20, &[]), 0x5A);
    assert_eq!(data, vec![0x20, 0, 0, 0, 0, 0, 0, 0]);
    assert_eq!(c, 0x5A);
}

#[test]
fn patch_size_with_low_bits_in_code_keeps_low_nibble() {
    let mut b = bootloader();
    b[3] = 0x0f;
    let p = patch_bootloader(b, Chip::Esp32, None, Some(FlashSize::_32Mb), None).unwrap();
    assert_eq!(p[3], 0x1f);
}

#[test]
fn patch_size_and_frequency_set_each_nibble() {
    let p = patch_bootloader(
        bootloader(),
        Chip::Esp32,
        None,
        Some(FlashSize::_64Mb),
        Some(FlashFrequency::_80Mhz),
    )
    .unwrap();
    assert_eq!(p[3], 0x1f);
}

#[test]
fn flash_segments_repeatable() {
    let f = build(0x100000).unwrap();
    let a = f.flash_segments().unwrap();
    let b = f.flash_segments().unwrap();
    assert_eq!(a.len(), b.len());
    for (x, y) in a.iter().zip(b.iter()) {
        assert_eq!(x.addr, y.addr);
        assert_eq!(x.data, y.data);
    }
}
