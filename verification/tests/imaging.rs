use filework::imaging::write::{check_chunk, copy_step, first_difference, next_chunk_len, same_prefix, sector_chunk};
use std::io::Read;

use filework::error::ErrorCode;
use filework::imaging::{copy, declared_from, pad_to_sector, verify, Crc32, Layout, Silent, Stage, Watcher, CHUNK};
use filework::jobs::{CancellationToken, Progress};

fn nothing(_: Progress) {}

fn image(bytes: usize) -> Vec<u8> {
    (0..bytes).map(|i| u8::try_from(i % 251).unwrap_or(0)).collect()
}

#[test]
fn it_is_the_crc32_everyone_elses_tool_prints() {
    assert_eq!(Crc32::of(b"123456789"), 0xCBF4_3926);
}

#[test]
fn the_empty_input_is_zero() {
    assert_eq!(Crc32::of(b""), 0);
}

#[test]
fn feeding_it_in_pieces_gives_the_same_answer_as_all_at_once() {
    let data: Vec<u8> = (0..10_000).map(|i| (i % 251) as u8).collect();
    let whole = Crc32::of(&data);
    let mut piecewise = Crc32::new();
    for chunk in data.chunks(97) {
        piecewise.update(chunk);
    }
    assert_eq!(piecewise.finish(), whole);
}

#[test]
fn one_flipped_bit_changes_it() {
    let mut data = vec![7_u8; 4_096];
    let before = Crc32::of(&data);
    data[2_000] ^= 1;
    assert_ne!(Crc32::of(&data), before);
}

#[test]
fn finishing_does_not_stop_further_updates() {
    let mut crc = Crc32::new();
    crc.update(b"1234");
    let _ = crc.finish();
    crc.update(b"56789");
    assert_eq!(crc.finish(), 0xCBF4_3926);
}

#[test]
fn every_byte_arrives_and_the_checksum_covers_them() {
    let source = image(3_000);
    let mut sink = Vec::new();
    let crc = copy(&mut source.as_slice(), &mut sink, 3_000, false, &mut nothing, &CancellationToken::never())
        .unwrap();
    assert_eq!(sink, source);
    assert_eq!(crc, Crc32::of(&source));
}

#[test]
fn a_write_to_a_raw_device_is_padded_up_to_a_sector() {
    let source = image(3_000);
    let mut sink = Vec::new();
    copy(&mut source.as_slice(), &mut sink, 3_000, true, &mut nothing, &CancellationToken::never())
        .unwrap();
    assert_eq!(sink.len(), 3_072, "not rounded up to a whole sector");
    assert_eq!(&sink[..3_000], &source[..], "the image itself changed");
    assert!(sink[3_000..].iter().all(|b| *b == 0), "the padding is not zeros");
}

#[test]
fn an_image_that_is_already_a_whole_number_of_sectors_gains_nothing() {
    let source = image(4_096);
    let mut sink = Vec::new();
    copy(&mut source.as_slice(), &mut sink, 4_096, true, &mut nothing, &CancellationToken::never())
        .unwrap();
    assert_eq!(sink.len(), 4_096);
}

#[test]
fn an_image_larger_than_one_chunk_is_copied_across_several() {
    let source = image(CHUNK + 1_000);
    let mut sink = Vec::new();
    copy(
        &mut source.as_slice(),
        &mut sink,
        (CHUNK + 1_000) as u64,
        false,
        &mut nothing,
        &CancellationToken::never(),
    )
    .unwrap();
    assert_eq!(sink, source);
}

#[test]
fn progress_never_goes_backwards_and_ends_exactly_at_the_total() {
    let source = image(CHUNK * 2 + 7);
    let total = source.len() as u64;
    let mut seen = Vec::new();
    let mut sink = Vec::new();
    copy(
        &mut source.as_slice(),
        &mut sink,
        total,
        false,
        &mut |p: Progress| seen.push(p.completed()),
        &CancellationToken::never(),
    )
    .unwrap();
    assert!(seen.windows(2).all(|w| w[1] >= w[0]), "{seen:?}");
    assert_eq!(*seen.last().unwrap(), total);
    assert!(seen.iter().all(|c| *c <= total), "progress exceeded total");
}

#[test]
fn a_cancelled_write_stops_and_says_so() {
    let source = image(CHUNK * 4);
    let mut sink = Vec::new();
    let err = copy(
        &mut source.as_slice(),
        &mut sink,
        (CHUNK * 4) as u64,
        false,
        &mut nothing,
        &CancellationToken::cancelled(),
    )
    .unwrap_err();
    assert_eq!(err.code(), ErrorCode::Cancelled);
    assert!(sink.is_empty(), "wrote something after being cancelled");
}

#[test]
fn an_image_shorter_than_it_claims_is_refused_rather_than_half_written() {
    let source = image(100);
    let mut sink = Vec::new();
    let err = copy(&mut source.as_slice(), &mut sink, 5_000, false, &mut nothing, &CancellationToken::never())
        .unwrap_err();
    assert_eq!(err.code(), ErrorCode::ParseFailed);
}

#[test]
fn verification_passes_when_the_disk_reads_back_the_same() {
    let source = image(10_000);
    let disk = source.clone();
    let checked = verify(
        &mut source.as_slice(),
        &mut disk.as_slice(),
        10_000,
        false,
        &mut nothing,
        &CancellationToken::never(),
    )
    .unwrap();
    assert_eq!(checked, 10_000);
}

#[test]
fn verification_names_the_byte_where_a_failing_disk_diverges() {
    let source = image(10_000);
    let mut disk = source.clone();
    disk[7_777] ^= 0xFF;
    let err = verify(
        &mut source.as_slice(),
        &mut disk.as_slice(),
        10_000,
        false,
        &mut nothing,
        &CancellationToken::never(),
    )
    .unwrap_err();
    assert!(err.context().contains("7777"), "{err:?}");
}

#[test]
fn verification_catches_a_stick_that_wraps_around() {
    let source = image(CHUNK * 2);
    let mut disk = source.clone();
    let real = CHUNK;
    disk.truncate(real);
    disk.extend_from_within(..real);
    let err = verify(
        &mut source.as_slice(),
        &mut disk.as_slice(),
        (CHUNK * 2) as u64,
        false,
        &mut nothing,
        &CancellationToken::never(),
    )
    .unwrap_err();
    assert_eq!(err.code(), ErrorCode::ParseFailed);
}

#[test]
fn verification_reads_only_the_image_not_the_padding() {
    let source = image(3_000);
    let mut disk = source.clone();
    disk.extend_from_slice(&[0xAB; 72]);
    assert!(verify(
        &mut source.as_slice(),
        &mut disk.as_slice(),
        3_000,
        false,
        &mut nothing,
        &CancellationToken::never(),
    )
    .is_ok());
}

#[test]
fn padding_rounds_up_and_leaves_exact_multiples_alone() {
    assert_eq!(pad_to_sector(0), 0);
    assert_eq!(pad_to_sector(1), 512);
    assert_eq!(pad_to_sector(512), 512);
    assert_eq!(pad_to_sector(513), 1_024);
}

#[test]
fn padding_saturates_at_the_top_of_the_range() {
    assert_eq!(pad_to_sector(u64::MAX), u64::MAX / 512 * 512);
}

struct SectorsOnly<'a>(&'a [u8]);

impl Read for SectorsOnly<'_> {
    fn read(&mut self, buf: &mut [u8]) -> std::io::Result<usize> {
        if buf.len() % 512 != 0 {
            return Err(std::io::Error::new(std::io::ErrorKind::InvalidInput, "not a sector"));
        }
        self.0.read(buf)
    }
}

#[test]
fn verifying_a_raw_disk_reads_whole_sectors_and_ignores_the_padding() {
    let image: Vec<u8> = (0..3_000_u32).map(|i| (i % 251) as u8).collect();
    let mut disk = Vec::new();
    let mut nothing = |_| {};
    copy(&mut image.as_slice(), &mut disk, 3_000, true, &mut nothing, &CancellationToken::never())
        .unwrap();
    assert_eq!(disk.len(), 3_072, "padded to six sectors");

    let checked = verify(
        &mut image.as_slice(),
        &mut SectorsOnly(&disk),
        3_000,
        true,
        &mut nothing,
        &CancellationToken::never(),
    )
    .unwrap();
    assert_eq!(checked, 3_000);
}

#[test]
fn a_cancelled_verification_says_so() {
    let source = image(1_000);
    let err = verify(
        &mut source.as_slice(),
        &mut source.as_slice(),
        1_000,
        false,
        &mut nothing,
        &CancellationToken::cancelled(),
    )
    .unwrap_err();
    assert_eq!(err.code(), ErrorCode::Cancelled);
}

#[test]
fn every_stage_has_a_name_to_show() {
    for stage in [Stage::Unmounting, Stage::Writing, Stage::Flushing, Stage::Verifying] {
        assert!(stage.label_key().starts_with("imaging.stage."));
    }
}

#[test]
fn a_silent_watcher_accepts_everything() {
    let mut watcher = Silent;
    watcher.stage(Stage::Writing);
    watcher.progress(Progress::with_total(3));
}

#[test]
fn a_gpt_says_how_long_its_disk_is() {
    let mut bytes = vec![0_u8; 4096];
    bytes[510] = 0x55;
    bytes[511] = 0xAA;
    bytes[446 + 4] = 0xEE;
    bytes[512..520].copy_from_slice(b"EFI PART");
    bytes[512 + 32..512 + 40].copy_from_slice(&15_859_711_u64.to_le_bytes());
    let declared = declared_from(&bytes[..1024], &[]).expect("a GPT");
    assert_eq!(declared.by, Layout::Gpt);
    assert_eq!(declared.needs, 8_120_172_544);
}

#[test]
fn an_mbr_says_where_its_last_partition_ends() {
    let mut bytes = vec![0_u8; 1024];
    bytes[510] = 0x55;
    bytes[511] = 0xAA;
    for (slot, start, count) in [(0_usize, 2048_u32, 1000_u32), (1, 4096, 2048)] {
        let entry = 446 + slot * 16;
        bytes[entry + 4] = 0x83;
        bytes[entry + 8..entry + 12].copy_from_slice(&start.to_le_bytes());
        bytes[entry + 12..entry + 16].copy_from_slice(&count.to_le_bytes());
    }
    let declared = declared_from(&bytes, &[]).expect("an MBR");
    assert_eq!(declared.by, Layout::Mbr);
    assert_eq!(declared.needs, (4096 + 2048) * 512);
}

#[test]
fn boot_code_is_not_mistaken_for_a_partition_table() {
    let mut bytes: Vec<u8> = (0..1024_u32).map(|i| (i * 37 % 253) as u8).collect();
    bytes[446] = 0x33;
    bytes[510] = 0x55;
    bytes[511] = 0xAA;
    assert_eq!(declared_from(&bytes, &[]), None);
}

#[test]
fn an_iso_says_how_many_blocks_it_has() {
    let mut descriptor = vec![0_u8; 2048];
    descriptor[0] = 1;
    descriptor[1..6].copy_from_slice(b"CD001");
    descriptor[80..84].copy_from_slice(&300_000_u32.to_le_bytes());
    descriptor[128..130].copy_from_slice(&2048_u16.to_le_bytes());
    let declared = declared_from(&[0_u8; 1024], &descriptor).expect("an ISO");
    assert_eq!(declared.by, Layout::Iso9660);
    assert_eq!(declared.needs, 300_000 * 2048);
    assert_eq!(declared_from(&[0_u8; 1024], &descriptor[..2047]), None, "a short sector is not a descriptor");
}

#[test]
fn a_file_with_no_map_says_nothing() {
    assert_eq!(declared_from(b"just some bytes", &[]), None);
}

#[test]
fn a_gpt_backup_header_at_the_top_of_the_range_saturates() {
    let mut bytes = vec![0_u8; 1024];
    bytes[512..520].copy_from_slice(b"EFI PART");
    bytes[512 + 32..512 + 40].copy_from_slice(&u64::MAX.to_le_bytes());
    assert_eq!(declared_from(&bytes, &[]).unwrap().needs, u64::MAX);
}

#[test]
fn a_chunk_for_a_raw_device_is_padded_with_zeros_to_a_sector() {
    let chunk: Vec<u8> = (0..700u32).map(|i| (i % 251) as u8).collect();
    let padded = sector_chunk(chunk.clone(), true);
    assert_eq!(padded.len(), 1024);
    assert_eq!(&padded[..700], &chunk[..]);
    assert!(padded[700..].iter().all(|b| *b == 0));
    assert_eq!(sector_chunk(chunk.clone(), false), chunk);
    assert_eq!(sector_chunk(vec![1; 512], true), vec![1; 512]);
    assert!(sector_chunk(Vec::new(), true).is_empty());
}

#[test]
fn read_back_bytes_are_compared_only_as_far_as_the_image_goes() {
    assert!(same_prefix(b"abc", b"abcdef"));
    assert!(!same_prefix(b"abd", b"abcdef"));
    assert!(same_prefix(b"", b"x"));
    assert_eq!(first_difference(b"abcd", b"abXd"), 2);
    assert_eq!(first_difference(b"abcd", b"abcd"), 0);
}

#[test]
fn each_chunk_is_checked_and_a_mismatch_names_the_image_byte() {
    assert!(check_chunk(4096, b"abcd", b"abcdXYZ").is_ok());
    let e = check_chunk(4096, b"abcd", b"abXd").unwrap_err();
    assert_eq!(e.code(), ErrorCode::ParseFailed);
    assert_eq!(e.context(), "the disk reads back differently from byte 4098");
}

#[test]
fn a_copy_step_folds_the_chunk_and_pads_what_it_writes() {
    let data: Vec<u8> = (0..600u32).map(|i| (i % 7) as u8).collect();
    let mut crc = Crc32::new();
    let out = copy_step(&mut crc, data.clone(), true);
    assert_eq!(out.len(), 1024);
    assert_eq!(crc.finish(), Crc32::of(&data));
    assert_eq!(next_chunk_len(0, 10), 10);
    assert_eq!(next_chunk_len(0, (CHUNK as u64) * 3), CHUNK);
    assert_eq!(next_chunk_len(5, 6), 1);
}
