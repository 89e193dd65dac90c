//! Record-level tests on a small hand-assembled cache: nested records,
//! chain order, null sentinels, malformed entries and cyclic chains.

use icon_cache::raw;
use icon_cache::IconCache;

fn put16(buf: &mut [u8], off: usize, v: u16) {
    buf[off..off + 2].copy_from_slice(&v.to_be_bytes());
}

fn put32(buf: &mut [u8], off: usize, v: u32) {
    buf[off..off + 4].copy_from_slice(&v.to_be_bytes());
}

const DIR_TABLE: usize = 20;
const STR_A: usize = 32;
const STR_BB: usize = 34;
const NAME_ONE: usize = 37;
const NAME_TWO: usize = 41;
const RECT: usize = 45;
const ATTACH: usize = 53;
const DISPLAY: usize = 65;
const STR_EN: usize = 77;
const STR_DISPLAY_ONE: usize = 80;
const META: usize = 84;
const IMAGE_DATA: usize = 96;
const IL_ONE: usize = 112;
const IL_TWO: usize = 124;
const REC_ONE: usize = 136;
const REC_TWO: usize = 148;
const REC_NONAME: usize = 160;
const TOTAL: usize = 172;

/// One bucket, three chained icons ("one", "two", and one whose name
/// offset resolves nowhere), two directories, and a full nested record
/// graph behind the first icon's image.
fn tiny_cache() -> Vec<u8> {
    let mut b = vec![0u8; TOTAL];
    put16(&mut b, 0, 1);
    put16(&mut b, 2, 0);
    put32(&mut b, 4, 12);
    put32(&mut b, 8, DIR_TABLE as u32);
    // Hash table: one bucket, chain head at REC_ONE.
    put32(&mut b, 12, 1);
    put32(&mut b, 16, REC_ONE as u32);
    // Directory table: "a", "bb".
    put32(&mut b, DIR_TABLE, 2);
    put32(&mut b, DIR_TABLE + 4, STR_A as u32);
    put32(&mut b, DIR_TABLE + 8, STR_BB as u32);
    b[STR_A..STR_A + 2].copy_from_slice(b"a\0");
    b[STR_BB..STR_BB + 3].copy_from_slice(b"bb\0");
    b[NAME_ONE..NAME_ONE + 4].copy_from_slice(b"one\0");
    b[NAME_TWO..NAME_TWO + 4].copy_from_slice(b"two\0");
    // Embedded rectangle.
    put16(&mut b, RECT, 1);
    put16(&mut b, RECT + 2, 2);
    put16(&mut b, RECT + 4, 3);
    put16(&mut b, RECT + 6, 4);
    // Attach points: (10, 20), (30, 40).
    put32(&mut b, ATTACH, 2);
    put16(&mut b, ATTACH + 4, 10);
    put16(&mut b, ATTACH + 6, 20);
    put16(&mut b, ATTACH + 8, 30);
    put16(&mut b, ATTACH + 10, 40);
    // Display names: one entry, language "en", name "One".
    put32(&mut b, DISPLAY, 1);
    put32(&mut b, DISPLAY + 4, STR_EN as u32);
    put32(&mut b, DISPLAY + 8, STR_DISPLAY_ONE as u32);
    b[STR_EN..STR_EN + 3].copy_from_slice(b"en\0");
    b[STR_DISPLAY_ONE..STR_DISPLAY_ONE + 4].copy_from_slice(b"One\0");
    // Metadata pointing at all three nested records.
    put32(&mut b, META, RECT as u32);
    put32(&mut b, META + 4, ATTACH as u32);
    put32(&mut b, META + 8, DISPLAY as u32);
    // Image data: opaque pixel offsets plus the metadata block.
    put32(&mut b, IMAGE_DATA, 500);
    put32(&mut b, IMAGE_DATA + 4, META as u32);
    put32(&mut b, IMAGE_DATA + 8, 501);
    put32(&mut b, IMAGE_DATA + 12, 502);
    // Image lists.
    put32(&mut b, IL_ONE, 1);
    put16(&mut b, IL_ONE + 4, 0);
    put16(&mut b, IL_ONE + 6, 1);
    put32(&mut b, IL_ONE + 8, IMAGE_DATA as u32);
    put32(&mut b, IL_TWO, 1);
    put16(&mut b, IL_TWO + 4, 1);
    put16(&mut b, IL_TWO + 6, 12);
    put32(&mut b, IL_TWO + 8, 0);
    // Icon records: one -> two -> noname -> end.
    put32(&mut b, REC_ONE, REC_TWO as u32);
    put32(&mut b, REC_ONE + 4, NAME_ONE as u32);
    put32(&mut b, REC_ONE + 8, IL_ONE as u32);
    put32(&mut b, REC_TWO, REC_NONAME as u32);
    put32(&mut b, REC_TWO + 4, NAME_TWO as u32);
    put32(&mut b, REC_TWO + 8, IL_TWO as u32);
    put32(&mut b, REC_NONAME, 0xFFFF_FFFF);
    put32(&mut b, REC_NONAME + 4, 9999);
    put32(&mut b, REC_NONAME + 8, IL_ONE as u32);
    b
}

#[test]
fn image_size_correct() {
    assert_eq!(std::mem::size_of::<raw::Image>(), 8);
}

#[test]
fn header_reads_back_exactly() {
    let bytes = tiny_cache();
    let header = raw::Header::read_from(&bytes).unwrap();
    assert_eq!(header.major_version, 1);
    assert_eq!(header.minor_version, 0);
    assert_eq!(header.hash.offset, 12);
    assert_eq!(header.directory_list.offset, DIR_TABLE as u32);
    assert!(raw::Header::read_from(&bytes[..11]).is_none());
}

#[test]
fn offset_null_sentinels() {
    assert!(raw::Offset::new(0).is_null());
    assert!(raw::Offset::new(0xFFFF_FFFF).is_null());
    assert!(!raw::Offset::new(1).is_null());
    assert!(!raw::Offset::new(0xFFFF_FFFE).is_null());
}

#[test]
fn str_at_requires_a_terminator() {
    let bytes = b"ab\0cd".to_vec();
    assert_eq!(raw::Offset::new(0).str_at(&bytes).unwrap(), b"ab".to_vec());
    assert_eq!(raw::Offset::new(2).str_at(&bytes).unwrap(), b"".to_vec());
    // No nul before the end of the buffer, or out of range entirely.
    assert!(raw::Offset::new(3).str_at(&bytes).is_none());
    assert!(raw::Offset::new(5).str_at(&bytes).is_none());
    assert!(raw::Offset::new(0xFFFF_FFFF).str_at(&bytes).is_none());
}

#[test]
fn chain_is_walked_in_order_and_bad_names_are_skipped() {
    let bytes = tiny_cache();
    let cache = IconCache::new_from_bytes(&bytes).unwrap();
    let icons = cache.iter();
    let names: Vec<Vec<u8>> = icons.iter().map(|i| i.name.clone()).collect();
    assert_eq!(names, vec![b"one".to_vec(), b"two".to_vec()]);
}

#[test]
fn nested_records_compose() {
    let bytes = tiny_cache();
    let cache = IconCache::new_from_bytes(&bytes).unwrap();
    let icon = cache.icon(b"one").unwrap();
    assert_eq!(icon.image_list.unwrap().len(), 1);
    let image = icon.image_list.unwrap().image(0).unwrap();
    assert_eq!(image.directory, b"a".to_vec());
    assert!(image.icon_flags.has_suffix_xpm());
    assert!(!image.icon_flags.has_suffix_svg());
    let data = image.image_data.unwrap();
    assert_eq!(data.image_pixel_data.offset, 500);
    assert_eq!(data.image_pixel_data_type.offset, 501);
    assert_eq!(data.image_pixel_data_length.offset, 502);
    let meta = data.image_meta_data.unwrap();

    let rect = meta.embedded_rect.embedded_rect_at(&bytes).unwrap();
    assert_eq!((rect.x0, rect.y0, rect.x1, rect.y1), (1, 2, 3, 4));

    let attach = raw::AttachPointList::read_at(&bytes, meta.attach_point_list).unwrap();
    assert_eq!(attach.n_attach_points, 2);
    let p0 = attach.attach_point(&bytes, 0).unwrap();
    let p1 = attach.attach_point(&bytes, 1).unwrap();
    assert_eq!((p0.x, p0.y), (10, 20));
    assert_eq!((p1.x, p1.y), (30, 40));
    assert!(attach.attach_point(&bytes, 2).is_none());

    let display = raw::DisplayNameList::read_at(&bytes, meta.display_name_list).unwrap();
    assert_eq!(display.n_display_names, 1);
    let d = display.display_name(&bytes, 0).unwrap();
    assert_eq!(d.display_lang.str_at(&bytes).unwrap(), b"en".to_vec());
    assert_eq!(d.display_name.str_at(&bytes).unwrap(), b"One".to_vec());
    assert!(display.display_name(&bytes, 1).is_none());
}

#[test]
fn flags_report_their_bits() {
    let bytes = tiny_cache();
    let cache = IconCache::new_from_bytes(&bytes).unwrap();
    let icon = cache.icon(b"two").unwrap();
    let image = icon.image_list.unwrap().image(0).unwrap();
    assert_eq!(image.directory, b"bb".to_vec());
    assert_eq!(image.icon_flags.bits(), raw::Flags::HAS_SUFFIX_PNG | raw::Flags::HAS_ICON_FILE);
    assert!(image.icon_flags.has_suffix_png());
    assert!(!image.icon_flags.has_suffix_xpm());
    assert!(!image.icon_flags.has_suffix_svg());
    assert!(image.image_data.is_none());
}

#[test]
fn image_index_out_of_range_is_none() {
    let bytes = tiny_cache();
    let cache = IconCache::new_from_bytes(&bytes).unwrap();
    let icon = cache.icon(b"one").unwrap();
    assert!(icon.image_list.unwrap().image(1).is_none());
    assert!(icon.image_list.unwrap().image(u32::MAX).is_none());
    assert!(!icon.image_list.unwrap().is_empty());
}

#[test]
fn either_null_chain_link_ends_the_walk() {
    for sentinel in [0u32, 0xFFFF_FFFF] {
        let mut bytes = tiny_cache();
        put32(&mut bytes, REC_ONE, sentinel);
        let cache = IconCache::new_from_bytes(&bytes).unwrap();
        let names: Vec<Vec<u8>> = cache.iter().into_iter().map(|i| i.name).collect();
        assert_eq!(names, vec![b"one".to_vec()]);
        assert!(cache.icon(b"two").is_none());
    }
}

#[test]
fn either_null_bucket_slot_means_empty() {
    for sentinel in [0u32, 0xFFFF_FFFF] {
        let mut bytes = tiny_cache();
        put32(&mut bytes, 16, sentinel);
        let cache = IconCache::new_from_bytes(&bytes).unwrap();
        assert!(cache.icon_chain(0).is_none());
        assert!(cache.icon(b"one").is_none());
        assert_eq!(cache.iter().len(), 0);
    }
}

#[test]
fn cyclic_chains_terminate_as_not_found() {
    let mut bytes = tiny_cache();
    // Point the last record back at the first: the chain now cycles.
    put32(&mut bytes, REC_NONAME, REC_ONE as u32);
    let cache = IconCache::new_from_bytes(&bytes).unwrap();
    assert!(cache.icon(b"absent").is_none());
    assert_eq!(cache.icon(b"one").unwrap().name, b"one".to_vec());
    // Iteration is cut off by the hop budget rather than hanging.
    let icons = cache.iter();
    assert!(icons.len() <= bytes.len());
}

#[test]
fn first_matching_name_wins() {
    let mut bytes = tiny_cache();
    // Rename "two" to "one": the chain now has two icons named "one"
    // with different image lists; the earlier one must be returned.
    bytes[NAME_TWO..NAME_TWO + 4].copy_from_slice(b"one\0");
    let cache = IconCache::new_from_bytes(&bytes).unwrap();
    let icon = cache.icon(b"one").unwrap();
    let image = icon.image_list.unwrap().image(0).unwrap();
    assert_eq!(image.directory, b"a".to_vec());
    // Both duplicates are still reachable through iteration.
    let names: Vec<Vec<u8>> = cache.iter().into_iter().map(|i| i.name).collect();
    assert_eq!(names, vec![b"one".to_vec(), b"one".to_vec()]);
}

#[test]
fn out_of_range_directory_index_is_omitted() {
    let mut bytes = tiny_cache();
    // Directory index 7 of 2: the image must be omitted, not a panic.
    put16(&mut bytes, IL_ONE + 4, 7);
    let cache = IconCache::new_from_bytes(&bytes).unwrap();
    let icon = cache.icon(b"one").unwrap();
    assert!(icon.image_list.unwrap().image(0).is_none());
    assert_eq!(icon.image_list.unwrap().iter().len(), 0);
}

#[test]
fn malformed_image_data_is_omitted() {
    let mut bytes = tiny_cache();
    // Point the image's data offset past the end of the buffer: the
    // image keeps its directory and flags, the data is omitted.
    let past_end = bytes.len() as u32 - 2;
    put32(&mut bytes, IL_ONE + 8, past_end);
    let cache = IconCache::new_from_bytes(&bytes).unwrap();
    let image = cache.icon(b"one").unwrap().image_list.unwrap().image(0).unwrap();
    assert_eq!(image.directory, b"a".to_vec());
    assert!(image.image_data.is_none());
}

#[test]
fn null_metadata_offset_is_omitted() {
    for sentinel in [0u32, 0xFFFF_FFFF] {
        let mut bytes = tiny_cache();
        put32(&mut bytes, IMAGE_DATA + 4, sentinel);
        let cache = IconCache::new_from_bytes(&bytes).unwrap();
        let image = cache.icon(b"one").unwrap().image_list.unwrap().image(0).unwrap();
        let data = image.image_data.unwrap();
        assert!(data.image_meta_data.is_none());
    }
}

#[test]
fn unfit_image_list_is_absent_not_fatal() {
    let mut bytes = tiny_cache();
    // Declare far more images than the buffer can hold: the list no
    // longer validates, but the icon is still found and named.
    put32(&mut bytes, IL_ONE, 0x00FF_FFFF);
    let cache = IconCache::new_from_bytes(&bytes).unwrap();
    let icon = cache.icon(b"one").unwrap();
    assert_eq!(icon.name, b"one".to_vec());
    assert!(icon.image_list.is_none());
    // Iteration still yields the icon too, keeping lookup and iteration
    // in agreement.
    let names: Vec<Vec<u8>> = cache.iter().into_iter().map(|i| i.name).collect();
    assert_eq!(names, vec![b"one".to_vec(), b"two".to_vec()]);
}

#[test]
fn invalid_utf8_path_is_a_decode_failure() {
    let mut bytes = tiny_cache();
    // Replace the first directory's path "a" with the byte 0xFF, which no
    // UTF-8 string contains.
    bytes[STR_A] = 0xFF;
    let cache = IconCache::new_from_bytes(&bytes).unwrap();
    assert!(cache.directory_list.dir(0).is_none());
    assert_eq!(cache.directory_list.dir(1).unwrap(), b"bb".to_vec());
    assert_eq!(cache.directory_list.iter(), vec![b"bb".to_vec()]);
    // The image pointing at that directory is omitted as well.
    let icon = cache.icon(b"one").unwrap();
    assert!(icon.image_list.unwrap().image(0).is_none());
}

#[test]
fn multibyte_utf8_paths_resolve() {
    let mut bytes = tiny_cache();
    // Replace "bb" with a two-byte UTF-8 sequence of the same length.
    bytes[STR_BB..STR_BB + 2].copy_from_slice("é".as_bytes());
    let cache = IconCache::new_from_bytes(&bytes).unwrap();
    assert_eq!(cache.directory_list.dir(1).unwrap(), "é".as_bytes().to_vec());
    // Truncating the sequence to its leading byte makes it invalid.
    bytes[STR_BB + 1] = 0;
    let cache = IconCache::new_from_bytes(&bytes).unwrap();
    assert!(cache.directory_list.dir(1).is_none());
}

#[test]
fn utf8_check_matches_the_standard_library() {
    let cases: Vec<Vec<u8>> = vec![
        b"".to_vec(),
        b"plain ascii".to_vec(),
        "é £ € 𝄞 한국".as_bytes().to_vec(),
        vec![0xFF],
        vec![0x80],             // lone continuation byte
        vec![0xC0, 0xAF],       // overlong two-byte form
        vec![0xC2],             // truncated sequence
        vec![0xE0, 0x80, 0x80], // overlong three-byte form
        vec![0xED, 0xA0, 0x80], // surrogate
        vec![0xF4, 0x90, 0x80, 0x80], // past U+10FFFF
        vec![0xF0, 0x9F, 0x92, 0x96], // a four-byte scalar
        vec![0xF0, 0x9F, 0x92],       // the same, truncated
    ];
    for case in cases {
        assert_eq!(
            raw::is_utf8(&case),
            std::str::from_utf8(&case).is_ok(),
            "disagreement on {:?}",
            case
        );
    }
}

#[test]
fn image_data_offset_treats_both_sentinels_as_null() {
    for sentinel in [0u32, 0xFFFF_FFFF] {
        let mut bytes = tiny_cache();
        put32(&mut bytes, IL_ONE + 8, sentinel);
        let cache = IconCache::new_from_bytes(&bytes).unwrap();
        let image = cache.icon(b"one").unwrap().image_list.unwrap().image(0).unwrap();
        assert!(image.image_data.is_none());
    }
}
