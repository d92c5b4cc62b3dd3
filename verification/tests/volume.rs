use iso9660fs::directory::DirEntry;
use iso9660fs::error::IsoError;
use iso9660fs::volume::{check_signature, find_in, IsoFs};

/// A directory record for `name`, padded to an even length.
fn record(name: &[u8], lba: u32, size: u32, is_dir: bool) -> Vec<u8> {
    let mut len = 33 + name.len();
    if len % 2 == 1 {
        len += 1;
    }
    let mut bytes = vec![0u8; len];
    bytes[0] = len as u8;
    bytes[2..6].copy_from_slice(&lba.to_le_bytes());
    bytes[10..14].copy_from_slice(&size.to_le_bytes());
    bytes[25] = if is_dir { 2 } else { 0 };
    bytes[32] = name.len() as u8;
    bytes[33..33 + name.len()].copy_from_slice(name);
    bytes
}

fn entry(name: &str, lba: u32, size: u32, is_dir: bool) -> DirEntry {
    DirEntry { name: name.to_string(), lba, size, is_dir }
}

fn put(image: &mut Vec<u8>, offset: usize, bytes: &[u8]) {
    if image.len() < offset + bytes.len() {
        image.resize(offset + bytes.len(), 0);
    }
    image[offset..offset + bytes.len()].copy_from_slice(bytes);
}

/// Writes a descriptor block at `offset`: the signature and the root
/// directory's record.
fn put_descriptor(image: &mut Vec<u8>, offset: usize, root_lba: u32, root_size: u32) {
    put(image, offset, &[1]);
    put(image, offset + 1, b"CD001");
    put(image, offset + 156, &record(&[0], root_lba, root_size, true));
}

fn put_block_size(image: &mut Vec<u8>, block_size: u16) {
    put(image, 32768 + 128, &block_size.to_le_bytes());
}

/// The bytes of the licence file: 1071 of them, none of them zero.
fn licence() -> Vec<u8> {
    (0..1071).map(|i| (i % 200) as u8 + 1).collect()
}

/// An image with 2048-byte blocks:
///
/// ```text
/// /GPL_3_0.TXT          block 20, 1071 bytes
/// /DOCS/                block 19
/// /DOCS/README.TXT      block 21, 5 bytes
/// /DOCS/DEEP/           block 22 and 23, the second entry in block 23
/// /DOCS/DEEP/A.TXT      block 24, 2048 bytes
/// /DOCS/DEEP/B.TXT      block 25, 0 bytes
/// /EMPTY.TXT            block 0, 0 bytes
/// ```
fn sample_image() -> Vec<u8> {
    let mut image = vec![0u8; 26 * 2048];
    put_block_size(&mut image, 2048);
    put_descriptor(&mut image, 16 * 2048, 18, 2048);

    let mut root = record(&[0], 18, 2048, true);
    root.extend(record(&[1], 18, 2048, true));
    root.extend(record(b"GPL_3_0.TXT;1", 20, 1071, false));
    root.extend(record(b"DOCS", 19, 2048, true));
    root.extend(record(b"EMPTY.TXT;1", 0, 0, false));
    put(&mut image, 18 * 2048, &root);

    let mut docs = record(&[0], 19, 2048, true);
    docs.extend(record(&[1], 18, 2048, true));
    docs.extend(record(b"README.TXT;1", 21, 5, false));
    docs.extend(record(b"DEEP", 22, 4096, true));
    put(&mut image, 19 * 2048, &docs);

    let mut text = licence();
    text.resize(2048, 0xaa);
    put(&mut image, 20 * 2048, &text);

    put(&mut image, 21 * 2048, b"hello");
    put(&mut image, 21 * 2048 + 5, &[0xbb; 100]);

    let mut deep = record(&[0], 22, 4096, true);
    deep.extend(record(&[1], 19, 2048, true));
    deep.extend(record(b"A.TXT;1", 24, 2048, false));
    put(&mut image, 22 * 2048, &deep);
    put(&mut image, 23 * 2048, &record(b"B.TXT;1", 25, 0, false));

    put(&mut image, 24 * 2048, &[0x5a; 2048]);
    image
}

fn sample() -> IsoFs {
    IsoFs::open(sample_image()).unwrap()
}

fn root_entries() -> Vec<DirEntry> {
    vec![
        entry("GPL_3_0.TXT", 20, 1071, false),
        entry("DOCS", 19, 2048, true),
        entry("EMPTY.TXT", 0, 0, false),
    ]
}

#[test]
fn signature_is_cd001_at_offset_one() {
    assert!(check_signature(b"\x01CD001\x01"));
    assert!(check_signature(b"\x00CD001"));
    assert!(!check_signature(b"\x01CD002\x01"));
    assert!(!check_signature(b"\x01cd001\x01"));
    assert!(!check_signature(b"CD001\x01\x00"));
    assert!(!check_signature(b"\x01CD00"));
    assert!(!check_signature(b""));
}

#[test]
fn a_signed_image_opens() {
    assert!(IsoFs::open(sample_image()).is_ok());
}

#[test]
fn a_wrong_signature_fails() {
    for at in 1..6 {
        let mut image = sample_image();
        image[16 * 2048 + at] ^= 0x20;
        assert_eq!(IsoFs::open(image).err(), Some(IsoError::InvalidSignature));
    }
}

#[test]
fn bytes_around_the_signature_do_not_matter() {
    let mut image = sample_image();
    image[16 * 2048] = 0xff;
    image[16 * 2048 + 6] = 0xff;
    assert!(IsoFs::open(image).is_ok());
}

#[test]
fn an_image_that_ends_early_fails_to_open() {
    assert_eq!(IsoFs::open(vec![]).err(), Some(IsoError::Io));
    let mut image = sample_image();
    image.truncate(34815);
    assert_eq!(IsoFs::open(image).err(), Some(IsoError::Io));
}

#[test]
fn a_root_directory_beyond_the_image_fails_to_open() {
    let mut image = sample_image();
    put(&mut image, 16 * 2048 + 156 + 2, &26u32.to_le_bytes());
    assert_eq!(IsoFs::open(image).err(), Some(IsoError::Io));
}

#[test]
fn a_descriptor_block_beyond_the_image_fails_to_open() {
    let mut image = vec![0u8; 17 * 2048];
    put_block_size(&mut image, 4096);
    put_descriptor(&mut image, 16 * 2048, 0, 2048);
    assert_eq!(IsoFs::open(image).err(), Some(IsoError::Io));
}

#[test]
fn a_block_size_too_small_for_the_descriptor_is_an_invalid_volume() {
    for block_size in [0u16, 5, 6, 169] {
        let mut image = vec![0u8; 17 * 2048];
        put_block_size(&mut image, block_size);
        put_descriptor(&mut image, 16 * block_size as usize, 0, 0);
        put_block_size(&mut image, block_size);
        assert_eq!(IsoFs::open(image).err(), Some(IsoError::InvalidVolume));
    }
}

#[test]
fn the_signature_is_judged_before_the_root_record() {
    let mut image = vec![0u8; 17 * 2048];
    put_block_size(&mut image, 100);
    assert_eq!(IsoFs::open(image).err(), Some(IsoError::InvalidSignature));
}

#[test]
fn a_malformed_root_directory_is_an_invalid_volume() {
    let mut image = sample_image();
    image[18 * 2048] = 20;
    assert_eq!(IsoFs::open(image).err(), Some(IsoError::InvalidVolume));
}

#[test]
fn the_descriptor_block_is_logical_block_sixteen() {
    let mut image = vec![0u8; 80 * 512];
    put_block_size(&mut image, 512);
    put_descriptor(&mut image, 16 * 512, 70, 512);
    put(&mut image, 70 * 512, &record(b"SMALL.TXT;1", 71, 3, false));
    put(&mut image, 71 * 512, b"abcdefgh");
    let mut fs = IsoFs::open(image).unwrap();
    assert_eq!(fs.list_dir("/").unwrap(), vec![entry("SMALL.TXT", 71, 3, false)]);
    assert_eq!(fs.read_file("/small.txt").unwrap(), b"abc".to_vec());
}

#[test]
fn a_signature_at_the_fixed_offset_alone_is_not_enough() {
    let mut image = vec![0u8; 80 * 512];
    put_block_size(&mut image, 512);
    put_descriptor(&mut image, 16 * 2048, 70, 512);
    put_block_size(&mut image, 512);
    assert_eq!(IsoFs::open(image).err(), Some(IsoError::InvalidSignature));
}

#[test]
fn only_the_first_block_of_the_root_is_decoded() {
    let mut image = sample_image();
    put(&mut image, 16 * 2048 + 156 + 10, &4096u32.to_le_bytes());
    put(&mut image, 19 * 2048, &record(b"LATE.TXT;1", 21, 5, false));
    let mut fs = IsoFs::open(image).unwrap();
    assert_eq!(fs.list_dir("/").unwrap(), root_entries());
}

#[test]
fn root_listing_is_what_opening_found() {
    assert_eq!(sample().list_dir("/").unwrap(), root_entries());
}

#[test]
fn a_directory_is_listed_in_record_order() {
    assert_eq!(
        sample().list_dir("/DOCS").unwrap(),
        vec![entry("README.TXT", 21, 5, false), entry("DEEP", 22, 4096, true)]
    );
}

#[test]
fn a_directory_of_several_blocks_is_listed_whole() {
    assert_eq!(
        sample().list_dir("/DOCS/DEEP").unwrap(),
        vec![entry("A.TXT", 24, 2048, false), entry("B.TXT", 25, 0, false)]
    );
}

#[test]
fn a_directory_is_cut_to_its_size() {
    let mut image = sample_image();
    put(&mut image, 19 * 2048 + 34 + 34 + 46, &record(b"DEEP", 22, 2048, true));
    let mut fs = IsoFs::open(image).unwrap();
    assert_eq!(fs.list_dir("/DOCS/DEEP").unwrap(), vec![entry("A.TXT", 24, 2048, false)]);
}

#[test]
fn a_path_resolves_to_its_entry() {
    let mut fs = sample();
    assert_eq!(fs.find_entry("/GPL_3_0.TXT").unwrap(), entry("GPL_3_0.TXT", 20, 1071, false));
    assert_eq!(fs.find_entry("/DOCS").unwrap(), entry("DOCS", 19, 2048, true));
    assert_eq!(fs.find_entry("/DOCS/README.TXT").unwrap(), entry("README.TXT", 21, 5, false));
    assert_eq!(fs.find_entry("/DOCS/DEEP/B.TXT").unwrap(), entry("B.TXT", 25, 0, false));
}

#[test]
fn the_leading_slash_is_optional() {
    let mut fs = sample();
    assert_eq!(fs.find_entry("DOCS/README.TXT"), fs.find_entry("/DOCS/README.TXT"));
    assert_eq!(fs.read_file("GPL_3_0.TXT").unwrap(), licence());
}

#[test]
fn lookup_ignores_case() {
    let mut fs = sample();
    let upper = fs.find_entry("/DOCS/README.TXT").unwrap();
    assert_eq!(fs.find_entry("/docs/readme.txt").unwrap(), upper);
    assert_eq!(fs.find_entry("/Docs/ReadMe.Txt").unwrap(), upper);
    assert_eq!(fs.read_file("/docs/readme.txt"), fs.read_file("/DOCS/README.TXT"));
    assert_eq!(fs.read_file("/docs/readme.txt").unwrap(), b"hello".to_vec());
    assert_eq!(fs.list_dir("/docs/deep").unwrap(), fs.list_dir("/DOCS/DEEP").unwrap());
}

#[test]
fn the_first_matching_entry_is_taken() {
    let entries = vec![
        entry("OTHER", 1, 1, false),
        entry("Name", 2, 2, false),
        entry("NAME", 3, 3, true),
    ];
    assert_eq!(find_in(&entries, "NAME"), Some(entry("Name", 2, 2, false)));
    assert_eq!(find_in(&entries, "name"), Some(entry("Name", 2, 2, false)));
    assert_eq!(find_in(&entries, "NAMES"), None);
    assert_eq!(find_in(&[].to_vec(), "NAME"), None);
}

#[test]
fn a_file_is_read_to_its_exact_length() {
    let contents = sample().read_file("/GPL_3_0.TXT").unwrap();
    assert_eq!(contents.len(), 1071);
    assert_eq!(contents, licence());
    assert_eq!(contents, sample_image()[20 * 2048..20 * 2048 + 1071].to_vec());
}

#[test]
fn a_file_in_a_directory_is_read() {
    assert_eq!(sample().read_file("/DOCS/README.TXT").unwrap(), b"hello".to_vec());
}

#[test]
fn a_file_of_a_whole_block_is_read() {
    assert_eq!(sample().read_file("/DOCS/DEEP/A.TXT").unwrap(), vec![0x5a; 2048]);
}

#[test]
fn an_empty_file_is_read_without_its_block() {
    let mut fs = sample();
    assert_eq!(fs.read_file("/EMPTY.TXT").unwrap(), Vec::<u8>::new());
    assert_eq!(fs.read_file("/DOCS/DEEP/B.TXT").unwrap(), Vec::<u8>::new());
}

#[test]
fn a_file_beyond_the_image_fails() {
    let mut image = sample_image();
    put(&mut image, 18 * 2048 + 34 + 34, &record(b"GPL_3_0.TXT;1", 25, 2049, false));
    let mut fs = IsoFs::open(image).unwrap();
    assert_eq!(fs.find_entry("/GPL_3_0.TXT").unwrap(), entry("GPL_3_0.TXT", 25, 2049, false));
    assert_eq!(fs.read_file("/GPL_3_0.TXT"), Err(IsoError::Io));
}

#[test]
fn reading_a_directory_as_a_file_fails() {
    let mut fs = sample();
    assert_eq!(fs.read_file("/DOCS"), Err(IsoError::NotADirectory("/DOCS".to_string())));
    assert_eq!(
        fs.read_file("/docs/deep"),
        Err(IsoError::NotADirectory("/docs/deep".to_string()))
    );
}

#[test]
fn listing_a_file_fails() {
    let mut fs = sample();
    assert_eq!(
        fs.list_dir("/GPL_3_0.TXT"),
        Err(IsoError::NotADirectory("/GPL_3_0.TXT".to_string()))
    );
    assert_eq!(
        fs.list_dir("DOCS/README.TXT"),
        Err(IsoError::NotADirectory("DOCS/README.TXT".to_string()))
    );
}

#[test]
fn a_missing_name_is_not_found_under_the_path_asked_for() {
    let mut fs = sample();
    let missing = || Err(IsoError::NotFound("/NOPE.TXT".to_string()));
    assert_eq!(fs.find_entry("/NOPE.TXT"), missing());
    assert_eq!(fs.read_file("/NOPE.TXT"), missing().map(|_: DirEntry| vec![]));
    assert_eq!(fs.list_dir("/NOPE.TXT"), missing().map(|_: DirEntry| vec![]));
}

#[test]
fn a_missing_inner_segment_is_not_found() {
    let mut fs = sample();
    assert_eq!(
        fs.find_entry("/DOCS/NOPE/README.TXT"),
        Err(IsoError::NotFound("/DOCS/NOPE/README.TXT".to_string()))
    );
    assert_eq!(
        fs.read_file("docs/deep/c.txt"),
        Err(IsoError::NotFound("docs/deep/c.txt".to_string()))
    );
}

#[test]
fn the_version_suffix_is_not_part_of_a_name() {
    let mut fs = sample();
    assert_eq!(
        fs.find_entry("/GPL_3_0.TXT;1"),
        Err(IsoError::NotFound("/GPL_3_0.TXT;1".to_string()))
    );
}

#[test]
fn nothing_lies_below_a_file() {
    let mut fs = sample();
    assert_eq!(
        fs.find_entry("/GPL_3_0.TXT/DOCS"),
        Err(IsoError::NotFound("/GPL_3_0.TXT/DOCS".to_string()))
    );
    assert_eq!(
        fs.find_entry("/GPL_3_0.TXT/"),
        Err(IsoError::NotFound("/GPL_3_0.TXT/".to_string()))
    );
}

#[test]
fn empty_segments_match_no_ordinary_entry() {
    let mut fs = sample();
    assert_eq!(fs.find_entry("/"), Err(IsoError::NotFound("/".to_string())));
    assert_eq!(fs.find_entry(""), Err(IsoError::NotFound("".to_string())));
    assert_eq!(fs.find_entry("//DOCS"), Err(IsoError::NotFound("//DOCS".to_string())));
    assert_eq!(fs.find_entry("/DOCS/"), Err(IsoError::NotFound("/DOCS/".to_string())));
    assert_eq!(fs.read_file("/"), Err(IsoError::NotFound("/".to_string())));
}

#[test]
fn a_directory_that_is_matched_is_loaded() {
    let mut image = sample_image();
    put(&mut image, 18 * 2048 + 34 + 34 + 46, &record(b"DOCS", 26, 2048, true));
    let mut fs = IsoFs::open(image).unwrap();
    assert_eq!(fs.find_entry("/DOCS"), Err(IsoError::Io));
    assert_eq!(fs.read_file("/DOCS"), Err(IsoError::Io));
    assert_eq!(fs.list_dir("/DOCS"), Err(IsoError::Io));
    assert_eq!(fs.find_entry("/DOCS/README.TXT"), Err(IsoError::Io));
}

#[test]
fn a_malformed_directory_is_an_invalid_volume() {
    let mut image = sample_image();
    image[19 * 2048 + 32] = 200;
    let mut fs = IsoFs::open(image).unwrap();
    assert_eq!(fs.find_entry("/DOCS"), Err(IsoError::InvalidVolume));
    assert_eq!(fs.list_dir("/DOCS"), Err(IsoError::InvalidVolume));
    assert_eq!(fs.read_file("/DOCS/README.TXT"), Err(IsoError::InvalidVolume));
    assert_eq!(fs.read_file("/GPL_3_0.TXT").unwrap(), licence());
}

#[test]
fn load_directory_reads_and_decodes_an_extent() {
    let mut fs = sample();
    assert_eq!(
        fs.load_directory(19, 2048).unwrap().entries,
        vec![entry("README.TXT", 21, 5, false), entry("DEEP", 22, 4096, true)]
    );
    assert_eq!(fs.load_directory(19, 68).unwrap().entries, vec![]);
    assert_eq!(fs.load_directory(19, 0).unwrap().entries, vec![]);
    assert_eq!(fs.load_directory(26, 1).err(), Some(IsoError::Io));
    assert_eq!(fs.load_directory(19, 69).err(), Some(IsoError::InvalidVolume));
}

#[test]
fn queries_repeat() {
    let mut fs = sample();
    let first = fs.read_file("/DOCS/README.TXT");
    let _ = fs.list_dir("/NOPE");
    let _ = fs.read_file("/DOCS");
    assert_eq!(fs.read_file("/DOCS/README.TXT"), first);
    assert_eq!(fs.list_dir("/").unwrap(), root_entries());
}

#[test]
fn a_single_file_comes_back_as_it_is_stored() {
    let lba = 23u32;
    let mut image = vec![0u8; 24 * 2048];
    put_block_size(&mut image, 2048);
    put_descriptor(&mut image, 16 * 2048, 18, 2048);
    put(&mut image, 18 * 2048, &record(b"GPL_3_0.TXT;1", lba, 1071, false));
    let mut stored = licence();
    stored.resize(2048, 0xcc);
    put(&mut image, lba as usize * 2048, &stored);

    let mut fs = IsoFs::open(image.clone()).unwrap();
    assert_eq!(fs.list_dir("/").unwrap(), vec![entry("GPL_3_0.TXT", lba, 1071, false)]);
    let contents = fs.read_file("/GPL_3_0.TXT").unwrap();
    assert_eq!(contents.len(), 1071);
    assert_eq!(contents, image[lba as usize * 2048..lba as usize * 2048 + 1071].to_vec());
    assert_eq!(contents, licence());
}
