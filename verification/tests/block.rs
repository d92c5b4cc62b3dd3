use iso9660fs::block::BlockDevice;
use iso9660fs::error::IsoError;

/// An image of `len` bytes whose byte at offset `i` is `i % 251`, with the
/// block size written into its descriptor.
fn patterned_image(block_size: u16, len: usize) -> Vec<u8> {
    let mut image: Vec<u8> = (0..len).map(|i| (i % 251) as u8).collect();
    image[32768 + 128..32768 + 130].copy_from_slice(&block_size.to_le_bytes());
    image
}

#[test]
fn block_size_comes_from_the_descriptor() {
    let dev = BlockDevice::open(patterned_image(2048, 40960)).unwrap();
    assert_eq!(dev.block_size, 2048);
    let dev = BlockDevice::open(patterned_image(512, 40960)).unwrap();
    assert_eq!(dev.block_size, 512);
    let dev = BlockDevice::open(patterned_image(0x1234, 40960)).unwrap();
    assert_eq!(dev.block_size, 0x1234);
}

#[test]
fn the_image_is_kept_as_it_is() {
    let image = patterned_image(2048, 34816);
    let dev = BlockDevice::open(image.clone()).unwrap();
    assert_eq!(dev.image, image);
}

#[test]
fn an_image_without_a_whole_descriptor_fails() {
    assert_eq!(BlockDevice::open(vec![]).err(), Some(IsoError::Io));
    assert_eq!(BlockDevice::open(vec![0; 32768]).err(), Some(IsoError::Io));
    assert_eq!(BlockDevice::open(vec![0; 34815]).err(), Some(IsoError::Io));
    assert!(BlockDevice::open(vec![0; 34816]).is_ok());
}

#[test]
fn a_block_is_read_at_its_offset() {
    let image = patterned_image(2048, 40960);
    let mut dev = BlockDevice::open(image.clone()).unwrap();
    assert_eq!(dev.read_block(0).unwrap(), image[0..2048].to_vec());
    assert_eq!(dev.read_block(3).unwrap(), image[6144..8192].to_vec());
    assert_eq!(dev.read_block(19).unwrap(), image[38912..40960].to_vec());
}

#[test]
fn a_block_has_the_volume_s_block_size() {
    let image = patterned_image(512, 40960);
    let mut dev = BlockDevice::open(image.clone()).unwrap();
    assert_eq!(dev.read_block(16).unwrap(), image[8192..8704].to_vec());
    assert_eq!(dev.read_block(79).unwrap(), image[40448..40960].to_vec());
}

#[test]
fn a_block_beyond_the_image_fails() {
    let mut dev = BlockDevice::open(patterned_image(2048, 40960)).unwrap();
    assert_eq!(dev.read_block(20), Err(IsoError::Io));
    assert_eq!(dev.read_block(u32::MAX), Err(IsoError::Io));
}

#[test]
fn a_block_that_the_image_holds_in_part_fails() {
    let mut dev = BlockDevice::open(patterned_image(2048, 40000)).unwrap();
    assert!(dev.read_block(18).is_ok());
    assert_eq!(dev.read_block(19), Err(IsoError::Io));
}

#[test]
fn reading_leaves_the_device_unchanged() {
    let image = patterned_image(2048, 40960);
    let mut dev = BlockDevice::open(image.clone()).unwrap();
    let _ = dev.read_block(2);
    let _ = dev.read_block(99);
    let _ = dev.read_extent(17, 3000);
    assert_eq!(dev.image, image);
    assert_eq!(dev.block_size, 2048);
}

#[test]
fn an_extent_is_cut_to_its_size() {
    let image = patterned_image(2048, 40960);
    let mut dev = BlockDevice::open(image.clone()).unwrap();
    assert_eq!(dev.read_extent(17, 1071).unwrap(), image[34816..34816 + 1071].to_vec());
    assert_eq!(dev.read_extent(17, 1).unwrap(), image[34816..34817].to_vec());
}

#[test]
fn an_extent_may_span_blocks() {
    let image = patterned_image(2048, 40960);
    let mut dev = BlockDevice::open(image.clone()).unwrap();
    assert_eq!(dev.read_extent(17, 2048).unwrap(), image[34816..36864].to_vec());
    assert_eq!(dev.read_extent(17, 2049).unwrap(), image[34816..36865].to_vec());
    assert_eq!(dev.read_extent(17, 6144).unwrap(), image[34816..40960].to_vec());
}

#[test]
fn an_extent_of_no_bytes_reads_no_block() {
    let mut dev = BlockDevice::open(patterned_image(2048, 40960)).unwrap();
    assert_eq!(dev.read_extent(17, 0).unwrap(), Vec::<u8>::new());
    assert_eq!(dev.read_extent(5000, 0).unwrap(), Vec::<u8>::new());
    assert_eq!(dev.read_extent(u32::MAX, 0).unwrap(), Vec::<u8>::new());
}

#[test]
fn an_extent_needs_all_of_its_last_block() {
    let mut dev = BlockDevice::open(patterned_image(2048, 40000)).unwrap();
    assert!(dev.read_extent(18, 2048).is_ok());
    assert_eq!(dev.read_extent(19, 1), Err(IsoError::Io));
    assert_eq!(dev.read_extent(18, 2049), Err(IsoError::Io));
}

#[test]
fn an_extent_beyond_the_last_block_address_fails() {
    let mut dev = BlockDevice::open(patterned_image(1, 40960)).unwrap();
    assert_eq!(dev.read_extent(u32::MAX, 2), Err(IsoError::Io));
    assert_eq!(dev.read_extent(40958, 2).unwrap(), vec![(40958 % 251) as u8, (40959 % 251) as u8]);
    assert_eq!(dev.read_extent(40959, 2), Err(IsoError::Io));
}
