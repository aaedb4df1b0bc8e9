use memalloc::header::Header;
use memalloc::layout::{align_up, block_size_for, region_length_for, BLOCK_HEADER_SIZE};

#[test]
fn align_up_rounds_to_multiples() {
    assert_eq!(align_up(0, 16), Some(0));
    assert_eq!(align_up(1, 16), Some(16));
    assert_eq!(align_up(16, 16), Some(16));
    assert_eq!(align_up(17, 16), Some(32));
    assert_eq!(align_up(4097, 4096), Some(8192));
    assert_eq!(align_up(usize::MAX, 16), None);
}

#[test]
fn block_sizes() {
    assert_eq!(block_size_for(0), Some(16));
    assert_eq!(block_size_for(1), Some(16));
    assert_eq!(block_size_for(17), Some(32));
    assert_eq!(block_size_for(128), Some(128));
    assert_eq!(block_size_for(usize::MAX - 3), None);
}

#[test]
fn region_lengths() {
    assert_eq!(region_length_for(16), Some(4096));
    assert_eq!(region_length_for(4000), Some(4096));
    assert_eq!(region_length_for(4001), Some(8192));
    assert_eq!(region_length_for(8192), Some(12288));
    assert_eq!(region_length_for(usize::MAX - 50), None);
}

#[test]
fn header_transforms() {
    assert_eq!(Header::from_content_address(1000), 1000 - BLOCK_HEADER_SIZE);
    assert_eq!(Header::content_address_of(1000), 1000 + BLOCK_HEADER_SIZE);
    assert_eq!(Header::from_content_address(Header::content_address_of(4096)), 4096);
}
