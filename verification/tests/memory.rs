use kernel_core::config::{PAGE_SIZE, TRAMPOLINE, TRAP_CONTEXT, USER_STACK_SIZE};
use kernel_core::loader::parse_elf;
use kernel_core::mm::{
    ceil_page, floor_page, perm_of_flags, MapType, MemorySet, ProgramImage, Segment, PERM_R,
    PERM_U, PERM_W, PERM_X, SEG_R, SEG_W, SEG_X,
};

fn elf(entry: u64, vaddr: u64, data: &[u8], memsz: u64, flags: u32) -> Vec<u8> {
    let mut b = vec![0u8; 64];
    b[0] = 0x7f;
    b[1] = b'E';
    b[2] = b'L';
    b[3] = b'F';
    b[4] = 2;
    b[5] = 1;
    b[24..32].copy_from_slice(&entry.to_le_bytes());
    b[32..40].copy_from_slice(&64u64.to_le_bytes());
    b[54..56].copy_from_slice(&56u16.to_le_bytes());
    b[56..58].copy_from_slice(&1u16.to_le_bytes());
    b.extend_from_slice(&1u32.to_le_bytes());
    b.extend_from_slice(&flags.to_le_bytes());
    b.extend_from_slice(&120u64.to_le_bytes());
    b.extend_from_slice(&vaddr.to_le_bytes());
    b.extend_from_slice(&vaddr.to_le_bytes());
    b.extend_from_slice(&(data.len() as u64).to_le_bytes());
    b.extend_from_slice(&memsz.to_le_bytes());
    b.extend_from_slice(&4096u64.to_le_bytes());
    b.extend_from_slice(data);
    b
}

#[test]
fn page_rounding() {
    assert_eq!(floor_page(0), 0);
    assert_eq!(floor_page(4095), 0);
    assert_eq!(floor_page(4096), 1);
    assert_eq!(ceil_page(0), 0);
    assert_eq!(ceil_page(1), 1);
    assert_eq!(ceil_page(4096), 1);
    assert_eq!(ceil_page(4097), 2);
    assert_eq!(ceil_page(usize::MAX), usize::MAX / PAGE_SIZE + 1);
}

#[test]
fn insert_rounds_to_pages_and_zeroes() {
    let mut ms = MemorySet::new_bare(7);
    assert_eq!(ms.token(), 7);
    assert!(ms.insert_framed_area(0x1010, 0x2001, PERM_R | PERM_U));
    assert_eq!(ms.area_count(), 1);
    assert_eq!(ms.area(0).start_vpn(), 1);
    assert_eq!(ms.area(0).end_vpn(), 3);
    assert_eq!(ms.area(0).map_perm(), PERM_R | PERM_U);
    assert!(ms.area(0).map_type() == MapType::Framed);
    assert!(!ms.is_mapped(0));
    assert!(ms.is_mapped(1));
    assert!(ms.is_mapped(2));
    assert!(!ms.is_mapped(3));
    assert_eq!(ms.read_byte(0x1000), Some(0));
    assert_eq!(ms.read_byte(0x2fff), Some(0));
    assert_eq!(ms.read_byte(0x0fff), None);
    assert_eq!(ms.read_byte(0x3000), None);
}

#[test]
fn insert_refuses_overlap_and_changes_nothing() {
    let mut ms = MemorySet::new_bare(0);
    assert!(ms.insert_framed_area(0x10000, 0x12000, PERM_R));
    assert!(!ms.insert_framed_area(0x11000, 0x13000, PERM_R));
    assert!(!ms.insert_framed_area(0xf000, 0x10001, PERM_R));
    assert!(!ms.insert_framed_area(0x0, 0x20000, PERM_R));
    assert_eq!(ms.area_count(), 1);
    assert!(ms.insert_framed_area(0x12000, 0x13000, PERM_R));
    assert!(ms.insert_framed_area(0xf000, 0x10000, PERM_R));
    assert_eq!(ms.area_count(), 3);
}

#[test]
fn empty_range_maps_nothing() {
    let mut ms = MemorySet::new_bare(0);
    assert!(ms.insert_framed_area(0x5000, 0x5000, PERM_R));
    assert!(ms.insert_framed_area(0x5000, 0x4000, PERM_R));
    assert_eq!(ms.area_count(), 0);
    assert!(ms.remove_framed(0x5000, 0x5000));
}

#[test]
fn insert_refuses_what_cannot_be_backed() {
    let mut ms = MemorySet::new_bare(0);
    assert!(!ms.insert_framed_area(0, usize::MAX, PERM_R));
    assert_eq!(ms.area_count(), 0);
}

#[test]
fn map_then_unmap_restores_the_address_space() {
    let mut ms = MemorySet::new_bare(0);
    assert!(ms.insert_framed_area(0x1000, 0x3000, PERM_R | PERM_W));
    assert!(ms.write_byte(0x1234, 0xab));
    assert!(ms.insert_framed_area(0x1000_0000, 0x1000_1000, PERM_R | PERM_W | PERM_U));
    assert_eq!(ms.area_count(), 2);
    assert!(ms.remove_framed(0x1000_0000, 0x1000_1000));
    assert_eq!(ms.area_count(), 1);
    assert_eq!(ms.area(0).start_vpn(), 1);
    assert_eq!(ms.area(0).end_vpn(), 3);
    assert_eq!(ms.read_byte(0x1234), Some(0xab));
    assert!(!ms.is_mapped(0x10000));
    assert!(!ms.remove_framed(0x1000_0000, 0x1000_1000));
    assert_eq!(ms.area_count(), 1);
}

#[test]
fn unmap_needs_every_page_mapped() {
    let mut ms = MemorySet::new_bare(0);
    assert!(ms.insert_framed_area(0x1000, 0x3000, PERM_R));
    assert!(ms.insert_framed_area(0x4000, 0x5000, PERM_R));
    assert!(!ms.remove_framed(0x2000, 0x5000));
    assert!(!ms.remove_framed(0x0, 0x2000));
    assert_eq!(ms.area_count(), 2);
    assert!(ms.all_mapped(1, 3));
    assert!(!ms.all_mapped(1, 5));
    assert!(ms.all_mapped(4, 5));
    assert!(ms.all_mapped(9, 9));
}

#[test]
fn unmap_across_areas_and_inside_an_area() {
    let mut ms = MemorySet::new_bare(0);
    assert!(ms.insert_framed_area(0x1000, 0x4000, PERM_R | PERM_W));
    assert!(ms.insert_framed_area(0x4000, 0x8000, PERM_R));
    for page in 1..8usize {
        assert!(ms.write_byte(page * 0x1000 + 5, page as u8));
    }
    assert!(ms.remove_framed(0x3000, 0x6000));
    for page in [1usize, 2, 6, 7] {
        assert!(ms.is_mapped(page));
        assert_eq!(ms.read_byte(page * 0x1000 + 5), Some(page as u8));
    }
    for page in [3usize, 4, 5] {
        assert!(!ms.is_mapped(page));
        assert_eq!(ms.read_byte(page * 0x1000 + 5), None);
    }
    assert_eq!(ms.area_count(), 2);
    // a hole in the middle of one area leaves two pieces
    assert!(ms.remove_framed(0x6000 + 1, 0x7000));
    assert_eq!(ms.area_count(), 2);
    assert!(ms.insert_framed_area(0x10000, 0x13000, PERM_R));
    assert!(ms.write_byte(0x10000, 1));
    assert!(ms.write_byte(0x12fff, 3));
    assert!(ms.remove_framed(0x11000, 0x12000));
    assert_eq!(ms.area_count(), 4);
    assert_eq!(ms.read_byte(0x10000), Some(1));
    assert_eq!(ms.read_byte(0x12fff), Some(3));
    assert_eq!(ms.read_byte(0x11000), None);
    assert_eq!(ms.area(2).end_vpn(), 0x11);
    assert_eq!(ms.area(3).start_vpn(), 0x12);
}

#[test]
fn bytes_round_trip_across_a_page_boundary() {
    let mut ms = MemorySet::new_bare(0);
    assert!(ms.insert_framed_area(0x1000, 0x3000, PERM_R | PERM_W));
    let data: Vec<u8> = (0..100u8).collect();
    assert!(ms.write_bytes(0x1fd0, &data));
    assert_eq!(ms.read_bytes(0x1fd0, 100), Some(data.clone()));
    assert_eq!(ms.read_byte(0x1fcf), Some(0));
    assert_eq!(ms.read_byte(0x1fd0 + 100), Some(0));
    assert_eq!(ms.read_byte(0x2000), Some(48));
    assert_eq!(ms.read_bytes(0x1000, 0), Some(vec![]));
    assert_eq!(ms.read_bytes(0x9000, 0), Some(vec![]));
}

#[test]
fn write_outside_framed_pages_stores_nothing() {
    let mut ms = MemorySet::new_bare(0);
    assert!(ms.insert_framed_area(0x1000, 0x2000, PERM_R | PERM_W));
    let data = vec![1u8; 16];
    assert!(!ms.write_bytes(0x1ff8, &data));
    assert_eq!(ms.read_bytes(0x1ff8, 8), Some(vec![0u8; 8]));
    assert!(!ms.write_byte(0x2000, 1));
    assert_eq!(ms.read_bytes(0x1ff8, 16), None);
    assert!(!ms.is_accessible(usize::MAX, 2));
    assert!(ms.is_accessible(0x1ff8, 8));
}

#[test]
fn buffer_is_split_at_page_boundaries() {
    let mut ms = MemorySet::new_bare(0);
    assert!(ms.insert_framed_area(0x1000, 0x5000, PERM_R | PERM_W));
    assert_eq!(ms.translated_byte_buffer(0x1000, 0), Some(vec![]));
    assert_eq!(ms.translated_byte_buffer(0x1010, 0x20), Some(vec![(0x1010, 0x20)]));
    assert_eq!(
        ms.translated_byte_buffer(0x1ff0, 0x2020),
        Some(vec![(0x1ff0, 0x10), (0x2000, 0x1000), (0x3000, 0x1000), (0x4000, 0x10)])
    );
    assert_eq!(ms.translated_byte_buffer(0x4000, 0x1000), Some(vec![(0x4000, 0x1000)]));
    assert_eq!(ms.translated_byte_buffer(0x4ff0, 0x11), None);
    assert_eq!(ms.translated_byte_buffer(0x0ff0, 0x20), None);
}

#[test]
fn strings_end_at_nul() {
    let mut ms = MemorySet::new_bare(0);
    assert!(ms.insert_framed_area(0x1000, 0x2000, PERM_R | PERM_W));
    assert!(ms.write_bytes(0x1100, &b"hello\0world".to_vec()));
    assert_eq!(ms.translated_str(0x1100), Some(b"hello".to_vec()));
    assert_eq!(ms.translated_str(0x1106), Some(b"world".to_vec()));
    assert_eq!(ms.translated_str(0x1105), Some(vec![]));
    assert_eq!(ms.translated_str(0x3000), None);
    let fill = vec![b'x'; 16];
    assert!(ms.write_bytes(0x1ff0, &fill));
    assert_eq!(ms.translated_str(0x1ff0), None);
}

#[test]
fn copy_is_deep() {
    let mut ms = MemorySet::new_bare(1);
    assert!(ms.insert_framed_area(0x1000, 0x2000, PERM_R | PERM_W));
    assert!(ms.write_byte(0x1000, 9));
    let mut copy = ms.from_existed_user(2);
    assert_eq!(copy.token(), 2);
    assert_eq!(copy.area_count(), 1);
    assert_eq!(copy.read_byte(0x1000), Some(9));
    assert!(copy.write_byte(0x1000, 5));
    assert!(ms.write_byte(0x1001, 6));
    assert_eq!(ms.read_byte(0x1000), Some(9));
    assert_eq!(copy.read_byte(0x1001), Some(0));
}

#[test]
fn segment_flags_become_permissions() {
    assert_eq!(perm_of_flags(0), PERM_U);
    assert_eq!(perm_of_flags(SEG_R), PERM_U | PERM_R);
    assert_eq!(perm_of_flags(SEG_R | SEG_W), PERM_U | PERM_R | PERM_W);
    assert_eq!(perm_of_flags(SEG_R | SEG_X), PERM_U | PERM_R | PERM_X);
    assert_eq!(perm_of_flags(7), 30);
}

#[test]
fn image_gets_segments_stack_trap_frame_and_trampoline() {
    let image = ProgramImage {
        entry: 0x10040,
        segments: vec![
            Segment { start_va: 0x10000, mem_size: 0x1800, flags: SEG_R | SEG_X, data: vec![1, 2, 3] },
            Segment { start_va: 0x12000, mem_size: 0x10, flags: SEG_R | SEG_W, data: vec![] },
        ],
    };
    let (ms, top, entry) = MemorySet::from_image(3, &image).unwrap();
    assert_eq!(entry, 0x10040);
    assert_eq!(top, 0x14000 + USER_STACK_SIZE);
    assert_eq!(ms.token(), 3);
    assert_eq!(ms.area_count(), 5);
    assert!(ms.area(0).map_type() == MapType::Identical);
    assert_eq!(ms.area(0).start_vpn(), TRAMPOLINE / PAGE_SIZE);
    assert_eq!(ms.area(0).map_perm(), PERM_R | PERM_X);
    assert_eq!(ms.area(1).start_vpn(), 0x10);
    assert_eq!(ms.area(1).end_vpn(), 0x12);
    assert_eq!(ms.area(1).map_perm(), PERM_U | PERM_R | PERM_X);
    assert_eq!(ms.area(2).map_perm(), PERM_U | PERM_R | PERM_W);
    assert_eq!(ms.area(3).start_vpn(), 0x14);
    assert_eq!(ms.area(3).end_vpn(), 0x16);
    assert_eq!(ms.area(3).map_perm(), PERM_U | PERM_R | PERM_W);
    assert_eq!(ms.area(4).start_vpn(), TRAP_CONTEXT / PAGE_SIZE);
    assert_eq!(ms.area(4).map_perm(), PERM_R | PERM_W);
    assert_eq!(ms.read_bytes(0x10000, 4), Some(vec![1, 2, 3, 0]));
    assert!(!ms.is_mapped(0x13));
    assert_eq!(ms.read_byte(TRAMPOLINE), None);
}

#[test]
fn malformed_images_are_refused() {
    let overlap = ProgramImage {
        entry: 0,
        segments: vec![
            Segment { start_va: 0x10000, mem_size: 0x1000, flags: SEG_R, data: vec![] },
            Segment { start_va: 0x10800, mem_size: 0x1000, flags: SEG_R, data: vec![] },
        ],
    };
    assert!(MemorySet::from_image(0, &overlap).is_none());
    let too_much_data = ProgramImage {
        entry: 0,
        segments: vec![Segment { start_va: 0x10000, mem_size: 2, flags: SEG_R, data: vec![0; 3] }],
    };
    assert!(MemorySet::from_image(0, &too_much_data).is_none());
    let empty = ProgramImage {
        entry: 0,
        segments: vec![Segment { start_va: 0x10000, mem_size: 0, flags: SEG_R, data: vec![] }],
    };
    assert!(MemorySet::from_image(0, &empty).is_none());
    let off_the_end = ProgramImage {
        entry: 0,
        segments: vec![Segment { start_va: usize::MAX - 10, mem_size: 100, flags: SEG_R, data: vec![] }],
    };
    assert!(MemorySet::from_image(0, &off_the_end).is_none());
    let on_the_trampoline = ProgramImage {
        entry: 0,
        segments: vec![Segment { start_va: TRAMPOLINE, mem_size: 100, flags: SEG_R, data: vec![] }],
    };
    assert!(MemorySet::from_image(0, &on_the_trampoline).is_none());
    let no_segments = ProgramImage { entry: 5, segments: vec![] };
    let (ms, top, _) = MemorySet::from_image(0, &no_segments).unwrap();
    assert_eq!(top, PAGE_SIZE + USER_STACK_SIZE);
    assert_eq!(ms.area_count(), 3);
}

#[test]
fn elf_header_and_segments_are_read() {
    let bytes = elf(0x10080, 0x10000, b"code!", 0x2000, 5);
    let image = parse_elf(&bytes).unwrap();
    assert_eq!(image.entry, 0x10080);
    assert_eq!(image.segments.len(), 1);
    assert_eq!(image.segments[0].start_va, 0x10000);
    assert_eq!(image.segments[0].mem_size, 0x2000);
    assert_eq!(image.segments[0].flags, SEG_R | SEG_X);
    assert_eq!(image.segments[0].data, b"code!".to_vec());
}

#[test]
fn elf_skips_headers_that_load_nothing() {
    let mut bytes = elf(0, 0x10000, b"x", 0x1000, 4);
    bytes[64..68].copy_from_slice(&2u32.to_le_bytes());
    let image = parse_elf(&bytes).unwrap();
    assert_eq!(image.segments.len(), 0);
}

#[test]
fn broken_elf_files_are_refused() {
    let good = elf(0, 0x10000, b"abc", 0x1000, 4);
    assert!(parse_elf(&good).is_some());
    assert!(parse_elf(&vec![]).is_none());
    assert!(parse_elf(&good[..63].to_vec()).is_none());
    let mut magic = good.clone();
    magic[0] = 0x7e;
    assert!(parse_elf(&magic).is_none());
    let mut class = good.clone();
    class[4] = 1;
    assert!(parse_elf(&class).is_none());
    let mut endian = good.clone();
    endian[5] = 2;
    assert!(parse_elf(&endian).is_none());
    let mut small_headers = good.clone();
    small_headers[54] = 55;
    assert!(parse_elf(&small_headers).is_none());
    let mut header_off_file = good.clone();
    header_off_file[32..40].copy_from_slice(&100u64.to_le_bytes());
    assert!(parse_elf(&header_off_file).is_none());
    let mut data_off_file = good.clone();
    data_off_file[64 + 32..64 + 40].copy_from_slice(&4u64.to_le_bytes());
    assert!(parse_elf(&data_off_file).is_none());
    let mut two_headers = good.clone();
    two_headers[56] = 2;
    assert!(parse_elf(&two_headers).is_none());
    assert!(parse_elf(&good[..good.len() - 1].to_vec()).is_none());
}
