use rrop::segment::{find_segment_for_address, find_writable_address, SegmentInfo};

fn seg(vaddr: u64, memsz: u64, loadable: bool, writable: bool, executable: bool) -> SegmentInfo {
    SegmentInfo {
        vaddr,
        memsz,
        offset: vaddr,
        loadable,
        writable,
        executable,
    }
}

#[test]
fn address_is_located_in_its_segment() {
    let segments = vec![
        seg(0x1000, 0x100, true, false, true),
        seg(0x2000, 0x100, true, true, false),
    ];
    assert_eq!(find_segment_for_address(&segments, 0x1000), Some(0));
    assert_eq!(find_segment_for_address(&segments, 0x10FF), Some(0));
    assert_eq!(find_segment_for_address(&segments, 0x2080), Some(1));
    assert_eq!(find_segment_for_address(&segments, 0x1100), None);
    assert_eq!(find_segment_for_address(&segments, 0x0FFF), None);
}

#[test]
fn overlapping_segments_resolve_to_the_first() {
    let segments = vec![
        seg(0x1000, 0x1000, true, false, true),
        seg(0x1800, 0x1000, true, false, true),
    ];
    assert_eq!(find_segment_for_address(&segments, 0x1900), Some(0));
    assert_eq!(find_segment_for_address(&segments, 0x2100), Some(1));
}

#[test]
fn lowest_writable_loadable_address_is_the_target() {
    let segments = vec![
        seg(0x1000, 0x100, true, false, true),
        seg(0x2000, 0x100, false, true, false),
        seg(0x4000, 0x100, true, true, false),
        seg(0x3000, 0x100, true, true, false),
    ];
    assert_eq!(find_writable_address(&segments), Some(0x3000));
}

#[test]
fn writable_segment_order_in_the_table_does_not_matter() {
    let segments = vec![
        seg(0x4000, 0x100, true, true, false),
        seg(0x1000, 0x100, true, true, false),
    ];
    assert_eq!(find_writable_address(&segments), Some(0x1000));
}

#[test]
fn no_writable_segment_yields_nothing() {
    let segments = vec![seg(0x1000, 0x100, true, false, true)];
    assert_eq!(find_writable_address(&segments), None);
    let empty: Vec<SegmentInfo> = Vec::new();
    assert_eq!(find_writable_address(&empty), None);
}
