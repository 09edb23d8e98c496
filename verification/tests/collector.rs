//! Tests of the build phase: grouping into shelves, the oversize
//! ceiling, and the pressed layout end to end.
use blockpress::DEFAULT_MAX_SIZE;
use blockpress::Collector;
use blockpress::Error;
use blockpress::Header;
use blockpress::RunDesc;

fn block(len: usize, fill: u8) -> Vec<u8> {
    let mut b = vec![0u8; len];
    for (i, byte) in b.iter_mut().enumerate() {
        *byte = fill.wrapping_add(i as u8);
    }
    b
}

#[test]
fn grouping_by_exact_length() {
    let mut collector = Collector::new();
    for len in [5usize, 7, 5, 10] {
        collector.add(&block(len, 0)).unwrap();
    }
    assert_eq!(collector.shelf_count(), 3);
    assert_eq!(collector.shelf_block_size(0), 5);
    assert_eq!(collector.shelf_len(0), 2);
    assert_eq!(collector.shelf_block_size(1), 7);
    assert_eq!(collector.shelf_len(1), 1);
    assert_eq!(collector.shelf_block_size(2), 10);
    assert_eq!(collector.shelf_len(2), 1);
}

#[test]
fn oversize_block_is_rejected_without_effect() {
    assert_eq!(DEFAULT_MAX_SIZE, 40);
    let mut collector = Collector::new();
    assert_eq!(collector.add(&block(41, 0)), Err(Error::TooLarge(41)));
    assert_eq!(collector.shelf_count(), 0);
    // One rejected block does not poison the collector.
    collector.add(&block(40, 0)).unwrap();
    assert_eq!(collector.add(&block(41, 0)), Err(Error::TooLarge(41)));
    assert_eq!(collector.shelf_count(), 1);
    assert_eq!(collector.shelf_len(0), 1);
}

#[test]
fn empty_collector_presses_header_only() {
    let collector = Collector::new();
    let mut out: Vec<u8> = Vec::new();
    collector.press(&mut out).unwrap();
    assert_eq!(out.len(), 12);
    let header = Header::decode(&out).unwrap();
    assert_eq!(header.run_count, 0);
}

#[test]
fn press_end_to_end() {
    // Sizes {5 x 3, 7 x 2, 10 x 1} in arrival order [5, 7, 5, 10, 7, 5].
    let a1 = block(5, 10);
    let b1 = block(7, 20);
    let a2 = block(5, 30);
    let c1 = block(10, 40);
    let b2 = block(7, 50);
    let a3 = block(5, 60);
    let mut collector = Collector::new();
    for b in [&a1, &b1, &a2, &c1, &b2, &a3] {
        collector.add(b).unwrap();
    }
    let mut out: Vec<u8> = Vec::new();
    collector.press(&mut out).unwrap();
    // Header, 3 descriptors, 15 + 14 + 10 data bytes.
    assert_eq!(out.len(), 12 + 3 * 12 + 39);
    let header = Header::decode(&out).unwrap();
    assert_eq!(header.run_count, 3);
    // Descriptors in ascending size order with chained offsets, counted
    // from the end of the header: the table itself is 36 bytes, then
    // the size-5 run (15 bytes), then the size-7 run (14 bytes).
    let d0 = RunDesc::decode(&out, 12).unwrap();
    let d1 = RunDesc::decode(&out, 24).unwrap();
    let d2 = RunDesc::decode(&out, 36).unwrap();
    assert_eq!(d0, RunDesc { block_size: 5, count: 3, offset: 36 });
    assert_eq!(d1, RunDesc { block_size: 7, count: 2, offset: 51 });
    assert_eq!(d2, RunDesc { block_size: 10, count: 1, offset: 65 });
    for d in [&d0, &d1, &d2] {
        assert!(d.validate(out.len()).is_ok());
    }
    // Data region: runs grouped by size, arrival order kept in each.
    let mut expected: Vec<u8> = Vec::new();
    for b in [&a1, &a2, &a3, &b1, &b2, &c1] {
        expected.extend_from_slice(b);
    }
    assert_eq!(&out[48..], &expected[..]);
}

#[test]
fn pressing_is_deterministic() {
    let lens = [5usize, 7, 5, 10, 7, 5, 40, 1];
    let mut first: Vec<u8> = Vec::new();
    let mut second: Vec<u8> = Vec::new();
    for out in [&mut first, &mut second] {
        let mut collector = Collector::new();
        for (i, len) in lens.iter().enumerate() {
            collector.add(&block(*len, i as u8)).unwrap();
        }
        collector.press(out).unwrap();
    }
    assert_eq!(first, second);
}

#[test]
fn small_layouts_fit_the_format() {
    let mut collector = Collector::new();
    assert!(collector.layout_fits());
    for len in [5usize, 7, 10, 40] {
        collector.add(&block(len, 0)).unwrap();
    }
    assert!(collector.layout_fits());
}

#[test]
fn press_appends_to_the_sink() {
    let mut collector = Collector::new();
    collector.add(&block(3, 1)).unwrap();
    let mut out: Vec<u8> = vec![0xEE, 0xFF];
    collector.press(&mut out).unwrap();
    assert_eq!(&out[..2], &[0xEE, 0xFF]);
    let header = Header::decode(&out[2..]).unwrap();
    assert_eq!(header.run_count, 1);
}
