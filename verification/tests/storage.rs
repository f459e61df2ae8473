use std::collections::HashSet;
use urbix::cache::{chebyshev, ChunkCache};
use urbix::data::{
    Cell, CellFlags, ChunkBuffer, ChunkHeader, ChunkId, CELL_BYTES, HEADER_BYTES,
};
use urbix::recency::Recency;
use urbix::single::F32;
use urbix::zones::ZONE_COUNT;

fn f(x: f32) -> F32 {
    F32::from_bits(x.to_bits())
}

fn cell(height: f32, flags: u8, interior_id: u64) -> Cell {
    Cell {
        height: f(height),
        zone_affinity: [f(0.2), f(0.3), f(0.5), f(0.0), f(0.0)],
        palette_id: 3,
        flags: CellFlags::of(flags),
        _pad: 0,
        interior_id,
    }
}

fn dummy_chunk(cx: i32, cy: i32) -> ChunkBuffer {
    let mut b = ChunkBuffer::new(ChunkId::new(cx, cy), 32, 0);
    b.set_cell(7, cell(cx as f32, 0, 9));
    b
}

#[test]
fn cell_layout_matches_c_reference() {
    assert_eq!(CELL_BYTES, 40);
    let mut b = ChunkBuffer::new(ChunkId::new(0, 0), 1, 0);
    let c = Cell {
        height: F32::from_bits(0x0403_0201),
        zone_affinity: [
            F32::from_bits(0x1413_1211),
            F32::from_bits(0),
            F32::from_bits(0),
            F32::from_bits(0),
            F32::from_bits(0x2423_2221),
        ],
        palette_id: 0x31,
        flags: CellFlags::of(0x32),
        _pad: 0x3433,
        interior_id: 0x4847_4645_4443_4241,
    };
    b.set_cell(0, c);
    let bytes = &b.as_bytes()[HEADER_BYTES..];
    assert_eq!(bytes[0..4], [1, 2, 3, 4]);
    assert_eq!(bytes[4..8], [0x11, 0x12, 0x13, 0x14]);
    assert_eq!(bytes[20..24], [0x21, 0x22, 0x23, 0x24]);
    assert_eq!(bytes[24], 0x31);
    assert_eq!(bytes[25], 0x32);
    assert_eq!(bytes[26..28], [0x33, 0x34]);
    assert_eq!(bytes[28..32], [0, 0, 0, 0]);
    assert_eq!(
        bytes[32..40],
        [0x41, 0x42, 0x43, 0x44, 0x45, 0x46, 0x47, 0x48]
    );
}

#[test]
fn header_layout_matches_c_reference() {
    assert_eq!(HEADER_BYTES, 32);
    assert_eq!(std::mem::size_of::<ChunkHeader>(), 32);
    assert_eq!(std::mem::align_of::<ChunkHeader>(), 8);
    let b = ChunkBuffer::new(ChunkId::new(-2, 0x0102_0304), 3, 0x1122_3344_5566_7788);
    let bytes = b.as_bytes();
    assert_eq!(bytes[0..4], [0xfe, 0xff, 0xff, 0xff]);
    assert_eq!(bytes[4..8], [4, 3, 2, 1]);
    assert_eq!(bytes[8..12], [9, 0, 0, 0]);
    assert_eq!(bytes[12..14], [3, 0]);
    assert!(bytes[14..24].iter().all(|b| *b == 0));
    assert_eq!(
        bytes[24..32],
        [0x88, 0x77, 0x66, 0x55, 0x44, 0x33, 0x22, 0x11]
    );
}

#[test]
fn chunk_buffer_roundtrips_header() {
    let buf = ChunkBuffer::new(ChunkId::new(-3, 7), 32, 445566);
    let h = buf.header();
    assert_eq!((h.cx, h.cy), (-3, 7));
    assert_eq!(h.chunk_size, 32);
    assert_eq!(h.cell_count, 1024);
    assert_eq!(h.seed, 445566);
    assert_eq!(buf.as_bytes().len(), 32 + 1024 * 40);
    assert_eq!(buf.cell_region_offset(), 32);
}

#[test]
fn cell_flags_combine() {
    let f = CellFlags::default()
        .insert(CellFlags::IS_STREET)
        .insert(CellFlags::IS_PARK);
    assert!(f.contains(CellFlags::IS_STREET));
    assert!(f.contains(CellFlags::IS_PARK));
    assert!(!CellFlags::of(CellFlags::NONE).contains(CellFlags::IS_STREET));
    assert!(!f.contains(CellFlags::IS_PLAZA));
    assert_eq!(f.insert(CellFlags::IS_PARK), f);
}

#[test]
fn chunk_buffer_cell_roundtrip() {
    let mut buf = ChunkBuffer::new(ChunkId::new(0, 0), 2, 42);
    let c = cell(12.5, CellFlags::IS_STREET, 99);
    buf.set_cell(0, c);
    assert_eq!(buf.get_cell(0), c);
    assert_eq!(buf.get_cell(1).height, f(0.0));
    assert_eq!(buf.cell_count(), 4);
    assert_eq!(buf.cells().len(), 4);
}

#[test]
fn writing_one_cell_leaves_the_others() {
    let mut buf = ChunkBuffer::new(ChunkId::new(5, -5), 3, 1);
    for i in 0..9 {
        buf.set_cell(i, cell(i as f32, i as u8, i as u64));
    }
    buf.set_cell(4, cell(100.0, 32, 77));
    for i in 0..9 {
        if i != 4 {
            assert_eq!(buf.get_cell(i), cell(i as f32, i as u8, i as u64));
        }
    }
    assert_eq!(buf.get_cell(4), cell(100.0, 32, 77));
    assert_eq!(buf.header().cx, 5);
}

#[test]
fn cells_of_a_truncated_buffer_are_refused() {
    let full = ChunkBuffer::new(ChunkId::new(0, 0), 4, 42);
    assert!(full.holds_cell(15));
    assert!(!full.holds_cell(16));
    let mut bytes = full.into_raw_bytes();
    bytes.truncate(32 + 40);
    let cut = ChunkBuffer::from_raw_bytes(bytes);
    assert!(cut.holds_cell(0));
    assert!(!cut.holds_cell(1));
    assert!(!cut.holds_cell(15));
    assert!(!ChunkBuffer::from_raw_bytes(vec![0; 31]).holds_cell(0));
}

#[test]
fn raw_bytes_round_trip_preserves_content() {
    let buf = ChunkBuffer::new(ChunkId::new(3, -7), 8, 99);
    let expected = buf.as_bytes().to_vec();
    let raw = buf.into_raw_bytes();
    assert_eq!(raw.len(), expected.len());
    let reclaimed = ChunkBuffer::from_raw_bytes(raw);
    assert_eq!(reclaimed.as_bytes(), expected.as_slice());
    assert_eq!(reclaimed.header().cell_count, 8 * 8);
    let c = reclaimed.get_cell(0);
    assert_eq!(c.zone_affinity, [f(0.0); ZONE_COUNT]);
    assert_eq!(c.height, f(0.0));
}

#[test]
fn insert_and_get() {
    let mut cache = ChunkCache::new(ChunkId::new(0, 0), 4);
    let id = ChunkId::new(2, 1);
    cache.insert(id, dummy_chunk(2, 1));
    assert_eq!(cache.len(), 1);
    assert!(cache.get(id).is_some());
    assert_eq!(cache.get(id).unwrap().header().cx, 2);
}

#[test]
fn get_miss_returns_none() {
    let mut cache = ChunkCache::new(ChunkId::new(0, 0), 4);
    assert!(cache.get(ChunkId::new(0, 0)).is_none());
}

#[test]
fn evict_distant_chunks_drops_far_entries() {
    let mut cache = ChunkCache::new(ChunkId::new(0, 0), 2);
    cache.insert(ChunkId::new(1, 1), dummy_chunk(1, 1));
    cache.insert(ChunkId::new(2, 0), dummy_chunk(2, 0));
    cache.insert(ChunkId::new(5, 5), dummy_chunk(5, 5));
    cache.insert(ChunkId::new(0, 4), dummy_chunk(0, 4));
    assert_eq!(cache.len(), 4);
    cache.evict_distant_chunks();
    assert_eq!(cache.len(), 2);
    assert!(cache.get(ChunkId::new(1, 1)).is_some());
    assert!(cache.get(ChunkId::new(5, 5)).is_none());
    assert!(cache.get(ChunkId::new(0, 4)).is_none());
}

#[test]
fn evict_respects_negative_coordinates() {
    let mut cache = ChunkCache::new(ChunkId::new(-1, -1), 1);
    cache.insert(ChunkId::new(-2, -2), dummy_chunk(-2, -2));
    cache.insert(ChunkId::new(0, -1), dummy_chunk(0, -1));
    cache.insert(ChunkId::new(-5, -1), dummy_chunk(-5, -1));
    cache.evict_distant_chunks();
    assert_eq!(cache.len(), 2);
    assert!(cache.get(ChunkId::new(-2, -2)).is_some());
    assert!(cache.get(ChunkId::new(-5, -1)).is_none());
}

#[test]
fn set_center_and_draw_distance() {
    let mut cache = ChunkCache::new(ChunkId::new(0, 0), 1);
    cache.insert(ChunkId::new(2, 0), dummy_chunk(2, 0));
    cache.evict_distant_chunks();
    assert_eq!(cache.len(), 0);

    cache.set_draw_distance(3);
    assert_eq!(cache.draw_distance(), 3);
    cache.insert(ChunkId::new(2, 0), dummy_chunk(2, 0));
    cache.evict_distant_chunks();
    assert_eq!(cache.len(), 1);

    cache.set_center(ChunkId::new(5, 5));
    assert_eq!(cache.center(), ChunkId::new(5, 5));
    cache.evict_distant_chunks();
    assert_eq!(cache.len(), 0);
}

#[test]
fn lru_recency_on_get() {
    let mut cache = ChunkCache::new(ChunkId::new(0, 0), 5);
    cache.set_capacity(Some(2));
    cache.insert(ChunkId::new(0, 0), dummy_chunk(0, 0));
    cache.insert(ChunkId::new(1, 0), dummy_chunk(1, 0));
    let _ = cache.get(ChunkId::new(0, 0));
    cache.insert(ChunkId::new(2, 0), dummy_chunk(2, 0));
    cache.evict_distant_chunks();
    assert_eq!(cache.len(), 2);
    assert!(cache.get(ChunkId::new(1, 0)).is_none());
    assert!(cache.get(ChunkId::new(0, 0)).is_some());
}

#[test]
fn capacity_lru_works_with_zero_entries() {
    let mut cache = ChunkCache::new(ChunkId::new(0, 0), 100);
    cache.set_capacity(Some(0));
    cache.insert(ChunkId::new(0, 0), dummy_chunk(0, 0));
    cache.evict_distant_chunks();
    assert!(cache.is_empty());
}

#[test]
fn chebyshev_distance_cases() {
    let a = ChunkId::new(-5, -5);
    let b = ChunkId::new(0, 0);
    assert_eq!(chebyshev(&a, &b), 5);
    assert_eq!(chebyshev(&b, &a), 5);
    assert_eq!(chebyshev(&ChunkId::new(7, -3), &ChunkId::new(7, -3)), 0);
    assert_eq!(
        chebyshev(&ChunkId::new(i32::MIN, 0), &ChunkId::new(i32::MAX, 0)),
        u32::MAX
    );
    assert_eq!(
        chebyshev(
            &ChunkId::new(i32::MIN, i32::MIN),
            &ChunkId::new(i32::MAX, i32::MAX)
        ),
        u32::MAX
    );
}

#[test]
fn distance_obeys_the_triangle() {
    let ids = [
        ChunkId::new(0, 0),
        ChunkId::new(-4, 9),
        ChunkId::new(100, -1),
        ChunkId::new(-7, -7),
    ];
    for a in &ids {
        for b in &ids {
            for c in &ids {
                assert!(
                    u64::from(chebyshev(a, c))
                        <= u64::from(chebyshev(a, b)) + u64::from(chebyshev(b, c))
                );
            }
        }
    }
}

#[test]
fn eviction_bounds_what_is_kept() {
    let mut cache = ChunkCache::new(ChunkId::new(0, 0), 1);
    for x in -4..=4 {
        for y in -4..=4 {
            cache.insert(ChunkId::new(x, y), ChunkBuffer::new(ChunkId::new(x, y), 1, 0));
        }
    }
    assert_eq!(cache.memory_bytes(), 81 * 72);
    cache.evict_distant_chunks();
    assert_eq!(cache.len(), 9);
    assert_eq!(cache.memory_bytes(), 9 * 72);
    let keys: HashSet<(i32, i32)> = cache.keys().iter().map(|k| (k.cx, k.cy)).collect();
    assert_eq!(keys.len(), 9);
    assert!(keys.iter().all(|k| k.0.abs() <= 1 && k.1.abs() <= 1));
    cache.evict_distant_chunks();
    assert_eq!(cache.len(), 9);
    cache.clear();
    assert!(cache.is_empty());
}

#[test]
fn the_newest_entries_survive() {
    let mut r: Recency<&str> = Recency::new();
    r.insert(1, "one");
    r.insert(2, "two");
    r.insert(3, "three");
    r.insert(1, "uno");
    assert!(r.touch(2));
    assert!(!r.touch(9));
    r.shrink_to(2);
    assert_eq!(r.len(), 2);
    assert_eq!(r.peek(1), Some(&"uno"));
    assert_eq!(r.peek(2), Some(&"two"));
    assert_eq!(r.peek(3), None);
    r.remove(1);
    assert!(!r.contains(1));
    let mut ks = r.keys();
    ks.sort_unstable();
    assert_eq!(ks, vec![2]);
    r.clear();
    assert!(r.is_empty());
}
