use kardashev::chunk::{Chunk, HeightMap, CHUNK_AREA, CHUNK_VOLUME};
use kardashev::world::chunk_range;

#[test]
fn flat_chunk_has_a_solid_floor() {
    let c = Chunk::new_flat();
    assert_eq!(c.block(0, 0, 0), 1);
    assert_eq!(c.block(15, 0, 15), 1);
    assert_eq!(c.block(3, 1, 4), 0);
    assert_eq!(c.block(15, 15, 15), 0);
    assert_eq!(c.blocks().iter().filter(|b| **b != 0).count(), 256);
}

#[test]
fn heights_fill_columns_up_to_and_including_the_height() {
    let mut heights: HeightMap = [0u8; CHUNK_AREA];
    heights[2 + 16 * 5] = 7;
    heights[15 + 16 * 15] = 200;
    let c = Chunk::from_heights(&heights);
    for y in 0..16 {
        assert_eq!(c.block(2, y, 5), if y <= 7 { 1 } else { 0 });
        assert_eq!(c.block(15, y, 15), 1);
        assert_eq!(c.block(0, y, 0), if y == 0 { 1 } else { 0 });
    }
    assert_eq!(c.blocks().iter().filter(|b| **b != 0).count(), 254 + 8 + 16);
}

#[test]
fn cells_are_walked_x_first_then_z_then_y() {
    let c = Chunk::new_flat();
    let mut it = c.iter();
    assert_eq!(it.next(), Some(((0, 0, 0), 1)));
    assert_eq!(it.next(), Some(((1, 0, 0), 1)));
    for _ in 2..16 {
        it.next();
    }
    assert_eq!(it.next(), Some(((0, 0, 1), 1)));
    for _ in 17..256 {
        it.next();
    }
    assert_eq!(it.next(), Some(((0, 1, 0), 0)));
    let mut rest = 257;
    while it.next().is_some() {
        rest += 1;
    }
    assert_eq!(rest, CHUNK_VOLUME);
    assert_eq!(it.next(), None);
}

#[test]
fn walk_restarts_from_the_first_cell() {
    let c = Chunk::new_flat();
    let mut a = c.iter();
    a.next();
    a.next();
    let mut b = c.iter();
    assert_eq!(b.next(), Some(((0, 0, 0), 1)));
}

#[test]
fn range_is_the_sorted_cube() {
    let r = chunk_range((0, 0, 0), 1);
    assert_eq!(r.len(), 27);
    assert_eq!(r[0], (-1, -1, -1));
    assert_eq!(r[1], (-1, -1, 0));
    assert_eq!(r[26], (1, 1, 1));
    let mut sorted = r.clone();
    sorted.sort();
    sorted.dedup();
    assert_eq!(sorted, r);
    assert_eq!(chunk_range((4, -9, 2), 3).len(), 343);
    assert_eq!(chunk_range((4, -9, 2), 0), vec![(4, -9, 2)]);
}

#[test]
fn range_at_the_edge_of_the_grid() {
    let r = chunk_range((i32::MAX - 1, i32::MIN + 1, 0), 1);
    assert_eq!(r.len(), 27);
    assert_eq!(r[0], (i32::MAX - 2, i32::MIN, -1));
    assert_eq!(r[26], (i32::MAX, i32::MIN + 2, 1));
}

#[test]
fn same_heights_give_same_blocks() {
    let mut heights: HeightMap = [0u8; CHUNK_AREA];
    for i in 0..CHUNK_AREA {
        heights[i] = (i % 13) as u8;
    }
    let a = Chunk::from_heights(&heights);
    let b = Chunk::from_heights(&heights);
    assert!(a.blocks() == b.blocks());
}

#[test]
fn higher_columns_keep_cells_solid() {
    let mut low: HeightMap = [0u8; CHUNK_AREA];
    let mut high: HeightMap = [0u8; CHUNK_AREA];
    for i in 0..CHUNK_AREA {
        low[i] = (i % 9) as u8;
        high[i] = low[i] + (i % 3) as u8;
    }
    let a = Chunk::from_heights(&low);
    let b = Chunk::from_heights(&high);
    for i in 0..CHUNK_VOLUME {
        if a.blocks()[i] != 0 {
            assert_ne!(b.blocks()[i], 0);
        }
    }
    assert!(b.blocks().iter().filter(|x| **x != 0).count() > a.blocks().iter().filter(|x| **x != 0).count());
}
