use geoq::fgb::hilbert::{hilbert, hilbert_sort_order};

// The classic level-by-level computation of the curve position on a
// 65536 x 65536 grid, used as an independent reference.
fn level_by_level(x: u32, y: u32) -> u32 {
    let n: u32 = 65536;
    let (mut x, mut y) = (x, y);
    let mut d: u64 = 0;
    let mut s = n / 2;
    while s > 0 {
        let rx = if x & s > 0 { 1u32 } else { 0 };
        let ry = if y & s > 0 { 1u32 } else { 0 };
        d += (s as u64) * (s as u64) * (((3 * rx) ^ ry) as u64);
        if ry == 0 {
            if rx == 1 {
                x = n - 1 - x;
                y = n - 1 - y;
            }
            std::mem::swap(&mut x, &mut y);
        }
        s /= 2;
    }
    d as u32
}

#[test]
fn hilbert_corners() {
    // the curve starts at the origin, runs its first cells along x = 1, y = 0
    // and ends in the lower right corner of the grid
    assert_eq!(hilbert(0, 0), 0);
    assert_eq!(hilbert(1, 0), 1);
    assert_eq!(hilbert(1, 1), 2);
    assert_eq!(hilbert(0, 1), 3);
    assert_eq!(hilbert(0, 65535), 0x5555_5555);
    assert_eq!(hilbert(65535, 65535), 0xaaaa_aaaa);
    assert_eq!(hilbert(65535, 0), u32::MAX);
}

#[test]
fn hilbert_matches_level_by_level_evaluation() {
    let mut x: u32 = 0;
    while x < 65536 {
        let mut y: u32 = 0;
        while y < 65536 {
            assert_eq!(hilbert(x, y), level_by_level(x, y), "at ({}, {})", x, y);
            y += 977;
        }
        x += 613;
    }
    for (x, y) in [(65535, 65535), (0, 65535), (32768, 32767), (12345, 54321)] {
        assert_eq!(hilbert(x, y), level_by_level(x, y));
    }
}

#[test]
fn hilbert_visits_neighbors_in_turn() {
    // consecutive positions on the curve are adjacent grid cells
    let mut cells = vec![(0u32, 0u32); 256];
    for x in 0..16u32 {
        for y in 0..16u32 {
            // a 16x16 corner of the grid holds curve positions 0..256
            let h = hilbert(x, y);
            if h < 256 {
                cells[h as usize] = (x, y);
            }
        }
    }
    for w in cells.windows(2) {
        let dx = (w[0].0 as i64 - w[1].0 as i64).abs();
        let dy = (w[0].1 as i64 - w[1].1 as i64).abs();
        assert_eq!(dx + dy, 1);
    }
}

#[test]
fn sort_order_is_stable_by_key() {
    let keys = vec![5u32, 1, 5, 0, 1];
    assert_eq!(hilbert_sort_order(&keys), vec![3, 1, 4, 0, 2]);
    assert_eq!(hilbert_sort_order(&vec![]), Vec::<usize>::new());
}

#[test]
fn hilbert_corner_square_is_a_path() {
    // The first 4096 positions fill the 64 x 64 square at the origin, each
    // cell once, and consecutive positions are neighbouring cells.
    let mut at: Vec<Option<(u32, u32)>> = vec![None; 4096];
    for x in 0..64u32 {
        for y in 0..64u32 {
            let h = hilbert(x, y) as usize;
            assert!(h < 4096);
            assert!(at[h].is_none());
            at[h] = Some((x, y));
        }
    }
    for i in 1..4096 {
        let (x1, y1) = at[i - 1].unwrap();
        let (x2, y2) = at[i].unwrap();
        assert_eq!(x1.abs_diff(x2) + y1.abs_diff(y2), 1);
    }
}
