use sg_wasm::merge::{bucket_grid, edge_merges, first_hit, BucketRange};

#[test]
fn bucket_grid_lists_covering_tiles() {
    let ranges = [
        BucketRange { gx0: 0, gx1: 1, gy0: 0, gy1: 0 },
        BucketRange { gx0: 1, gx1: 1, gy0: 0, gy1: 1 },
        BucketRange { gx0: 1, gx1: 0, gy0: 0, gy1: 1 },
    ];
    let g = bucket_grid(2, 2, &ranges);
    assert_eq!(g, vec![vec![0], vec![0, 1], vec![], vec![1]]);
}

#[test]
fn bucket_grid_single_cell() {
    let ranges = [BucketRange { gx0: 0, gx1: 0, gy0: 0, gy1: 0 }; 3];
    assert_eq!(bucket_grid(1, 1, &ranges), vec![vec![0, 1, 2]]);
    assert_eq!(bucket_grid(3, 1, &[]), vec![Vec::<u32>::new(); 3]);
}

#[test]
fn first_hit_takes_first_containing() {
    assert_eq!(first_hit(&[5, 7, 9], &[false, true, true]), Some(7));
    assert_eq!(first_hit(&[5, 7, 9], &[false, false, false]), None);
    assert_eq!(first_hit(&[], &[]), None);
}

#[test]
fn edge_merges_needs_every_probe() {
    let colors = [3usize, 3, 4];
    assert!(edge_merges(0, &[Some(1), Some(1)], &colors));
    assert!(!edge_merges(0, &[Some(1), Some(2)], &colors));
    assert!(!edge_merges(0, &[Some(0), Some(1)], &colors));
    assert!(!edge_merges(0, &[Some(1), None], &colors));
    assert!(edge_merges(2, &[], &colors));
}
