use c64_dither::matcher::{rgbv_error_table, Candidate};
use c64_dither::order::sort_stably;
use c64_dither::palette::{c64_palette_all_3b, palette_color};

#[test]
fn error_table_is_sorted_by_distance() {
    let distances = [90, 10, 80, 20, 70, 30, 60, 40, 50, 55, 45, 65, 35, 75, 25, 85];
    let table = rgbv_error_table(&distances);
    let entries: Vec<usize> = table.iter().map(|c| c.entry).collect();
    assert_eq!(entries, vec![1, 3, 14, 5, 12, 7, 10, 8, 9, 6, 11, 4, 13, 2, 15, 0]);
    for i in 1..16 {
        assert!(table[i - 1].distance <= table[i].distance);
    }
}

#[test]
fn error_table_keeps_each_entry_with_its_colour_and_distance() {
    let distances = [5, 4, 3, 2, 1, 0, 15, 14, 13, 12, 11, 10, 9, 8, 7, 6];
    let table = rgbv_error_table(&distances);
    assert_eq!(table.len(), 16);
    for c in table.iter() {
        assert_eq!(c.distance, distances[c.entry]);
        assert_eq!(c.color, palette_color(c.entry));
    }
    assert_eq!(table[0].entry, 5);
    assert_eq!(table[0].distance, 0);
}

#[test]
fn error_table_breaks_ties_by_palette_order() {
    let distances = [7, 3, 7, 3, 7, 3, 7, 3, 7, 3, 7, 3, 7, 3, 7, 3];
    let table = rgbv_error_table(&distances);
    let entries: Vec<usize> = table.iter().map(|c| c.entry).collect();
    assert_eq!(entries, vec![1, 3, 5, 7, 9, 11, 13, 15, 0, 2, 4, 6, 8, 10, 12, 14]);
}

#[test]
fn best_match_of_equal_distances_is_the_first_entry() {
    let table = rgbv_error_table(&[42; 16]);
    assert_eq!(table[0].entry, 0);
    let entries: Vec<usize> = table.iter().map(|c| c.entry).collect();
    assert_eq!(entries, (0..16).collect::<Vec<usize>>());
}

#[test]
fn best_match_is_the_first_of_the_least() {
    let mut distances = [100; 16];
    distances[9] = 1;
    distances[12] = 1;
    let table = rgbv_error_table(&distances);
    assert_eq!(table[0].entry, 9);
    assert_eq!(table[1].entry, 12);
    assert_eq!(table[2].entry, 0);
}

#[test]
fn matching_is_deterministic() {
    let distances = [3, 1, 4, 1, 5, 9, 2, 6, 5, 3, 5, 8, 9, 7, 9, 3];
    let first = rgbv_error_table(&distances);
    let second = rgbv_error_table(&distances);
    assert_eq!(first, second);
}

#[test]
fn matching_never_leaves_the_palette() {
    let palette = c64_palette_all_3b();
    for seed in 0..50u32 {
        let mut distances = [0u32; 16];
        for i in 0..16 {
            distances[i] = (seed.wrapping_mul(2654435761).wrapping_add(i as u32 * 40503)) % 97;
        }
        let table = rgbv_error_table(&distances);
        for c in table.iter() {
            assert!(palette.contains(&c.color));
        }
    }
}

#[test]
fn handles_the_largest_distances() {
    let mut distances = [u32::MAX; 16];
    distances[15] = u32::MAX - 1;
    let table = rgbv_error_table(&distances);
    assert_eq!(table[0].entry, 15);
    assert_eq!(table[1].entry, 0);
}

#[test]
fn sort_stably_keeps_equal_ranks_in_order() {
    let p = palette_color(0);
    let mut v = vec![
        Candidate { distance: 2, entry: 0, color: p },
        Candidate { distance: 1, entry: 1, color: p },
        Candidate { distance: 2, entry: 2, color: p },
        Candidate { distance: 1, entry: 3, color: p },
        Candidate { distance: 0, entry: 4, color: p },
    ];
    sort_stably(&mut v);
    let entries: Vec<usize> = v.iter().map(|c| c.entry).collect();
    assert_eq!(entries, vec![4, 1, 3, 0, 2]);
}

#[test]
fn sort_stably_of_nothing_is_nothing() {
    let mut v: Vec<Candidate> = Vec::new();
    sort_stably(&mut v);
    assert!(v.is_empty());
}
