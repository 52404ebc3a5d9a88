use small_world_model::colors::{generate_colors, Rgb};
use small_world_model::partition::{
    get_neighbours, label_partitions, partition_color_map, partition_crust,
};
use std::collections::HashSet;

/// The default keep predicate: keep a cell when its value is missing
/// (NaN) or at least the threshold.
fn keep_mask(ages: &[f32], min_age_to_keep: f32) -> Vec<bool> {
    ages.iter()
        .map(|v| v.is_nan() || *v >= min_age_to_keep)
        .collect()
}

#[test]
fn test_partition_coverage() {
    // every kept cell lands in exactly one component, rejected cells in none
    let (nx, ny) = (6usize, 4usize);
    let mut ages: Vec<f32> = vec![0.0; nx * ny];
    ages[1] = 12.0;
    ages[2] = 15.0;
    ages[9] = 30.0;
    ages[15] = 11.0;
    ages[16] = f32::NAN;
    ages[23] = 99.0;
    let keep = keep_mask(&ages, 10.0);

    let patches = partition_crust(&keep, (nx, ny));
    let mut seen: Vec<usize> = vec![0; nx * ny];
    for patch in &patches {
        assert!(!patch.is_empty());
        for &c in patch {
            assert!(c < nx * ny);
            assert!(keep[c], "component contains a rejected cell");
            seen[c] += 1;
        }
    }
    for c in 0..nx * ny {
        if keep[c] {
            assert_eq!(seen[c], 1, "kept cell {} not in exactly one component", c);
        } else {
            assert_eq!(seen[c], 0, "rejected cell {} appears in a component", c);
        }
    }
}

#[test]
fn test_partition_membership_expected() {
    // row-major grid, 6 wide: cells 1 and 2 touch, cell 8 sits right
    // below cell 2, so {1, 2, 8} is one component; 4 and 13 are isolated
    let (nx, ny) = (6usize, 3usize);
    let mut keep: Vec<bool> = vec![false; nx * ny];
    keep[1] = true;
    keep[2] = true;
    keep[8] = true; // below cell 2
    keep[4] = true; // separate single cell
    keep[13] = true; // bottom row, isolated
    let patches = partition_crust(&keep, (nx, ny));
    assert_eq!(patches.len(), 3);
    let sets: Vec<HashSet<usize>> = patches
        .iter()
        .map(|p| p.iter().copied().collect())
        .collect();
    assert_eq!(sets[0], HashSet::from([1, 2, 8]));
    assert_eq!(sets[1], HashSet::from([4]));
    assert_eq!(sets[2], HashSet::from([13]));
    // components are discovered in row-major order of their seeds,
    // each listed with its seed first
    assert_eq!(patches[0][0], 1);
    assert_eq!(patches[1][0], 4);
    assert_eq!(patches[2][0], 13);
}

#[test]
fn test_partition_determinism() {
    // repeated runs produce identical membership and identical ids
    let (nx, ny) = (12usize, 8usize);
    let mut keep: Vec<bool> = vec![false; nx * ny];
    for c in [0, 1, 13, 25, 40, 41, 42, 54, 77, 89, 90, 95, 84] {
        keep[c] = true;
    }
    let first = partition_crust(&keep, (nx, ny));
    let second = partition_crust(&keep, (nx, ny));
    assert_eq!(first, second);
}

#[test]
fn test_partition_wraparound_single_component() {
    // a band crossing the antimeridian: last column adjacent to column 0
    let (nx, ny) = (8usize, 3usize);
    let mut keep: Vec<bool> = vec![false; nx * ny];
    let row = 1usize;
    keep[row * nx] = true; // column 0
    keep[row * nx + 1] = true; // column 1
    keep[row * nx + nx - 1] = true; // last column, adjacent to column 0
    keep[row * nx + nx - 2] = true;
    let patches = partition_crust(&keep, (nx, ny));
    assert_eq!(
        patches.len(),
        1,
        "a region spanning the antimeridian must be one component"
    );
    let set: HashSet<usize> = patches[0].iter().copied().collect();
    assert_eq!(
        set,
        HashSet::from([row * nx, row * nx + 1, row * nx + nx - 2, row * nx + nx - 1])
    );
}

#[test]
fn test_partition_no_pole_wrap() {
    // top and bottom rows do not wrap onto each other
    let (nx, ny) = (4usize, 3usize);
    let mut keep: Vec<bool> = vec![false; nx * ny];
    keep[0] = true; // top row
    keep[8] = true; // bottom row, same column
    let patches = partition_crust(&keep, (nx, ny));
    assert_eq!(patches.len(), 2);
}

#[test]
fn test_label_partitions_values() {
    let patches: Vec<Vec<usize>> = vec![vec![1, 2, 8], vec![4], vec![13]];
    let labels = label_partitions(&patches, 18);
    assert_eq!(labels.len(), 18);
    assert_eq!(labels[1], 0);
    assert_eq!(labels[2], 0);
    assert_eq!(labels[8], 0);
    assert_eq!(labels[4], 1);
    assert_eq!(labels[13], 2);
    // all other cells carry the reserved label, one past the last id
    for c in 0..18 {
        if ![1, 2, 8, 4, 13].contains(&c) {
            assert_eq!(labels[c], 3);
        }
    }
}

#[test]
fn test_get_neighbours_wraps_longitude() {
    // interior cell: west, east, north, south
    let n = get_neighbours((2, 1), (6, 3));
    assert_eq!(n, vec![(1, 1), (3, 1), (2, 0), (2, 2)]);
    // column 0 wraps west to the last column
    let n = get_neighbours((0, 1), (6, 3));
    assert_eq!(n, vec![(5, 1), (1, 1), (0, 0), (0, 2)]);
    // last column wraps east to column 0
    let n = get_neighbours((5, 1), (6, 3));
    assert_eq!(n, vec![(4, 1), (0, 1), (5, 0), (5, 2)]);
    // top row has no northern neighbour
    let n = get_neighbours((3, 0), (6, 3));
    assert_eq!(n, vec![(2, 0), (4, 0), (3, 1)]);
    // bottom row has no southern neighbour
    let n = get_neighbours((3, 2), (6, 3));
    assert_eq!(n, vec![(2, 2), (4, 2), (3, 1)]);
}

#[test]
fn test_partition_nan_cells_kept() {
    // NaN marks missing data, which the default predicate keeps
    let (nx, ny) = (4usize, 2usize);
    let ages: Vec<f32> = vec![f32::NAN, 5.0, 20.0, 5.0, f32::NAN, 5.0, 5.0, 5.0];
    let keep = keep_mask(&ages, 10.0);
    assert_eq!(keep, vec![true, false, true, false, true, false, false, false]);
    let patches = partition_crust(&keep, (nx, ny));
    // cells 0 and 4 are vertically adjacent; cell 2 stands alone
    assert_eq!(patches.len(), 2);
    let sets: Vec<HashSet<usize>> = patches
        .iter()
        .map(|p| p.iter().copied().collect())
        .collect();
    assert_eq!(sets[0], HashSet::from([0, 4]));
    assert_eq!(sets[1], HashSet::from([2]));
}

#[test]
fn test_partition_color_map_chained() {
    let (nx, ny) = (8usize, 3usize);
    let mut keep: Vec<bool> = vec![false; nx * ny];
    for c in [8, 9, 14, 15, 2] {
        keep[c] = true;
    }
    let (patches, labels, painted) = partition_color_map(&keep, (nx, ny));
    // cell 2 is its own component; the band through the antimeridian is one
    assert_eq!(patches.len(), 2);
    assert_eq!(labels.len(), nx * ny);
    assert_eq!(painted.len(), nx * ny);
    let colors = generate_colors(patches.len() + 1);
    for c in 0..nx * ny {
        assert!(labels[c] <= patches.len());
        assert_eq!(painted[c], colors[labels[c]]);
        if !keep[c] {
            assert_eq!(painted[c], Rgb { r: 0, g: 0, b: 0 });
        } else {
            assert!(painted[c] != (Rgb { r: 0, g: 0, b: 0 }));
        }
    }
}
