use small_world_model::geometry::{window_candidates, wrap_i, GeoGrid};
use std::collections::HashSet;
use std::f32::consts::PI;

/// Degrees to radians.
fn d2r(a: f32) -> f32 {
    a.to_radians()
}

/// Pixel-center latitude of row `j` (top row at +90 degrees).
fn lat_of(j: usize, ny: usize) -> f32 {
    let v = (j as f32 + 0.5) / ny as f32;
    d2r(90.0 - 180.0 * v)
}

/// Pixel-center longitude of column `i` (column 0 at -180 degrees).
fn lon_of(i: usize, nx: usize) -> f32 {
    let u = (i as f32 + 0.5) / nx as f32;
    d2r(-180.0 + 360.0 * u)
}

/// Great-circle central angle via the haversine formula.
fn central_angle(phi1: f32, lam1: f32, phi2: f32, lam2: f32) -> f32 {
    let dphi = phi2 - phi1;
    let dlam = (lam2 - lam1 + PI).rem_euclid(2.0 * PI) - PI;
    let s2 = (dphi * 0.5).sin().powi(2) + phi1.cos() * phi2.cos() * (dlam * 0.5).sin().powi(2);
    2.0 * s2.sqrt().asin()
}

/// The bounded neighbor query: a latitude/longitude bounding box from
/// the library's verified window enumeration, then the exact
/// great-circle distance check on each candidate.
fn neighbors_within(nx: usize, ny: usize, radius: f32, center_idx: usize, d_meters: f32) -> Vec<usize> {
    let i0 = center_idx % nx;
    let j0 = center_idx / nx;
    let phi0 = lat_of(j0, ny);
    let lam0 = lon_of(i0, nx);

    let delta = (d_meters / radius).min(PI);
    let dphi_pix = PI / ny as f32;
    let j_pad = (delta / dphi_pix).ceil() as usize;
    let cos0 = phi0.cos().abs().max(1e-6);
    let dlam_pad = (delta / cos0).min(PI);
    let dlam_pix = 2.0 * PI / nx as f32;
    let i_pad = (dlam_pad / dlam_pix).ceil() as usize;

    let j_min = j0.saturating_sub(j_pad);
    let j_max = (ny - 1).min(j0 + j_pad);
    let mut i_pads: Vec<usize> = Vec::new();
    for j in j_min..=j_max {
        let phi = lat_of(j, ny);
        let cos_loc = phi.cos().abs().max(1e-6);
        let i_pad_loc = ((delta / cos_loc).min(PI) / dlam_pix).ceil() as usize;
        i_pads.push(i_pad.min(i_pad_loc).min(nx));
    }

    let grid = GeoGrid { nx, ny };
    let candidates = window_candidates(&grid, center_idx, j_pad, &i_pads);
    candidates
        .into_iter()
        .filter(|&k| {
            let j = k / nx;
            let i = k % nx;
            let ang = central_angle(phi0, lam0, lat_of(j, ny), lon_of(i, nx));
            ang * radius <= d_meters
        })
        .collect()
}

fn idx_at(nx: usize, ny: usize, lat_deg: f32, lon_deg: f32) -> usize {
    let j = ((90.0 - lat_deg) / 180.0 * ny as f32).floor() as usize;
    let i = ((lon_deg + 180.0) / 360.0 * nx as f32).floor() as usize;
    j * nx + i
}

#[test]
fn test_neighbors_within_various_latitudes() {
    let (nx, ny) = (360usize, 180usize);
    let radius = 6_371_000.0f32;
    let d = 500_000.0f32; // 500 km search radius

    let equator_idx = idx_at(nx, ny, 0.0, 0.0);
    let mid_idx = idx_at(nx, ny, 45.0, 0.0);
    let pole_idx = idx_at(nx, ny, 89.5, 0.0); // near north pole

    for (name, idx) in [
        ("equator", equator_idx),
        ("mid", mid_idx),
        ("pole", pole_idx),
    ] {
        let neighbors = neighbors_within(nx, ny, radius, idx, d);
        println!("{}: {} neighbors", name, neighbors.len());
        assert!(!neighbors.is_empty());
        // sanity: all results should be within the given distance
        for &k in &neighbors {
            let j = k / nx;
            let i = k % nx;
            let ang = central_angle(
                lat_of(j, ny),
                lon_of(i, nx),
                lat_of(idx / nx, ny),
                lon_of(idx % nx, nx),
            );
            assert!(ang * radius <= d * 1.01);
        }
    }
}

#[test]
fn test_neighbors_exhaustive_coverage() {
    let (nx, ny) = (90usize, 45usize);
    let radius = 6_371_000.0f32;
    let d = 1_000_000.0f32; // 1000 km

    let idx = idx_at(nx, ny, 45.0, 0.0);

    let neighbors = neighbors_within(nx, ny, radius, idx, d);
    let set: HashSet<usize> = neighbors.iter().copied().collect();

    // now brute-force compute all grid points actually within D
    let (j0, i0) = (idx / nx, idx % nx);
    let phi0 = lat_of(j0, ny);
    let lam0 = lon_of(i0, nx);

    let mut missing: Vec<(usize, usize, f32)> = Vec::new();
    for j in 0..ny {
        let phi = lat_of(j, ny);
        for i in 0..nx {
            let lam = lon_of(i, nx);
            let ang = central_angle(phi0, lam0, phi, lam);
            let dist = ang * radius;
            if dist <= d && !set.contains(&(j * nx + i)) {
                missing.push((i, j, dist));
            }
        }
    }

    if !missing.is_empty() {
        for (i, j, dist) in &missing[..missing.len().min(10)] {
            println!("missing i={}, j={}, dist={:.1} m", i, j, dist);
        }
    }
    assert!(
        missing.is_empty(),
        "Found {} missing points within great-circle distance D",
        missing.len()
    );
}

#[test]
fn test_neighbors_no_duplicates_half_globe() {
    // an angular radius close to half the globe saturates the column
    // windows; the result must still repeat no index
    let (nx, ny) = (36usize, 18usize);
    let radius = 6_371_000.0f32;
    let d = PI * radius * 0.98;

    for &idx in &[0usize, nx / 2, (ny / 2) * nx + nx / 2, nx * ny - 1] {
        let neighbors = neighbors_within(nx, ny, radius, idx, d);
        let set: HashSet<usize> = neighbors.iter().copied().collect();
        assert_eq!(set.len(), neighbors.len(), "duplicate index in result");
        assert!(!neighbors.is_empty());
    }
}

#[test]
fn test_end_to_end_equator_query() {
    // fine grid: 1 degree resolution, 500 km bound at the equator
    let radius = 6_371_000.0f32;
    let d = 500_000.0f32;
    let (nx, ny) = (360usize, 180usize);
    let idx = idx_at(nx, ny, 0.0, 0.0);
    let neighbors = neighbors_within(nx, ny, radius, idx, d);
    assert!(!neighbors.is_empty());
    let phi0 = lat_of(idx / nx, ny);
    let lam0 = lon_of(idx % nx, nx);
    for &k in &neighbors {
        let ang = central_angle(phi0, lam0, lat_of(k / nx, ny), lon_of(k % nx, nx));
        assert!(ang * radius <= 505_000.0);
    }

    // coarse grid: the bounded query matches a brute-force scan exactly
    let (cnx, cny) = (90usize, 45usize);
    let cidx = idx_at(cnx, cny, 0.0, 0.0);
    let bounded: HashSet<usize> = neighbors_within(cnx, cny, radius, cidx, d)
        .into_iter()
        .collect();
    let cphi0 = lat_of(cidx / cnx, cny);
    let clam0 = lon_of(cidx % cnx, cnx);
    let mut brute: HashSet<usize> = HashSet::new();
    for j in 0..cny {
        for i in 0..cnx {
            let ang = central_angle(cphi0, clam0, lat_of(j, cny), lon_of(i, cnx));
            if ang * radius <= d {
                brute.insert(j * cnx + i);
            }
        }
    }
    assert_eq!(bounded, brute);
}

#[test]
fn test_wrap_i_values() {
    assert_eq!(wrap_i(0, 360), 0);
    assert_eq!(wrap_i(-1, 360), 359);
    assert_eq!(wrap_i(360, 360), 0);
    assert_eq!(wrap_i(-361, 360), 359);
    assert_eq!(wrap_i(725, 360), 5);
    assert_eq!(wrap_i(-725, 360), 355);
}
