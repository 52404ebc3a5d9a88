use nalgebra::{Matrix3, Vector2, Vector3};
use small_world_model::geometry::{window_candidates, GeoGrid};
use std::f32::consts::PI;

fn d2r(a: f32) -> f32 {
    a.to_radians()
}

fn lat_of(j: usize, ny: usize) -> f32 {
    let v = (j as f32 + 0.5) / ny as f32;
    d2r(90.0 - 180.0 * v)
}

fn lon_of(i: usize, nx: usize) -> f32 {
    let u = (i as f32 + 0.5) / nx as f32;
    d2r(-180.0 + 360.0 * u)
}

fn central_angle(phi1: f32, lam1: f32, phi2: f32, lam2: f32) -> f32 {
    let dphi = phi2 - phi1;
    let dlam = (lam2 - lam1 + PI).rem_euclid(2.0 * PI) - PI;
    let s2 = (dphi * 0.5).sin().powi(2) + phi1.cos() * phi2.cos() * (dlam * 0.5).sin().powi(2);
    2.0 * s2.sqrt().asin()
}

fn neighbors_within(nx: usize, ny: usize, radius: f32, center_idx: usize, d_meters: f32) -> Vec<usize> {
    let i0 = center_idx % nx;
    let j0 = center_idx / nx;
    let phi0 = lat_of(j0, ny);
    let lam0 = lon_of(i0, nx);

    let delta = (d_meters / radius).min(PI);
    let dphi_pix = PI / ny as f32;
    let j_pad = (delta / dphi_pix).ceil() as usize;
    let cos0 = phi0.cos().abs().max(1e-6);
    let dlam_pad = (delta / cos0).min(PI);
    let dlam_pix = 2.0 * PI / nx as f32;
    let i_pad = (dlam_pad / dlam_pix).ceil() as usize;

    let j_min = j0.saturating_sub(j_pad);
    let j_max = (ny - 1).min(j0 + j_pad);
    let mut i_pads: Vec<usize> = Vec::new();
    for j in j_min..=j_max {
        let phi = lat_of(j, ny);
        let cos_loc = phi.cos().abs().max(1e-6);
        let i_pad_loc = ((delta / cos_loc).min(PI) / dlam_pix).ceil() as usize;
        i_pads.push(i_pad.min(i_pad_loc).min(nx));
    }

    let grid = GeoGrid { nx, ny };
    let candidates = window_candidates(&grid, center_idx, j_pad, &i_pads);
    candidates
        .into_iter()
        .filter(|&k| {
            let j = k / nx;
            let i = k % nx;
            let ang = central_angle(phi0, lam0, lat_of(j, ny), lon_of(i, nx));
            ang * radius <= d_meters
        })
        .collect()
}

/// Local tangent-plane least-squares gradient: project the neighbors
/// onto the tangent plane at the center, fit `value = a*x + b*y + c` by
/// normal equations, return `(a, b)` (east and north slopes per meter).
fn gradient_tangent(
    nx: usize,
    ny: usize,
    radius: f32,
    center_idx: usize,
    indices: &[usize],
    values: &[f32],
) -> Option<Vector2<f32>> {
    if indices.len() < 3 {
        return None;
    }

    let (j0, i0) = (center_idx / nx, center_idx % nx);
    let phi0 = lat_of(j0, ny);
    let lam0 = lon_of(i0, nx);

    let n = Vector3::new(phi0.cos() * lam0.cos(), phi0.cos() * lam0.sin(), phi0.sin());
    let e_east = Vector3::new(-lam0.sin(), lam0.cos(), 0.0);
    let e_north = n.cross(&e_east);

    let mut sx = 0.0;
    let mut sy = 0.0;
    let mut sz = 0.0;
    let mut sxx = 0.0;
    let mut syy = 0.0;
    let mut sxy = 0.0;
    let mut sxz = 0.0;
    let mut syz = 0.0;
    let mut wsum = 0.0;

    for &idx in indices.iter() {
        let val = values[idx];
        let j = idx / nx;
        let i = idx % nx;
        let phi = lat_of(j, ny);
        let lam = lon_of(i, nx);

        let p = Vector3::new(phi.cos() * lam.cos(), phi.cos() * lam.sin(), phi.sin());
        let v = radius * (p - n * (p.dot(&n)));
        let x = v.dot(&e_east);
        let y = v.dot(&e_north);

        let w = 1.0;
        sx += w * x;
        sy += w * y;
        sz += w * val;
        sxx += w * x * x;
        syy += w * y * y;
        sxy += w * x * y;
        sxz += w * x * val;
        syz += w * y * val;
        wsum += w;
    }

    let m = Matrix3::new(sxx, sxy, sx, sxy, syy, sy, sx, sy, wsum);
    let b = Vector3::new(sxz, syz, sz);

    let sol = m.try_inverse().map(|inv| inv * b)?;
    Some(Vector2::new(sol.x, sol.y))
}

fn gradient_magnitude_bearing(g: Vector2<f32>) -> (f32, f32) {
    let mag = g.norm();
    let bearing = g.x.atan2(g.y);
    (mag, bearing)
}

#[test]
fn test_gradient_flat_plane() {
    let (nx, ny) = (360usize, 180usize);
    let radius = 6_371_000.0f32;
    let center = (ny / 2) * nx + (nx / 2);
    let neighbors = neighbors_within(nx, ny, radius, center, 1_000_000.0);
    assert!(neighbors.len() >= 3, "too few neighbors found");

    let mut values: Vec<f32> = vec![0.0; nx * ny];
    for &k in &neighbors {
        values[k] = 42.0;
    }

    let g = gradient_tangent(nx, ny, radius, center, &neighbors, &values)
        .expect("gradient should compute");

    let (mag, bearing) = gradient_magnitude_bearing(g);

    assert!(
        mag.abs() < 1e-8,
        "gradient magnitude should be zero, got {}",
        mag
    );
    assert!(
        bearing.is_finite() && bearing.abs() <= PI,
        "bearing should be finite and within [-\u{3c0}, \u{3c0}], got {}",
        bearing
    );
}

#[test]
fn test_gradient_east_west_increase() {
    let (nx, ny) = (360usize, 180usize);
    let radius = 6_371_000.0f32;
    let center = (ny / 2) * nx + (nx / 2); // near 0 deg, 0 deg
    let neighbors = neighbors_within(nx, ny, radius, center, 1_000_000.0);
    assert!(neighbors.len() >= 3, "too few neighbors found");

    // value increases 1 unit per degree east, constant in latitude
    let mut values: Vec<f32> = vec![0.0; nx * ny];
    for &k in &neighbors {
        values[k] = lon_of(k % nx, nx).to_degrees();
    }

    let g = gradient_tangent(nx, ny, radius, center, &neighbors, &values)
        .expect("gradient should compute");

    let (mag, bearing) = gradient_magnitude_bearing(g);

    // expect strong eastward slope (bearing ~ 90 deg)
    let bearing_deg = bearing.to_degrees();
    assert!(mag > 0.0, "expected positive slope magnitude, got {}", mag);
    assert!(
        (bearing_deg - 90.0).abs() < 5.0 || (bearing_deg + 270.0).abs() < 5.0,
        "expected bearing \u{2248} 90\u{b0}, got {}\u{b0}",
        bearing_deg
    );
}

#[test]
fn test_gradient_north_south_increase() {
    let (nx, ny) = (360usize, 180usize);
    let radius = 6_371_000.0f32;
    let center = (ny / 2) * nx + (nx / 2); // near 0 deg, 0 deg
    let neighbors = neighbors_within(nx, ny, radius, center, 1_000_000.0);
    assert!(neighbors.len() >= 3, "too few neighbors found");

    // value increases 1 unit per degree north, constant in longitude
    let mut values: Vec<f32> = vec![0.0; nx * ny];
    for &k in &neighbors {
        values[k] = lat_of(k / nx, ny).to_degrees();
    }

    let g = gradient_tangent(nx, ny, radius, center, &neighbors, &values)
        .expect("gradient should compute");

    let (mag, bearing) = gradient_magnitude_bearing(g);

    let bearing_deg = bearing.to_degrees();

    // expect strong northward slope (bearing ~ 0 deg)
    assert!(mag > 0.0, "expected positive slope magnitude, got {}", mag);
    assert!(
        bearing_deg.abs() < 5.0 || (bearing_deg - 360.0).abs() < 5.0,
        "expected bearing \u{2248} 0\u{b0}, got {}\u{b0}",
        bearing_deg
    );
}
