use osm_soa_bake::tms::{
    cell_to_morton, demorton64, mean_cell, morton64, morton_to_cell, osm_grid_is_representable,
    tiers_of, xyz_to_tms_y, Tiers, TileXy, HHTL_DEPTH4,
};

const PI: f64 = std::f64::consts::PI;
const N32: f64 = 4_294_967_296.0;
const OSM_GRID_PER_DEGREE: f64 = 1e7;

/// The slippy-tile cell of a longitude and latitude at zoom `z`.
fn lonlat_to_tile(lon: f64, lat: f64, z: u32) -> (u32, u32) {
    let n = (1u64 << z.min(32)) as f64;
    let x = ((lon + 180.0) / 360.0 * n).floor();
    let lat_rad = lat.clamp(-85.051_128_78, 85.051_128_78).to_radians();
    let merc_y = (lat_rad.tan() + 1.0 / lat_rad.cos()).ln();
    let y = ((1.0 - merc_y / std::f64::consts::PI) / 2.0 * n).floor();
    let max = n - 1.0;
    (x.clamp(0.0, max) as u32, y.clamp(0.0, max) as u32)
}

fn point_to_cell(lon: f64, lat: f64) -> TileXy {
    let (x, y_xyz) = lonlat_to_tile(lon, lat, 32);
    TileXy { x, y_xyz }
}

fn point_to_tms_morton(lon: f64, lat: f64) -> u64 {
    cell_to_morton(point_to_cell(lon, lat))
}

fn point_to_tiers(lon: f64, lat: f64) -> (u64, Tiers) {
    let code = point_to_tms_morton(lon, lat);
    (code, tiers_of(code))
}

fn osm_grid_to_morton(lon_e7: i32, lat_e7: i32) -> u64 {
    point_to_tms_morton(
        f64::from(lon_e7) / OSM_GRID_PER_DEGREE,
        f64::from(lat_e7) / OSM_GRID_PER_DEGREE,
    )
}

/// The published coordinate nearest the centre of a key's cell.
fn morton_to_osm_grid(code: u64) -> (i32, i32) {
    let c = morton_to_cell(code);
    let lon = (f64::from(c.x) + 0.5) / N32 * 360.0 - 180.0;
    let lat = (PI * (1.0 - 2.0 * (f64::from(c.y_xyz) + 0.5) / N32))
        .sinh()
        .atan()
        .to_degrees();
    (
        (lon * OSM_GRID_PER_DEGREE).round() as i32,
        (lat * OSM_GRID_PER_DEGREE).round() as i32,
    )
}

#[test]
fn tms_y_flip_is_its_own_inverse() {
    for z in [0u32, 4, 12, 20, 32] {
        for y in [0u32, 1, 7, 100] {
            let n = 1u64 << z;
            if u64::from(y) < n {
                assert_eq!(xyz_to_tms_y(z, xyz_to_tms_y(z, y)), y);
            }
        }
    }
}

#[test]
fn tms_key_differs_from_xyz_off_the_equator_row() {
    // The ratified difference this module exists to preserve (Q2/Q3). If
    // these ever coincide the Y-flip has been lost.
    let (x, y) = lonlat_to_tile(13.404954, 52.520008, HHTL_DEPTH4);
    let xyz = morton64(x, y);
    let tms = point_to_tms_morton(13.404954, 52.520008);
    assert_ne!(
        tms, xyz,
        "TMS and XYZ keys must diverge off the equator row"
    );
}

#[test]
fn morton_prefix_is_tile_containment() {
    // Two points in the same coarse tile share the HEEL tier; two points
    // far apart do not. This is the trie property the whole design rests on.
    let (_, a) = point_to_tiers(13.404954, 52.520008); // Berlin Mitte
    let (_, b) = point_to_tiers(13.404960, 52.520010); // ~0.4 m away
    let (_, c) = point_to_tiers(-122.3472, 47.598); // Seattle
    assert_eq!(a.heel, b.heel);
    assert_eq!(a.hip, b.hip);
    assert_ne!(a.heel, c.heel);
}

#[test]
fn tiers_roundtrip_the_morton_code() {
    let code = point_to_tms_morton(13.404954, 52.520008);
    let t = tiers_of(code);
    let back = (u64::from(t.heel) << 48)
        | (u64::from(t.hip) << 32)
        | (u64::from(t.twig) << 16)
        | u64::from(t.leaf);
    assert_eq!(code, back);
}

/// One OSM grid point through the whole key and back out again.
fn grid_roundtrip(lon_e7: i32, lat_e7: i32) {
    let code = osm_grid_to_morton(lon_e7, lat_e7);
    assert_eq!(
        morton_to_osm_grid(code),
        (lon_e7, lat_e7),
        "the key lost the OSM coordinate ({lon_e7}, {lat_e7})"
    );
}

#[test]
fn a_cell_round_trips_through_the_key_with_no_float_at_all() {
    // The derived-anchor contract: cell → key → cell is the identity, by
    // integer arithmetic. This is what upgrades the way/relation check from
    // "within one grid step" to `assert_eq!`.
    for c in [
        TileXy { x: 0, y_xyz: 0 },
        TileXy { x: 1, y_xyz: 0 },
        TileXy { x: 0, y_xyz: 1 },
        TileXy {
            x: u32::MAX,
            y_xyz: u32::MAX,
        },
        point_to_cell(13.404_954, 52.520_008),
        point_to_cell(-122.3472, 47.598),
    ] {
        assert_eq!(morton_to_cell(cell_to_morton(c)), c);
    }
    // …and it agrees with the float path for a real coordinate, so the two
    // entry points cannot drift apart.
    let (lon, lat) = (13.404_954, 52.520_008);
    assert_eq!(
        cell_to_morton(point_to_cell(lon, lat)),
        point_to_tms_morton(lon, lat)
    );
}

#[test]
fn the_integer_centroid_is_a_grid_point_and_rounds_half_up() {
    // A single member is its own centroid.
    let a = TileXy { x: 10, y_xyz: 20 };
    assert_eq!(mean_cell(&[a]), Some(a));

    // Two members average exactly.
    let b = TileXy { x: 20, y_xyz: 40 };
    assert_eq!(mean_cell(&[a, b]), Some(TileXy { x: 15, y_xyz: 30 }));

    // The rounding rule is HALF UP, and it is genuinely exercised: 10 and
    // 11 average to 10.5. Floor would give 10; the contract says 11.
    let c = TileXy { x: 11, y_xyz: 21 };
    assert_eq!(
        mean_cell(&[a, c]),
        Some(TileXy { x: 11, y_xyz: 21 }),
        "half-up: 10.5 -> 11, not 10"
    );

    // Empty means no anchor, never (0, 0) — which would sit off West
    // Africa and read as a valid position.
    assert_eq!(mean_cell(&[]), None);
}

#[test]
fn the_integer_centroid_does_not_overflow_at_the_top_of_the_grid() {
    // Every member at the maximum cell: a u32-summing implementation would
    // wrap here and place the anchor near the origin.
    let top = TileXy {
        x: u32::MAX,
        y_xyz: u32::MAX,
    };
    let many = vec![top; 4096];
    assert_eq!(mean_cell(&many), Some(top));
    // Mixed extremes average without wrapping either.
    let mixed = vec![top, TileXy { x: 0, y_xyz: 0 }];
    assert_eq!(
        mean_cell(&mixed),
        Some(TileXy {
            x: 2_147_483_648,
            y_xyz: 2_147_483_648
        })
    );
}

#[test]
fn morton_deinterleave_is_the_exact_inverse() {
    // Everything below rests on this; a lane that does not come back out
    // makes every position claim vacuous.
    for (x, y) in [
        (0u32, 0u32),
        (1, 0),
        (0, 1),
        (u32::MAX, 0),
        (0, u32::MAX),
        (u32::MAX, u32::MAX),
        (0x1234_5678, 0x9abc_def0),
        (0xdead_beef, 0x0bad_f00d),
    ] {
        assert_eq!(demorton64(morton64(x, y)), (x, y));
    }
}

/// The lanes interleaved bit by bit.
fn morton64_scalar_reference(x: u32, y: u32) -> u64 {
    let mut code = 0u64;
    for i in 0..HHTL_DEPTH4 {
        code |= u64::from((x >> i) & 1) << (2 * i);
        code |= u64::from((y >> i) & 1) << (2 * i + 1);
    }
    code
}

fn demorton64_scalar_reference(code: u64) -> (u32, u32) {
    let mut x = 0u32;
    let mut y = 0u32;
    for i in 0..HHTL_DEPTH4 {
        x |= (((code >> (2 * i)) & 1) as u32) << i;
        y |= (((code >> (2 * i + 1)) & 1) as u32) << i;
    }
    (x, y)
}

/// A small deterministic generator, so that a failure can be repeated.
fn splitmix64(state: &mut u64) -> u64 {
    *state = state.wrapping_add(0x9E37_79B9_7F4A_7C15);
    let mut z = *state;
    z = (z ^ (z >> 30)).wrapping_mul(0xBF58_476D_1CE4_E5B9);
    z = (z ^ (z >> 27)).wrapping_mul(0x94D0_49BB_1331_11EB);
    z ^ (z >> 31)
}

/// The masked interleave agrees with the bit-by-bit one.
#[test]
fn morton_fast_matches_the_scalar_reference() {
    let boundary_pairs = [
        (0u32, 0u32),
        (u32::MAX, u32::MAX),
        (u32::MAX, 0),
        (0, u32::MAX),
        (0xAAAA_AAAA, 0x5555_5555),
        (0x5555_5555, 0xAAAA_AAAA),
        (1, 1 << 31),
        (1 << 31, 1),
    ];
    for (x, y) in boundary_pairs {
        assert_eq!(
            morton64(x, y),
            morton64_scalar_reference(x, y),
            "morton64({x:#010x}, {y:#010x}) diverged from the scalar reference"
        );
    }
    let boundary_codes = [0u64, u64::MAX, 0xAAAA_AAAA_AAAA_AAAA, 0x5555_5555_5555_5555];
    for code in boundary_codes {
        assert_eq!(
            demorton64(code),
            demorton64_scalar_reference(code),
            "demorton64({code:#018x}) diverged from the scalar reference"
        );
    }

    let mut state = 0x2026_0812_u64; // fixed seed — reproducible on failure
    for _ in 0..200_000 {
        let x = splitmix64(&mut state) as u32;
        let y = splitmix64(&mut state) as u32;
        assert_eq!(
            morton64(x, y),
            morton64_scalar_reference(x, y),
            "morton64({x:#010x}, {y:#010x}) diverged from the scalar reference"
        );
        let code = splitmix64(&mut state);
        assert_eq!(
            demorton64(code),
            demorton64_scalar_reference(code),
            "demorton64({code:#018x}) diverged from the scalar reference"
        );
    }
}

#[test]
fn osm_grid_points_survive_the_key_exactly() {
    // OSM parity, measured: a `.osm.pbf` coordinate is an integer number
    // of 1e-7 degrees, and the z=32 key must hand back THAT INTEGER — not
    // a millimetre-close neighbour. If this fails, "identical data to OSM"
    // needs a position lane and the key alone is not enough.
    let lats_e7 = [
        0, // the equator — the widest Mercator cell, worst case
        1, // one grid step off it
        -1,
        525_200_080,  // Berlin
        -338_688_000, // Sydney
        600_000_000,
        -600_000_000,
        800_000_000, // deep in the band, cells are tiny here
        850_000_000, // just inside the Mercator limit
    ];
    let lons_e7 = [
        0,
        1,
        -1,
        134_049_540, // Berlin
        1_799_999_999,
        -1_799_999_999,
        -1_223_472_000,
    ];
    for &lat in &lats_e7 {
        for &lon in &lons_e7 {
            grid_roundtrip(lon, lat);
        }
    }
}

#[test]
fn consecutive_grid_points_stay_distinct_along_the_equator() {
    // The equator is where Mercator cells are widest, so it is where two
    // adjacent OSM coordinates are likeliest to collapse into one cell.
    // Sweep a contiguous run of real grid points in both axes and assert
    // both distinctness (no two share a key) and exact recovery.
    let mut seen = std::collections::HashSet::new();
    for step in 0..4_000i32 {
        let lon = 134_049_540 + step;
        let code = osm_grid_to_morton(lon, 0);
        assert!(seen.insert(code), "two OSM longitudes share one cell");
        assert_eq!(morton_to_osm_grid(code), (lon, 0));
    }
    seen.clear();
    for step in 0..4_000i32 {
        let lat = step - 2_000;
        let code = osm_grid_to_morton(134_049_540, lat);
        assert!(seen.insert(code), "two OSM latitudes share one cell");
        assert_eq!(morton_to_osm_grid(code), (134_049_540, lat));
    }
}

#[test]
fn a_coarser_key_would_lose_the_coordinate() {
    // Can-fail half: the exactness above is a property of z=32, not of the
    // method. One level coarser and the cell (1.68e-7 deg) is wider than
    // OSM's own step (1.00e-7), so adjacent published coordinates must
    // collide. Without this, the passing tests would read as "any quadkey
    // carries OSM positions", which is false.
    let a = lonlat_to_tile(13.404_954_0, 0.0, 31);
    let b = lonlat_to_tile(13.404_954_1, 0.0, 31);
    assert_eq!(a, b, "z=31 must merge two distinct OSM longitudes");
    // …and z=32 must not.
    let a32 = lonlat_to_tile(13.404_954_0, 0.0, HHTL_DEPTH4);
    let b32 = lonlat_to_tile(13.404_954_1, 0.0, HHTL_DEPTH4);
    assert_ne!(a32, b32, "z=32 must separate them");
}

#[test]
fn the_equator_fit_is_tight_and_the_margin_is_measured() {
    // Not "it passes" but "by how much" — the headroom is 16%, so a future
    // change to the grid (a zoom, a projection, a granularity) that eats
    // it silently breaks parity. This pins the number.
    let lon_step_deg = 360.0 / N32;
    let osm_step_deg = 1.0 / OSM_GRID_PER_DEGREE;
    let ratio = lon_step_deg / osm_step_deg;
    assert!(
        (0.83..0.84).contains(&ratio),
        "cell/step ratio moved: {ratio}"
    );
    // Worst-case centre offset is half a cell; it must clear the half-step
    // that decides the nearest grid point — but only just.
    assert!(lon_step_deg / 2.0 < osm_step_deg / 2.0);
}

#[test]
fn beyond_the_mercator_band_the_key_cannot_carry_the_position() {
    // The honest boundary. Inside the band, parity; outside it the tile
    // clamps and distinct Arctic coordinates share one key. A bake that
    // covers those latitudes needs a position lane, and this test is where
    // that is written down rather than discovered.
    let inside = 850_000_000; // 85.0000000 deg
    let outside = 860_000_000; // 86.0000000 deg
    assert!(osm_grid_is_representable(inside));
    assert!(!osm_grid_is_representable(outside));

    grid_roundtrip(134_049_540, inside);

    let a = osm_grid_to_morton(134_049_540, outside);
    let b = osm_grid_to_morton(134_049_540, outside + 10_000_000); // 87 deg
    assert_eq!(a, b, "outside the band the key stops discriminating");
}

#[test]
fn key_recovers_the_coordinate_to_millimetres() {
    // The measured claim in the module doc, as a test: the z=32 key is a
    // lossless-enough carrier of a GNSS-grade coordinate.
    let (lon, lat) = (13.404954, 52.520008);
    let (x, y_xyz) = lonlat_to_tile(lon, lat, HHTL_DEPTH4);
    let n = 4_294_967_296.0f64;
    let rlon = (f64::from(x) + 0.5) / n * 360.0 - 180.0;
    let rlat = (PI * (1.0 - 2.0 * (f64::from(y_xyz) + 0.5) / n))
        .sinh()
        .atan()
        .to_degrees();
    // ~1.1 mm at Berlin; assert well inside a centimetre.
    let dlat_m = (rlat - lat).abs() * 111_320.0;
    let dlon_m = (rlon - lon).abs() * 111_320.0 * lat.to_radians().cos();
    assert!(dlat_m < 0.01, "lat err {dlat_m} m");
    assert!(dlon_m < 0.01, "lon err {dlon_m} m");
}

/// A uniform published coordinate inside the Mercator band.
fn grid_point(state: &mut u64) -> (i32, i32) {
    let lon_span = 2 * 1_800_000_000i64;
    let lat_span = 2 * (85.051_128_78 * OSM_GRID_PER_DEGREE) as i64;
    let lon = (splitmix64(state) % lon_span as u64) as i64 - lon_span / 2;
    let lat = (splitmix64(state) % lat_span as u64) as i64 - lat_span / 2;
    (lon as i32, lat as i32)
}

#[test]
fn a_million_osm_grid_points_survive_the_key_exactly() {
    let mut state = 0x0DE1_0000_0000_0001u64;

    // Coverage witnesses: a generator that degenerated to one point would pass
    // everything below.
    let (mut lon_lo, mut lon_hi) = (i32::MAX, i32::MIN);
    let (mut lat_lo, mut lat_hi) = (i32::MAX, i32::MIN);

    for _ in 0..1_000_000 {
        let (lon, lat) = grid_point(&mut state);
        assert!(osm_grid_is_representable(lat));

        let code = osm_grid_to_morton(lon, lat);
        assert_eq!(
            morton_to_osm_grid(code),
            (lon, lat),
            "key lost OSM coordinate ({lon}, {lat})"
        );

        lon_lo = lon_lo.min(lon);
        lon_hi = lon_hi.max(lon);
        lat_lo = lat_lo.min(lat);
        lat_hi = lat_hi.max(lat);
    }

    // Both hemispheres, near both Mercator limits, near both meridians.
    assert!(
        lon_lo < -1_799_000_000 && lon_hi > 1_799_000_000,
        "longitude span {lon_lo}..{lon_hi}"
    );
    assert!(
        lat_lo < -850_000_000 && lat_hi > 850_000_000,
        "latitude span {lat_lo}..{lat_hi}"
    );
}
