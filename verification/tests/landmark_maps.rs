use firefly::double::{Double, Single};
use firefly::vision_map::io::{load_map, save_map, MapError, FRAME_SIZE, HEADER_SIZE, POINT_SIZE};
use firefly::vision_map::map::{VisionKeyFrame, VisionMap, VisionMapPoint};
use firefly::voxel_svio::map::{VoxelError, VoxelKey, VoxelMap};
use firefly::voxel_svio::options::VoxelOptions;

fn d(x: f64) -> Double {
    Double::from_bits(x.to_bits())
}

fn f(x: Double) -> f64 {
    f64::from_bits(x.bits)
}

fn s(x: f32) -> Single {
    Single { bits: x.to_bits() }
}

fn triple(p: [f64; 3]) -> [Double; 3] {
    [d(p[0]), d(p[1]), d(p[2])]
}

fn divide(a: Double, b: Double) -> Double {
    d(f(a) / f(b))
}

fn times(a: Double, b: Double) -> Double {
    d(f(a) * f(b))
}

fn square(a: [Double; 3], b: [Double; 3]) -> Double {
    d((0..3).map(|i| (f(a[i]) - f(b[i])) * (f(a[i]) - f(b[i]))).sum())
}

fn key(map: &VoxelMap, p: [f64; 3]) -> VoxelKey {
    map.key_of(&triple(p), &divide)
}

fn add(map: &mut VoxelMap, featid: usize, p: [f64; 3]) -> bool {
    map.add_point(featid, &triple(p), &divide, &times, &square)
}

fn update(map: &mut VoxelMap, featid: usize, p: [f64; 3]) -> Result<(), VoxelError> {
    map.update_point(featid, &triple(p), &divide)
}

fn recent(map: &mut VoxelMap, p: [f64; 3], t: f64) -> Vec<VoxelKey> {
    map.recent_voxels(&vec![triple(p)], d(t), &divide)
}

fn test_map() -> VoxelMap {
    VoxelMap::new(VoxelOptions { enabled: true, ..VoxelOptions::default() })
}

#[test]
fn key_quantization_truncates_toward_zero() {
    let map = test_map();
    assert_eq!(key(&map, [0.15, -0.05, 1.0]), VoxelKey(1, 0, 10));
}

#[test]
fn add_rejects_full_and_crowded_voxels() {
    let mut map = VoxelMap::new(VoxelOptions {
        max_points_per_voxel: 2,
        min_point_distance: d(0.03),
        ..VoxelOptions::default()
    });
    assert!(add(&mut map, 1, [0.0, 0.0, 0.0]));
    assert!(!add(&mut map, 2, [0.01, 0.0, 0.0]));
    assert!(add(&mut map, 2, [0.05, 0.0, 0.0]));
    assert!(!add(&mut map, 3, [0.08, 0.0, 0.0]));
    assert_eq!(map.num_points(), 2);
}

#[test]
fn update_moves_across_voxels() {
    let mut map = test_map();
    assert!(add(&mut map, 1, [0.05, 0.0, 0.0]));
    let before = map.num_voxels();
    update(&mut map, 1, [5.0, 0.0, 0.0]).expect("indexed");
    assert_eq!(map.num_voxels(), before);
    assert!(map.remove_point(1).is_ok());
    assert_eq!(map.num_points(), 0);
    assert!(update(&mut map, 1, [0.0; 3]).is_err());
    assert!(map.remove_point(1).is_err());
    assert!(matches!(map.remove_point(9), Err(VoxelError::NotFound(9))));
}

#[test]
fn recent_dedups_within_timestamp() {
    let mut map = test_map();
    assert!(add(&mut map, 1, [0.05, 0.0, 0.0]));
    let first = recent(&mut map, [0.05, 0.0, 0.0], 10.0);
    assert!(!first.is_empty());
    assert!(recent(&mut map, [0.05, 0.0, 0.0], 10.0).is_empty());
    assert!(!recent(&mut map, [0.05, 0.0, 0.0], 11.0).is_empty());
}

#[test]
fn select_first_only_by_default() {
    let mut map =
        VoxelMap::new(VoxelOptions { min_point_distance: d(0.0), ..VoxelOptions::default() });
    assert!(add(&mut map, 1, [0.01, 0.0, 0.0]));
    assert!(add(&mut map, 2, [0.02, 0.0, 0.0]));
    let seen = recent(&mut map, [0.01, 0.0, 0.0], 1.0);
    assert_eq!(map.select(&seen), vec![1]);
}

#[test]
fn select_all_when_configured() {
    let mut map = VoxelMap::new(VoxelOptions {
        min_point_distance: d(0.0),
        use_all_points: true,
        ..VoxelOptions::default()
    });
    assert!(add(&mut map, 1, [0.01, 0.0, 0.0]));
    assert!(add(&mut map, 2, [0.02, 0.0, 0.0]));
    let seen = recent(&mut map, [0.01, 0.0, 0.0], 1.0);
    assert_eq!(map.select(&seen), vec![1, 2]);
}

#[test]
fn feature_lies_in_one_voxel() {
    let mut map = test_map();
    assert!(add(&mut map, 1, [0.05, 0.0, 0.0]));
    let there = key(&map, [5.0, 0.0, 0.0]);
    update(&mut map, 1, [5.0, 0.0, 0.0]).unwrap();
    let here = key(&map, [0.05, 0.0, 0.0]);
    assert!(map.block_points(here).is_empty());
    assert_eq!(map.block_points(there).len(), 1);
    assert!(map.contains(1));
    assert!(!map.contains(2));
}

#[test]
fn hits_do_not_repeat() {
    let mut map = test_map();
    assert!(add(&mut map, 1, [0.05, 0.0, 0.0]));
    let k = key(&map, [0.05, 0.0, 0.0]);
    // Two positions whose surroundings overlap.
    let both = vec![triple([0.05, 0.0, 0.0]), triple([0.15, 0.0, 0.0])];
    let hits = map.recent_voxels(&both, d(3.0), &divide);
    assert_eq!(hits, vec![k]);
}

#[test]
fn removing_undoes_adding() {
    let mut map = test_map();
    assert!(add(&mut map, 1, [0.05, 0.0, 0.0]));
    let k = key(&map, [0.05, 0.0, 0.0]);
    recent(&mut map, [0.05, 0.0, 0.0], 4.0);
    let before = format!("{:?}", map.block_points(k));
    // Beside another point, and in a voxel of its own.
    for p in [[0.01, 0.0, 0.0], [3.0, 1.0, -2.0]] {
        assert!(add(&mut map, 2, p));
        map.remove_point(2).unwrap();
        assert_eq!(format!("{:?}", map.block_points(k)), before);
        assert_eq!((map.num_points(), map.num_voxels()), (1, 1));
        assert!(!map.contains(2));
        assert!(map.block_points(key(&map, [3.0, 1.0, -2.0])).is_empty());
        assert!(recent(&mut map, [0.05, 0.0, 0.0], 4.0).is_empty());
    }
}

#[test]
fn what_is_near_comes_into_view() {
    let mut map = VoxelMap::new(VoxelOptions { neighbor_radius: 2, ..VoxelOptions::default() });
    // Voxels at offsets of two, three, minus two and none along the axes.
    for (id, p) in [[0.25, 0.0, 0.0], [0.35, 0.0, 0.0], [0.0, -0.25, 0.25], [0.0; 3]].iter().enumerate() {
        assert!(add(&mut map, id, *p));
    }
    let mut seen = recent(&mut map, [0.05, 0.05, 0.05], 1.0);
    seen.sort_by_key(|k| (k.0, k.1, k.2));
    assert_eq!(seen, vec![VoxelKey(0, -2, 2), VoxelKey(0, 0, 0), VoxelKey(2, 0, 0)]);
    // Those in view stay out, the one that was not in view comes in.
    assert_eq!(recent(&mut map, [0.15, 0.05, 0.05], 1.0), vec![VoxelKey(3, 0, 0)]);
}

#[test]
fn far_coordinates_are_clamped() {
    let map = test_map();
    assert_eq!(key(&map, [1e30, -1e30, f64::NAN]), VoxelKey(i32::MAX, i32::MIN, 0));
}

fn point(position: [f64; 3], uv: [f32; 2], fill: f32, score: f32) -> VisionMapPoint {
    VisionMapPoint {
        position: triple(position),
        uv: [s(uv[0]), s(uv[1])],
        descriptor: [s(fill); 128],
        score: s(score),
    }
}

fn frame(id: u64, x: f64) -> VisionKeyFrame {
    VisionKeyFrame {
        id,
        timestamp: d(f64::from(u32::try_from(id).unwrap_or(u32::MAX))),
        position: triple([x, 0.0, 0.0]),
        quat_xyzw: [d(0.0), d(0.0), d(0.0), d(1.0)],
        points: vec![point([x, 0.0, 0.0], [0.0, 0.0], 0.0, 1.0)],
    }
}

fn seven() -> VisionMap {
    VisionMap {
        frames: vec![VisionKeyFrame {
            id: 7,
            timestamp: d(1.5),
            position: triple([1.0, 2.0, 3.0]),
            quat_xyzw: [d(0.0), d(0.0), d(0.0), d(1.0)],
            points: vec![point([4.0, 5.0, 6.0], [10.0, 20.0], 0.5, 0.9)],
        }],
    }
}

#[test]
fn roundtrip() {
    let map = seven();
    let bytes = save_map(&map);
    let back = load_map(&bytes).unwrap();
    assert_eq!(back.frames.len(), 1);
    assert_eq!(back.frames[0].id, 7);
    assert!((f(back.frames[0].points[0].position[0]) - 4.0).abs() < 1e-12);
    let third = f32::from_bits(back.frames[0].points[0].descriptor[3].bits);
    assert!((third - 0.5).abs() < 1e-9);
}

#[test]
fn rejects_bad_magic() {
    let bytes = b"not a map file................".to_vec();
    assert!(load_map(&bytes).is_err());
    assert!(matches!(load_map(&bytes), Err(MapError::BadMagic)));
}

#[test]
fn load_gives_back_save() {
    let map = VisionMap { frames: vec![frame(3, 1.5), frame(u64::MAX, -2.0)] };
    let bytes = save_map(&map);
    assert_eq!(bytes.len(), HEADER_SIZE + 2 * FRAME_SIZE + 2 * POINT_SIZE);
    let back = load_map(&bytes).unwrap();
    assert_eq!(save_map(&back), bytes);
    assert_eq!(back.frames[1].id, u64::MAX);
    assert_eq!(f(back.frames[0].position[0]), 1.5);
}

#[test]
fn trailing_bytes_do_not_matter() {
    let mut bytes = save_map(&seven());
    let before = bytes.clone();
    bytes.extend([1, 2, 3]);
    assert_eq!(save_map(&load_map(&bytes).unwrap()), before);
}

#[test]
fn short_and_foreign_files_are_refused() {
    let bytes = save_map(&seven());
    for n in 0..bytes.len() {
        let cut = bytes[..n].to_vec();
        assert!(matches!(load_map(&cut), Err(MapError::Truncated)), "{n}");
    }
    let mut other = bytes.clone();
    other[8] = 9;
    assert!(matches!(load_map(&other), Err(MapError::BadVersion)));
}

#[test]
fn neighbors_by_distance() {
    let map = VisionMap { frames: vec![frame(0, 0.0), frame(1, 5.0), frame(2, 1.0)] };
    let near = |x: f64, n: usize| {
        map.query_neighbors(&triple([x, 0.0, 0.0]), d(2.0), n, &times, &square)
    };
    assert_eq!(near(0.2, 10), vec![0, 2]);
    assert_eq!(near(0.2, 1), vec![0]);
    assert!(near(100.0, 10).is_empty());
    assert_eq!(map.num_points(), 3);
    assert_eq!(VisionMap::new().num_points(), 0);
}

#[test]
fn diverse_frames_spread_out() {
    let map = VisionMap {
        frames: vec![frame(0, 0.0), frame(1, 0.1), frame(2, 2.0), frame(3, -1.5), frame(4, 50.0)],
    };
    let some = |n: usize| map.query_diverse(&triple([0.0; 3]), d(3.0), n, &times, &square);
    assert_eq!(some(3), vec![0, 2, 3]);
    assert_eq!(some(9), vec![0, 2, 3, 1]);
    assert!(some(0).is_empty());
    // Each pick is the farthest of those left from what was picked.
    let at: [f64; 4] = [0.0, 0.1, 2.0, -1.5];
    let picks = some(9);
    let gap = |i: usize, n: usize| {
        picks[..n].iter().map(|j| (at[i] - at[*j]).abs()).fold(f64::INFINITY, f64::min)
    };
    for n in 1..picks.len() {
        assert!(picks[n..].iter().all(|i| gap(*i, n) <= gap(picks[n], n)));
    }
}
