use chunk_lod::{
    floor_div_i32, focus_keys, Array3x1, Chunk, ChunkKey3, ChunkMap, ChunkMapBuilder,
    ChunkMapBuilderNxM, ChunkMapConfig, ChunkStorage, ChunkWithMeta, ClipEvent, ClipmapState,
    Extent3i, Point3i, VecChunkStorage,
};

fn p(x: i32, y: i32, z: i32) -> Point3i {
    Point3i::new(x, y, z)
}

fn builder16(ambient: i32) -> ChunkMapBuilderNxM<i32> {
    ChunkMapBuilderNxM::new(ChunkMapConfig {
        chunk_shape: Point3i::fill(16),
        ambient_value: ambient,
        root_lod: 2,
    })
}

#[test]
fn concrete_write_and_read_scenario() {
    let mut map = ChunkMap::build_with_vec_storage(builder16(0));
    map.write(0, p(20, 0, 0), 5);
    assert_eq!(map.read(0, p(20, 0, 0)), 5);
    assert_eq!(map.read(0, p(21, 1, 1)), 0);
    assert_eq!(map.read(0, p(36, 0, 0)), 0);
    assert!(map.contains_chunk(0, p(1, 0, 0)));
    assert!(!map.contains_chunk(0, p(2, 0, 0)));
    assert!(!map.contains_chunk(1, p(0, 0, 0)));
}

#[test]
fn read_of_vacant_space_is_ambient() {
    let map = ChunkMap::build_with_vec_storage(builder16(7));
    for lod in 0..3u8 {
        assert_eq!(map.read(lod, p(-100, 3, 99)), 7);
        assert!(!map.contains_chunk(lod, p(-7, 0, 6)));
    }
}

#[test]
fn write_negative_coordinates_and_other_levels() {
    let mut map = ChunkMap::build_with_vec_storage(builder16(-1));
    map.write(1, p(-1, -16, -17), 42);
    assert!(map.contains_chunk(1, p(-1, -1, -2)));
    assert_eq!(map.read(1, p(-1, -16, -17)), 42);
    assert_eq!(map.read(0, p(-1, -16, -17)), -1);
    assert_eq!(map.read(1, p(-2, -16, -17)), -1);
    map.write(1, p(-1, -16, -17), 43);
    assert_eq!(map.read(1, p(-1, -16, -17)), 43);
}

#[test]
fn new_ambient_fills_every_point() {
    let b = builder16(9);
    let e = Extent3i::from_min_and_shape(p(-2, 0, 5), p(3, 2, 4));
    let c = b.new_ambient(e);
    assert_eq!(c.extent(), e);
    for x in -2..1 {
        for y in 0..2 {
            for z in 5..9 {
                assert_eq!(c.array_ref().get(p(x, y, z)), 9);
            }
        }
    }
    assert_eq!(b.ambient_value(), 9);
    assert_eq!(b.root_lod(), 2);
    assert_eq!(b.num_lods(), 3);
    assert_eq!(b.chunk_shape(), p(16, 16, 16));
}

#[test]
fn array_set_changes_one_point() {
    let e = Extent3i::from_min_and_shape(p(0, 0, 0), p(2, 2, 2));
    let mut a = Array3x1::fill(e, 0u8);
    a.set(p(1, 0, 1), 3);
    assert_eq!(a.get(p(1, 0, 1)), 3);
    assert_eq!(a.get(p(0, 0, 1)), 0);
    assert_eq!(a.get(p(1, 1, 1)), 0);
    assert!(e.contains(p(1, 1, 1)));
    assert!(!e.contains(p(2, 1, 1)));
    assert!(!e.contains(p(-1, 0, 0)));
}

#[test]
fn chunk_with_meta_keeps_metadata() {
    let e = Extent3i::from_min_and_shape(p(0, 0, 0), p(1, 1, 1));
    let mut c = ChunkWithMeta::new(Array3x1::fill(e, 1i32), 77u32);
    c.array_mut().set(p(0, 0, 0), 2);
    assert_eq!(c.array_ref().get(p(0, 0, 0)), 2);
    assert_eq!(c.metadata, 77);
}

#[test]
fn storage_insert_overwrites_and_returns_previous() {
    let mut s: VecChunkStorage<i32> = VecChunkStorage::new();
    assert_eq!(s.insert(p(1, 2, 3), 10), None);
    assert_eq!(s.insert(p(0, 0, 0), 5), None);
    assert_eq!(s.insert(p(1, 2, 3), 11), Some(10));
    assert_eq!(s.get(p(1, 2, 3)), Some(&11));
    assert_eq!(s.len(), 2);
    assert_eq!(s.remove(p(1, 2, 3)), Some(11));
    assert_eq!(s.remove(p(1, 2, 3)), None);
    assert_eq!(s.get(p(1, 2, 3)), None);
    assert_eq!(s.get(p(0, 0, 0)), Some(&5));
    assert_eq!(s.len(), 1);
}

#[test]
fn floor_division_rounds_down() {
    assert_eq!(floor_div_i32(7, 2), 3);
    assert_eq!(floor_div_i32(-1, 16), -1);
    assert_eq!(floor_div_i32(-16, 16), -1);
    assert_eq!(floor_div_i32(-17, 16), -2);
    assert_eq!(floor_div_i32(i32::MIN, 1), i32::MIN);
    assert_eq!(floor_div_i32(i32::MAX, 16), 134217727);
}

#[test]
fn keys_halve_across_levels() {
    let keys = focus_keys(p(-33, 100, 0), Point3i::fill(16), 3);
    assert_eq!(keys, vec![p(-3, 6, 0), p(-2, 3, 0), p(-1, 1, 0), p(-1, 0, 0)]);
    let keys = focus_keys(p(1000, -1000, 17), p(8, 4, 2), 1);
    assert_eq!(keys, vec![p(125, -250, 8), p(62, -125, 4)]);
}

fn loads(events: &[ClipEvent]) -> Vec<ChunkKey3> {
    events
        .iter()
        .filter_map(|e| match e {
            ClipEvent::Load(k) => Some(*k),
            ClipEvent::Unload(_) => None,
        })
        .collect()
}

fn unloads(events: &[ClipEvent]) -> Vec<ChunkKey3> {
    events
        .iter()
        .filter_map(|e| match e {
            ClipEvent::Unload(k) => Some(*k),
            ClipEvent::Load(_) => None,
        })
        .collect()
}

fn sorted(mut v: Vec<ChunkKey3>) -> Vec<(u8, i32, i32, i32)> {
    let mut t: Vec<(u8, i32, i32, i32)> = v
        .drain(..)
        .map(|k| (k.lod, k.coord.x, k.coord.y, k.coord.z))
        .collect();
    t.sort();
    t
}

#[test]
fn clipmap_second_call_is_quiet() {
    let shape = Point3i::fill(16);
    let mut st = ClipmapState::new();
    let first = st.update(shape, 1, 1, p(0, 0, 0), 1000);
    // level 0: 27 chunks; level 1: 27 chunks
    assert_eq!(first.len(), 54);
    assert!(unloads(&first).is_empty());
    assert_eq!(loads(&first)[0], ChunkKey3 { coord: p(-1, -1, -1), lod: 0 });
    let second = st.update(shape, 1, 1, p(0, 0, 0), 1000);
    assert!(second.is_empty());
}

#[test]
fn clipmap_large_jump_matches_small_steps() {
    let shape = Point3i::fill(8);
    let mut direct = ClipmapState::new();
    direct.update(shape, 2, 1, p(0, 0, 0), 10_000);
    direct.update(shape, 2, 1, p(100, -40, 9), 10_000);
    let mut steps = ClipmapState::new();
    steps.update(shape, 2, 1, p(0, 0, 0), 10_000);
    for i in 1..=10 {
        steps.update(shape, 2, 1, p(10 * i, -4 * i, i), 10_000);
    }
    steps.update(shape, 2, 1, p(100, -40, 9), 10_000);
    assert_eq!(sorted(direct.active_keys()), sorted(steps.active_keys()));
    assert_eq!(direct.active_keys().len(), 81);
}

#[test]
fn clipmap_budget_delivers_every_event_once_in_order() {
    let shape = Point3i::fill(16);
    let mut full = ClipmapState::new();
    let all = full.update(shape, 1, 1, p(5, 5, 5), 1000);
    let mut st = ClipmapState::new();
    let mut delivered: Vec<ClipEvent> = Vec::new();
    let mut calls = 0;
    loop {
        let ev = st.update(shape, 1, 1, p(5, 5, 5), 4);
        assert!(ev.len() <= 4);
        calls += 1;
        if ev.is_empty() {
            break;
        }
        delivered.extend(ev);
    }
    assert_eq!(delivered, all);
    assert_eq!(calls, 15);
    let as_tuples: Vec<(u8, i32, i32, i32)> = delivered
        .iter()
        .map(|e| match e {
            ClipEvent::Load(k) | ClipEvent::Unload(k) => (k.lod, k.coord.x, k.coord.y, k.coord.z),
        })
        .collect();
    let mut sorted_tuples = as_tuples.clone();
    sorted_tuples.sort();
    sorted_tuples.dedup();
    assert_eq!(as_tuples, sorted_tuples);
}

#[test]
fn clipmap_unloads_what_leaves_the_region() {
    let shape = Point3i::fill(16);
    let mut st = ClipmapState::new();
    st.update(shape, 0, 0, p(0, 0, 0), 10);
    assert!(st.is_active(ChunkKey3 { coord: p(0, 0, 0), lod: 0 }));
    let ev = st.update(shape, 0, 0, p(16, 0, 0), 10);
    assert_eq!(
        ev,
        vec![
            ClipEvent::Unload(ChunkKey3 { coord: p(0, 0, 0), lod: 0 }),
            ClipEvent::Load(ChunkKey3 { coord: p(1, 0, 0), lod: 0 }),
        ]
    );
    assert!(!st.is_active(ChunkKey3 { coord: p(0, 0, 0), lod: 0 }));
    let ev = st.update(shape, 0, 0, p(-1, 0, 0), 1);
    assert_eq!(ev, vec![ClipEvent::Load(ChunkKey3 { coord: p(-1, 0, 0), lod: 0 })]);
    let ev = st.update(shape, 0, 0, p(-1, 0, 0), 1);
    assert_eq!(ev, vec![ClipEvent::Unload(ChunkKey3 { coord: p(1, 0, 0), lod: 0 })]);
    let ev = st.update(shape, 0, 0, p(-1, 0, 0), 1);
    assert!(ev.is_empty());
}

#[test]
fn map_built_with_custom_storage_factory() {
    let mut map = ChunkMap::build_with_storage(builder16(3), VecChunkStorage::new);
    map.write(2, p(0, 0, 0), 8);
    assert_eq!(map.read(2, p(0, 0, 0)), 8);
    assert_eq!(map.read(2, p(15, 15, 15)), 3);
    assert_eq!(map.builder().config().root_lod, 2);
}

#[test]
fn fill_extent_sets_only_the_sub_extent() {
    let e = Extent3i::from_min_and_shape(p(-1, -1, -1), p(3, 3, 3));
    let mut a = Array3x1::fill(e, 0i32);
    a.fill_extent(Extent3i::from_min_and_shape(p(0, 0, 0), p(2, 1, 2)), 6);
    assert_eq!(a.get(p(0, 0, 0)), 6);
    assert_eq!(a.get(p(1, 0, 1)), 6);
    assert_eq!(a.get(p(1, 1, 1)), 0);
    assert_eq!(a.get(p(-1, 0, 0)), 0);
    a.fill_extent(Extent3i::from_min_and_shape(p(0, 0, 0), p(0, 5, 5)), 9);
    assert_eq!(a.get(p(0, 0, 0)), 6);
}

#[test]
fn extent_intersection() {
    let a = Extent3i::from_min_and_shape(p(0, 0, 0), p(4, 4, 4));
    let b = Extent3i::from_min_and_shape(p(2, -3, 1), p(5, 5, 1));
    assert_eq!(a.intersection(&b), Extent3i::from_min_and_shape(p(2, 0, 1), p(2, 2, 1)));
    let c = Extent3i::from_min_and_shape(p(10, 0, 0), p(1, 1, 1));
    let i = a.intersection(&c);
    assert_eq!(i.shape.x, 0);
    assert!(!i.contains(p(10, 0, 0)));
}

#[test]
fn loading_slots_skip_resident_chunks() {
    let mut map = ChunkMap::build_with_vec_storage(builder16(0));
    map.write(0, p(0, 0, 0), 1);
    map.write(1, p(-1, -1, -1), 1);
    let slots = map.clipmap_loading_slots(0, p(3, 3, 3), 10);
    // level 0 chunk (0,0,0) and level 1 chunk (0,0,0) are clipped; only the first is resident
    assert_eq!(
        slots,
        vec![
            ChunkKey3 { coord: p(0, 0, 0), lod: 1 },
            ChunkKey3 { coord: p(0, 0, 0), lod: 2 },
        ]
    );
    let slots = map.clipmap_loading_slots(1, p(3, 3, 3), 5);
    assert_eq!(slots.len(), 5);
    assert_eq!(slots[0], ChunkKey3 { coord: p(-1, -1, -1), lod: 0 });
    let all = map.clipmap_loading_slots(1, p(3, 3, 3), 1000);
    // 81 keys in the region, two of them resident
    assert_eq!(all.len(), 79);
    assert!(!all.contains(&ChunkKey3 { coord: p(-1, -1, -1), lod: 1 }));
}

#[test]
fn clipmap_mixes_loads_and_unloads_by_ascending_key() {
    let shape = Point3i::fill(16);
    let mut st = ClipmapState::new();
    st.update(shape, 1, 0, p(16, 0, 0), 10);
    let ev = st.update(shape, 1, 0, p(-16, 0, 0), 10);
    assert_eq!(
        ev,
        vec![
            ClipEvent::Load(ChunkKey3 { coord: p(-1, 0, 0), lod: 0 }),
            ClipEvent::Unload(ChunkKey3 { coord: p(1, 0, 0), lod: 0 }),
            ClipEvent::Load(ChunkKey3 { coord: p(-1, 0, 0), lod: 1 }),
            ClipEvent::Unload(ChunkKey3 { coord: p(0, 0, 0), lod: 1 }),
        ]
    );
    let mut a = ClipmapState::new();
    a.update(shape, 1, 0, p(16, 0, 0), 10);
    let first = a.update(shape, 1, 0, p(-16, 0, 0), 3);
    assert_eq!(first, ev[..3].to_vec());
    let rest = a.update(shape, 1, 0, p(-16, 0, 0), 3);
    assert_eq!(rest, ev[3..].to_vec());
}

#[test]
fn empty_extent_gives_empty_array() {
    let e = Extent3i::from_min_and_shape(p(4, 4, 4), p(3, -2, 5));
    let a = Array3x1::fill(e, 1u8);
    assert_eq!(a.len(), 0);
    assert!(!e.contains(p(4, 4, 4)));
    let c = builder16(2).new_ambient(Extent3i::from_min_and_shape(p(0, 0, 0), p(0, 0, 0)));
    assert_eq!(c.len(), 0);
    let full = builder16(2).new_ambient(Extent3i::from_min_and_shape(p(0, 0, 0), p(2, 3, 4)));
    assert_eq!(full.len(), 24);
}

#[test]
fn storage_get_mut_writes_through() {
    let mut s: VecChunkStorage<i32> = VecChunkStorage::new();
    s.insert(p(0, 1, 2), 3);
    if let Some(n) = s.get_mut(p(0, 1, 2)) {
        *n = 30;
    }
    assert_eq!(s.get(p(0, 1, 2)), Some(&30));
    assert!(s.get_mut(p(9, 9, 9)).is_none());
    assert_eq!(s.len(), 1);
}

#[test]
fn extent_bounding_union() {
    let a = Extent3i::from_min_and_shape(p(0, 0, 0), p(2, 2, 2));
    let b = Extent3i::from_min_and_shape(p(-3, 1, 5), p(1, 4, 1));
    let u = a.bounding_union(&b);
    assert_eq!(u, Extent3i::from_min_and_shape(p(-3, 0, 0), p(5, 5, 6)));
    assert!(u.contains(p(-3, 4, 5)) && u.contains(p(1, 1, 1)));
}
