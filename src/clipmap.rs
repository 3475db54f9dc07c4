use crate::geometry::{
    floor_div, floor_div_i32, lemma_floor_div_nested, point_floor_div, point_floor_div_exec, pow2,
    Point3i,
};
use crate::builder::ChunkMapBuilder;
use crate::map::ChunkMap;
use crate::storage::ChunkStorage;
use vstd::prelude::*;

verus! {

broadcast use vstd::seq_lib::lemma_seq_contains_after_push;

/// The address of one storage slot: a chunk coordinate at one level of detail.
#[derive(Clone, Copy, PartialEq, Eq, Structural, Debug, Hash)]
pub struct ChunkKey3 {
    pub coord: Point3i,
    pub lod: u8,
}

/// A transition that the streaming algorithm asks the caller to carry out.
#[derive(Clone, Copy, PartialEq, Eq, Structural, Debug, Hash)]
pub enum ClipEvent {
    /// The chunk entered the clip region and should be made resident.
    Load(ChunkKey3),
    /// The chunk left the clip region and should be evicted.
    Unload(ChunkKey3),
}

pub open spec fn halve(t: (int, int, int)) -> (int, int, int) {
    (floor_div(t.0, 2), floor_div(t.1, 2), floor_div(t.2, 2))
}

/// The coordinate, at level `lod`, of the chunk that holds the level-0 point `p`: one level's
/// chunk grid has half the density of the level below.
pub open spec fn lod_key(p: Point3i, shape: Point3i, lod: nat) -> (int, int, int)
    decreases lod,
{
    if lod == 0 {
        point_floor_div(p, shape)
    } else {
        halve(lod_key(p, shape, (lod - 1) as nat))
    }
}

/// A point maps to the chunk at level `lod` whose coordinate is the point divided, rounding down,
/// by the chunk shape scaled by `2^lod`; and each level's key is the one below halved, rounding
/// down.
pub proof fn lemma_lod_key_scaling(p: Point3i, shape: Point3i, lod: nat)
    requires
        shape.x >= 1 && shape.y >= 1 && shape.z >= 1,
    ensures
        lod_key(p, shape, lod) == (
            floor_div(p.x as int, shape.x * pow2(lod)),
            floor_div(p.y as int, shape.y * pow2(lod)),
            floor_div(p.z as int, shape.z * pow2(lod)),
        ),
        lod_key(p, shape, lod + 1) == halve(lod_key(p, shape, lod)),
    decreases lod,
{
    if lod > 0 {
        let l1 = (lod - 1) as nat;
        lemma_lod_key_scaling(p, shape, l1);
        assert(pow2(l1) >= 1) by {
            lemma_pow2_positive(l1);
        }
        assert(shape.x * pow2(l1) > 0 && shape.y * pow2(l1) > 0 && shape.z * pow2(l1) > 0) by (
        nonlinear_arith)
            requires
                shape.x >= 1 && shape.y >= 1 && shape.z >= 1,
                pow2(l1) >= 1,
        ;
        lemma_floor_div_nested(p.x as int, shape.x * pow2(l1), 2);
        lemma_floor_div_nested(p.y as int, shape.y * pow2(l1), 2);
        lemma_floor_div_nested(p.z as int, shape.z * pow2(l1), 2);
        assert(pow2(lod) == 2 * pow2(l1));
        assert(shape.x * pow2(l1) * 2 == shape.x * pow2(lod)) by (nonlinear_arith)
            requires
                pow2(lod) == 2 * pow2(l1),
        ;
        assert(shape.y * pow2(l1) * 2 == shape.y * pow2(lod)) by (nonlinear_arith)
            requires
                pow2(lod) == 2 * pow2(l1),
        ;
        assert(shape.z * pow2(l1) * 2 == shape.z * pow2(lod)) by (nonlinear_arith)
            requires
                pow2(lod) == 2 * pow2(l1),
        ;
        assert(lod_key(p, shape, lod) == halve(lod_key(p, shape, l1)));
    } else {
        assert(pow2(0) == 1);
    }
    assert(lod_key(p, shape, lod + 1) == halve(lod_key(p, shape, lod)));
}

proof fn lemma_pow2_positive(n: nat)
    ensures
        pow2(n) >= 1,
    decreases n,
{
    if n > 0 {
        lemma_pow2_positive((n - 1) as nat);
    }
}

pub open spec fn key_triple(c: Point3i) -> (int, int, int) {
    (c.x as int, c.y as int, c.z as int)
}

/// The chunk coordinates, at levels `0..=root_lod`, of the chunks that hold `focus`.
pub fn focus_keys(focus: Point3i, shape: Point3i, root_lod: u8) -> (r: Vec<Point3i>)
    requires
        shape.x >= 1 && shape.y >= 1 && shape.z >= 1,
    ensures
        r@.len() == root_lod + 1,
        forall|l: int| 0 <= l <= root_lod ==> key_triple(#[trigger] r@[l]) == lod_key(focus, shape, l as nat),
{
    let mut cur = point_floor_div_exec(focus, shape);
    let mut r: Vec<Point3i> = Vec::new();
    r.push(cur);
    while r.len() <= root_lod as usize
        invariant
            1 <= r@.len() <= root_lod + 1,
            cur == r@[r@.len() - 1],
            forall|l: int| 0 <= l < r@.len() ==> key_triple(#[trigger] r@[l]) == lod_key(focus, shape, l as nat),
        decreases root_lod + 1 - r@.len(),
    {
        cur = Point3i { x: floor_div_i32(cur.x, 2), y: floor_div_i32(cur.y, 2), z: floor_div_i32(cur.z, 2) };
        proof {
            assert(lod_key(focus, shape, r@.len() as nat) == halve(lod_key(focus, shape, (r@.len() - 1) as nat)));
        }
        r.push(cur);
    }
    r
}

/// Whether `a` lies within `r` of `b`.
pub open spec fn within(a: int, b: int, r: int) -> bool {
    b - r <= a <= b + r
}

/// Whether `k` belongs to the clip region of `focus`: on every level up to `root_lod`, the cube
/// of chunks within `radius` chunks of the one that holds the focus.
pub open spec fn in_clip(k: ChunkKey3, focus: Point3i, shape: Point3i, root_lod: int, radius: int) -> bool {
    let f = lod_key(focus, shape, k.lod as nat);
    &&& k.lod <= root_lod
    &&& within(k.coord.x as int, f.0, radius)
    &&& within(k.coord.y as int, f.1, radius)
    &&& within(k.coord.z as int, f.2, radius)
}

/// `k` comes before the position `(l, x, y, z)` in the order of levels, then coordinates.
pub open spec fn before(k: ChunkKey3, l: int, x: int, y: int, z: int) -> bool {
    ||| (k.lod as int) < l
    ||| (k.lod == l && (k.coord.x as int) < x)
    ||| (k.lod == l && k.coord.x == x && (k.coord.y as int) < y)
    ||| (k.lod == l && k.coord.x == x && k.coord.y == y && (k.coord.z as int) < z)
}

/// Ascending order of keys: by level, then by coordinate.
pub open spec fn key_lt(a: ChunkKey3, b: ChunkKey3) -> bool {
    before(a, b.lod as int, b.coord.x as int, b.coord.y as int, b.coord.z as int)
}

/// The key that an event is about.
pub open spec fn event_key(e: ClipEvent) -> ChunkKey3 {
    match e {
        ClipEvent::Load(k) => k,
        ClipEvent::Unload(k) => k,
    }
}

/// The events come in strictly ascending order of key.
pub open spec fn events_ascending(events: Seq<ClipEvent>) -> bool {
    forall|i: int, j: int| 0 <= i < j < events.len() ==> key_lt(event_key(#[trigger] events[i]), event_key(#[trigger] events[j]))
}

/// Whether `e` is owed when `prior` is loaded: an unload of a loaded key outside the clip
/// region, or a load of a key of the region that is not loaded.
pub open spec fn is_pending(prior: Seq<ChunkKey3>, e: ClipEvent, focus: Point3i, shape: Point3i, root_lod: int, radius: int) -> bool {
    match e {
        ClipEvent::Unload(k) => prior.contains(k) && !in_clip(k, focus, shape, root_lod, radius),
        ClipEvent::Load(k) => !prior.contains(k) && in_clip(k, focus, shape, root_lod, radius),
    }
}

/// The facts that each pass of `ClipmapState::update` keeps: `kept` is what `prior` becomes
/// through `events`, every event is owed, and none repeats.
pub open spec fn events_consistent(
    prior: Seq<ChunkKey3>,
    kept: Seq<ChunkKey3>,
    events: Seq<ClipEvent>,
    focus: Point3i,
    shape: Point3i,
    root_lod: int,
    radius: int,
) -> bool {
    &&& kept.no_duplicates()
    &&& events.no_duplicates()
    &&& forall|k: ChunkKey3| #[trigger]
        events.contains(ClipEvent::Unload(k)) ==> prior.contains(k) && !in_clip(
            k,
            focus,
            shape,
            root_lod,
            radius,
        )
    &&& forall|k: ChunkKey3| #[trigger]
        events.contains(ClipEvent::Load(k)) ==> !prior.contains(k) && in_clip(
            k,
            focus,
            shape,
            root_lod,
            radius,
        )
    &&& forall|k: ChunkKey3| #[trigger]
        kept.contains(k) <==> ((prior.contains(k) && !events.contains(ClipEvent::Unload(k)))
            || events.contains(ClipEvent::Load(k)))
}

/// Two consecutive steps towards the same focus never deliver the same event: whatever the first
/// step delivered is no longer pending for the second.
pub proof fn lemma_no_event_delivered_twice(
    s0: Seq<ChunkKey3>,
    s1: Seq<ChunkKey3>,
    s2: Seq<ChunkKey3>,
    e1: Seq<ClipEvent>,
    e2: Seq<ClipEvent>,
    focus: Point3i,
    shape: Point3i,
    root_lod: int,
    radius: int,
)
    requires
        events_consistent(s0, s1, e1, focus, shape, root_lod, radius),
        events_consistent(s1, s2, e2, focus, shape, root_lod, radius),
    ensures
        forall|e: ClipEvent| #[trigger] e1.contains(e) ==> !e2.contains(e),
{
    assert forall|e: ClipEvent| #[trigger] e1.contains(e) implies !e2.contains(e) by {
        match e {
            ClipEvent::Load(k) => {
                assert(s1.contains(k));
            },
            ClipEvent::Unload(k) => {
                assert(!e1.contains(ClipEvent::Load(k)));
                assert(!s1.contains(k));
            },
        }
    }
}

/// The loaded set that a step reaches when its budget was not used up depends on the focus
/// alone, not on the path the focus took: two such sets for one focus are equal.
pub proof fn lemma_complete_sets_agree(
    a: Set<ChunkKey3>,
    b: Set<ChunkKey3>,
    focus: Point3i,
    shape: Point3i,
    root_lod: int,
    radius: int,
)
    requires
        forall|k: ChunkKey3| #[trigger] a.contains(k) <==> in_clip(k, focus, shape, root_lod, radius),
        forall|k: ChunkKey3| #[trigger] b.contains(k) <==> in_clip(k, focus, shape, root_lod, radius),
    ensures
        a == b,
{
    assert(a =~= b);
}

/// The closure `skip` decides `skipped` on every key of a level up to `root_lod`.
pub open spec fn skip_facts<F: Fn(ChunkKey3) -> bool>(skip: F, skipped: spec_fn(ChunkKey3) -> bool, root_lod: u8) -> bool {
    &&& forall|k: ChunkKey3| k.lod <= root_lod ==> #[trigger] skip.requires((k,))
    &&& forall|k: ChunkKey3, b: bool| #[trigger] skip.ensures((k,), b) ==> b == skipped(k)
}

/// The keys of the clip region of `focus` that `skip` does not exclude, at most `budget` of them,
/// the smallest ones by ascending level and coordinate.
fn region_keys<F: Fn(ChunkKey3) -> bool>(
    fkeys: &Vec<Point3i>,
    focus: Point3i,
    shape: Point3i,
    root_lod: u8,
    radius: u8,
    budget: usize,
    skip: F,
    Ghost(skipped): Ghost<spec_fn(ChunkKey3) -> bool>,
) -> (slots: Vec<ChunkKey3>)
    requires
        shape.x >= 1 && shape.y >= 1 && shape.z >= 1,
        fkeys@.len() == root_lod + 1,
        forall|l: int| 0 <= l <= root_lod ==> key_triple(#[trigger] fkeys@[l]) == lod_key(focus, shape, l as nat),
        skip_facts(skip, skipped, root_lod),
    ensures
        slots@.len() <= budget,
        forall|j: int| 0 <= j < slots@.len() ==> in_clip(#[trigger] slots@[j], focus, shape, root_lod as int, radius as int) && !skipped(slots@[j]),
        forall|i: int, j: int| 0 <= i < j < slots@.len() ==> key_lt(#[trigger] slots@[i], #[trigger] slots@[j]),
        forall|k: ChunkKey3| (in_clip(k, focus, shape, root_lod as int, radius as int) && !skipped(k)) && !#[trigger] slots@.contains(k)
            ==> slots@.len() == budget && (budget > 0 ==> key_lt(slots@.last(), k)),
{
    let ghost rad = radius as int;
    let mut slots: Vec<ChunkKey3> = Vec::new();
    let mut lu: usize = 0;
    while lu <= root_lod as usize && slots.len() < budget
        invariant
            skip_facts(skip, skipped, root_lod),
            shape.x >= 1 && shape.y >= 1 && shape.z >= 1,
            lu <= root_lod + 1,
            rad == radius as int,
            fkeys@.len() == root_lod + 1,
            forall|l: int| 0 <= l <= root_lod ==> key_triple(#[trigger] fkeys@[l]) == lod_key(focus, shape, l as nat),
            slots@.len() <= budget,
            0 < slots@.len() == budget ==> forall|k: ChunkKey3|
                (in_clip(k, focus, shape, root_lod as int, rad) && !skipped(k)) && !slots@.contains(k) ==> #[trigger] key_lt(slots@.last(), k),
            forall|j: int| 0 <= j < slots@.len() ==> in_clip(#[trigger] slots@[j], focus, shape, root_lod as int, rad) && !skipped(slots@[j]),
            forall|i: int, j: int| 0 <= i < j < slots@.len() ==> key_lt(#[trigger] slots@[i], #[trigger] slots@[j]),
            forall|j: int| 0 <= j < slots@.len() ==> before(#[trigger] slots@[j], lu as int, i32::MIN as int, i32::MIN as int, i32::MIN as int),
            slots@.len() < budget ==> forall|k: ChunkKey3|
                (in_clip(k, focus, shape, root_lod as int, rad) && !skipped(k)) && before(k, lu as int, i32::MIN as int, i32::MIN as int, i32::MIN as int) ==> #[trigger] slots@.contains(k),
        decreases root_lod + 1 - lu,
    {
        let f = fkeys[lu];
        let lod = lu as u8;
        let ghost ft = lod_key(focus, shape, lu as nat);
        proof {
            assert(key_triple(fkeys@[lu as int]) == ft);
        }
        let r = radius as i64;
        let lx: i64 = if f.x as i64 - r < i32::MIN as i64 { i32::MIN as i64 } else { f.x as i64 - r };
        let hx: i64 = if f.x as i64 + r > i32::MAX as i64 { i32::MAX as i64 } else { f.x as i64 + r };
        let ly: i64 = if f.y as i64 - r < i32::MIN as i64 { i32::MIN as i64 } else { f.y as i64 - r };
        let hy: i64 = if f.y as i64 + r > i32::MAX as i64 { i32::MAX as i64 } else { f.y as i64 + r };
        let lz: i64 = if f.z as i64 - r < i32::MIN as i64 { i32::MIN as i64 } else { f.z as i64 - r };
        let hz: i64 = if f.z as i64 + r > i32::MAX as i64 { i32::MAX as i64 } else { f.z as i64 + r };
        let mut x: i64 = lx;
        while x <= hx && slots.len() < budget
            invariant
                skip_facts(skip, skipped, root_lod),
                shape.x >= 1 && shape.y >= 1 && shape.z >= 1,
                lx <= x <= hx + 1,
                lz <= hz,
                ly <= hy,
                i32::MIN <= lx && hx <= i32::MAX,
                lu <= root_lod,
                rad == radius as int,
                lod == lu,
                key_triple(f) == ft,
                ft == lod_key(focus, shape, lu as nat),
                lx == if ft.0 - rad < i32::MIN { i32::MIN as int } else { ft.0 - rad },
                hx == if ft.0 + rad > i32::MAX { i32::MAX as int } else { ft.0 + rad },
                ly == if ft.1 - rad < i32::MIN { i32::MIN as int } else { ft.1 - rad },
                hy == if ft.1 + rad > i32::MAX { i32::MAX as int } else { ft.1 + rad },
                lz == if ft.2 - rad < i32::MIN { i32::MIN as int } else { ft.2 - rad },
                hz == if ft.2 + rad > i32::MAX { i32::MAX as int } else { ft.2 + rad },
                r == rad,
                slots@.len() <= budget,
                0 < slots@.len() == budget ==> forall|k: ChunkKey3|
                    (in_clip(k, focus, shape, root_lod as int, rad) && !skipped(k)) && !slots@.contains(k) ==> #[trigger] key_lt(slots@.last(), k),
                forall|j: int| 0 <= j < slots@.len() ==> in_clip(#[trigger] slots@[j], focus, shape, root_lod as int, rad) && !skipped(slots@[j]),
                forall|i: int, j: int| 0 <= i < j < slots@.len() ==> key_lt(#[trigger] slots@[i], #[trigger] slots@[j]),
                forall|j: int| 0 <= j < slots@.len() ==> before(#[trigger] slots@[j], lu as int, x as int, i32::MIN as int, i32::MIN as int),
                slots@.len() < budget ==> forall|k: ChunkKey3|
                    (in_clip(k, focus, shape, root_lod as int, rad) && !skipped(k)) && before(k, lu as int, x as int, i32::MIN as int, i32::MIN as int) ==> #[trigger] slots@.contains(k),
            decreases hx + 1 - x,
        {
            let mut y: i64 = ly;
            while y <= hy && slots.len() < budget
                invariant
                    skip_facts(skip, skipped, root_lod),
                    shape.x >= 1 && shape.y >= 1 && shape.z >= 1,
                    lx <= x <= hx,
                    ly <= y <= hy + 1,
                    lz <= hz,
                    i32::MIN <= ly && hy <= i32::MAX,
                    i32::MIN <= lx && hx <= i32::MAX,
                    lu <= root_lod,
                    rad == radius as int,
                    lod == lu,
                    ft == lod_key(focus, shape, lu as nat),
                    lz == if ft.2 - rad < i32::MIN { i32::MIN as int } else { ft.2 - rad },
                    hz == if ft.2 + rad > i32::MAX { i32::MAX as int } else { ft.2 + rad },
                    ly == if ft.1 - rad < i32::MIN { i32::MIN as int } else { ft.1 - rad },
                    hy == if ft.1 + rad > i32::MAX { i32::MAX as int } else { ft.1 + rad },
                    lx == if ft.0 - rad < i32::MIN { i32::MIN as int } else { ft.0 - rad },
                    hx == if ft.0 + rad > i32::MAX { i32::MAX as int } else { ft.0 + rad },
                    slots@.len() <= budget,
                    0 < slots@.len() == budget ==> forall|k: ChunkKey3|
                        (in_clip(k, focus, shape, root_lod as int, rad) && !skipped(k)) && !slots@.contains(k) ==> #[trigger] key_lt(slots@.last(), k),
                    forall|j: int| 0 <= j < slots@.len() ==> in_clip(#[trigger] slots@[j], focus, shape, root_lod as int, rad) && !skipped(slots@[j]),
                    forall|i: int, j: int| 0 <= i < j < slots@.len() ==> key_lt(#[trigger] slots@[i], #[trigger] slots@[j]),
                    forall|j: int| 0 <= j < slots@.len() ==> before(#[trigger] slots@[j], lu as int, x as int, y as int, i32::MIN as int),
                    slots@.len() < budget ==> forall|k: ChunkKey3|
                        (in_clip(k, focus, shape, root_lod as int, rad) && !skipped(k)) && before(k, lu as int, x as int, y as int, i32::MIN as int) ==> #[trigger] slots@.contains(k),
                decreases hy + 1 - y,
            {
                let mut z: i64 = lz;
                while z <= hz && slots.len() < budget
                    invariant
                        skip_facts(skip, skipped, root_lod),
                        shape.x >= 1 && shape.y >= 1 && shape.z >= 1,
                        lx <= x <= hx,
                        ly <= y <= hy,
                        lz <= z <= hz + 1,
                        i32::MIN <= lz && hz <= i32::MAX,
                        i32::MIN <= ly && hy <= i32::MAX,
                        i32::MIN <= lx && hx <= i32::MAX,
                        lu <= root_lod,
                        rad == radius as int,
                        lod == lu,
                        ft == lod_key(focus, shape, lu as nat),
                        lz == if ft.2 - rad < i32::MIN { i32::MIN as int } else { ft.2 - rad },
                        hz == if ft.2 + rad > i32::MAX { i32::MAX as int } else { ft.2 + rad },
                        ly == if ft.1 - rad < i32::MIN { i32::MIN as int } else { ft.1 - rad },
                        hy == if ft.1 + rad > i32::MAX { i32::MAX as int } else { ft.1 + rad },
                        lx == if ft.0 - rad < i32::MIN { i32::MIN as int } else { ft.0 - rad },
                        hx == if ft.0 + rad > i32::MAX { i32::MAX as int } else { ft.0 + rad },
                        slots@.len() <= budget,
                        0 < slots@.len() == budget ==> forall|k: ChunkKey3|
                            (in_clip(k, focus, shape, root_lod as int, rad) && !skipped(k)) && !slots@.contains(k) ==> #[trigger] key_lt(slots@.last(), k),
                        forall|j: int| 0 <= j < slots@.len() ==> in_clip(#[trigger] slots@[j], focus, shape, root_lod as int, rad) && !skipped(slots@[j]),
                        forall|i: int, j: int| 0 <= i < j < slots@.len() ==> key_lt(#[trigger] slots@[i], #[trigger] slots@[j]),
                        forall|j: int| 0 <= j < slots@.len() ==> before(#[trigger] slots@[j], lu as int, x as int, y as int, z as int),
                        slots@.len() < budget ==> forall|k: ChunkKey3|
                            (in_clip(k, focus, shape, root_lod as int, rad) && !skipped(k)) && before(k, lu as int, x as int, y as int, z as int) ==> #[trigger] slots@.contains(k),
                    decreases hz + 1 - z,
                {
                    let k = ChunkKey3 { coord: Point3i { x: x as i32, y: y as i32, z: z as i32 }, lod };
                    proof {
                        assert(in_clip(k, focus, shape, root_lod as int, rad));
                    }
                    if !skip(k) {
                        proof {
                            assert(!slots@.contains(k)) by {
                                if slots@.contains(k) {
                                    let j = choose|j: int| 0 <= j < slots@.len() && slots@[j] == k;
                                    assert(before(slots@[j], lu as int, x as int, y as int, z as int));
                                }
                            }
                        }
                        slots.push(k);
                    }
                    z = z + 1;
                }
                y = y + 1;
            }
            x = x + 1;
        }
        lu = lu + 1;
    }
    proof {
        assert forall|k: ChunkKey3| (in_clip(k, focus, shape, root_lod as int, rad) && !skipped(k)) && !#[trigger] slots@.contains(k)
            implies slots@.len() == budget && (budget > 0 ==> key_lt(slots@.last(), k)) by {
            if slots@.len() < budget {
                assert(before(k, lu as int, i32::MIN as int, i32::MIN as int, i32::MIN as int));
            }
        }
    }
    slots
}

proof fn lemma_key_lt_trans(a: ChunkKey3, b: ChunkKey3, c: ChunkKey3)
    requires
        key_lt(a, b),
        key_lt(b, c),
    ensures
        key_lt(a, c),
{
}

proof fn lemma_key_lt_total(a: ChunkKey3, b: ChunkKey3)
    ensures
        a == b || key_lt(a, b) || key_lt(b, a),
        !(key_lt(a, b) && key_lt(b, a)),
        !key_lt(a, a),
{
}

/// After the merge of `update`: every pending event left out comes after the last one delivered,
/// and only a full budget leaves any out.
proof fn lemma_merge_complete(
    prior: Seq<ChunkKey3>,
    out: Seq<ChunkKey3>,
    fresh: Seq<ChunkKey3>,
    events: Seq<ClipEvent>,
    j: int,
    unloads: int,
    exhausted: bool,
    budget: int,
    focus: Point3i,
    shape: Point3i,
    rl: int,
    rad: int,
)
    requires
        events.len() <= budget,
        events.len() >= budget || exhausted,
        0 <= j <= fresh.len(),
        unloads >= 0,
        events.len() == j + unloads,
        events_ascending(events),
        forall|m: int| 0 <= m < events.len() && #[trigger] events[m] is Load ==> exists|q: int| 0 <= q < j && fresh[q] == events[m]->Load_0,
        forall|m: int| 0 <= m < events.len() && #[trigger] events[m] is Unload ==> unloads > 0,
        forall|m: int| 0 <= m < j ==> events.contains(ClipEvent::Load(#[trigger] fresh[m])),
        j < fresh.len() && events.len() > 0 ==> key_lt(event_key(events.last()), fresh[j]),
        forall|m: int| 0 <= m < out.len() && events.len() > 0 && !key_lt(event_key(events.last()), #[trigger] out[m])
            ==> events.contains(ClipEvent::Unload(out[m])),
        exhausted ==> j == fresh.len() && forall|m: int| 0 <= m < out.len() ==> !after_last(events, #[trigger] out[m]),
        forall|k: ChunkKey3| prior.contains(k) && !in_clip(k, focus, shape, rl, rad) ==> #[trigger] out.contains(k),
        forall|a: int, b: int| 0 <= a < b < fresh.len() ==> key_lt(#[trigger] fresh[a], #[trigger] fresh[b]),
        forall|k: ChunkKey3| (in_clip(k, focus, shape, rl, rad) && !prior.contains(k)) && !#[trigger] fresh.contains(k)
            ==> fresh.len() == budget && (budget > 0 ==> key_lt(fresh.last(), k)),
    ensures
        forall|e: ClipEvent|
            is_pending(prior, e, focus, shape, rl, rad) && !#[trigger] events.contains(e)
                ==> events.len() == budget && (budget > 0 ==> key_lt(event_key(events.last()), event_key(e))),
{
    assert forall|e: ClipEvent|
        is_pending(prior, e, focus, shape, rl, rad) && !#[trigger] events.contains(e)
            implies events.len() == budget && (budget > 0 ==> key_lt(event_key(events.last()), event_key(e))) by {
        match e {
            ClipEvent::Unload(k) => {
                assert(out.contains(k));
                let m = choose|m: int| 0 <= m < out.len() && out[m] == k;
                if events.len() > 0 {
                    lemma_key_lt_total(event_key(events.last()), k);
                    if event_key(events.last()) == k {
                        assert(events.contains(events.last()));
                        assert(events.last() == e || events.last() == ClipEvent::Load(k));
                        let q = choose|q: int| 0 <= q < j && fresh[q] == events.last()->Load_0;
                        assert(fresh.contains(fresh[q]));
                    }
                }
            },
            ClipEvent::Load(k) => {
                if fresh.contains(k) {
                    let q = choose|q: int| 0 <= q < fresh.len() && fresh[q] == k;
                    if q < j {
                        assert(events.contains(ClipEvent::Load(fresh[q])));
                    }
                    if events.len() > 0 && j < q {
                        lemma_key_lt_trans(event_key(events.last()), fresh[j], k);
                    }
                } else {
                    if budget > 0 {
                        let last = events.last();
                        assert(events.contains(last));
                        if j < fresh.len() {
                            if j < fresh.len() - 1 {
                                lemma_key_lt_trans(fresh[j], fresh[fresh.len() - 1], k);
                            }
                            lemma_key_lt_trans(event_key(last), fresh[j], k);
                        } else {
                            assert(last is Load);
                            let q = choose|q: int| 0 <= q < j && fresh[q] == last->Load_0;
                            if q < fresh.len() - 1 {
                                lemma_key_lt_trans(fresh[q], fresh[fresh.len() - 1], k);
                            }
                        }
                    }
                }
            },
        }
    }
}

/// The consequences of one step of `update` for the loaded set.
proof fn lemma_step_facts(
    prior: Seq<ChunkKey3>,
    kept: Seq<ChunkKey3>,
    events: Seq<ClipEvent>,
    budget: int,
    focus: Point3i,
    shape: Point3i,
    rl: int,
    rad: int,
)
    requires
        kept.no_duplicates(),
        events_ascending(events),
        forall|m: int| 0 <= m < events.len() ==> is_pending(prior, #[trigger] events[m], focus, shape, rl, rad),
        forall|k: ChunkKey3| #[trigger] kept.contains(k) <==> (prior.contains(k) && !events.contains(ClipEvent::Unload(k)))
            || events.contains(ClipEvent::Load(k)),
        forall|e: ClipEvent|
            is_pending(prior, e, focus, shape, rl, rad) && !#[trigger] events.contains(e)
                ==> events.len() == budget && (budget > 0 ==> key_lt(event_key(events.last()), event_key(e))),
    ensures
        events_consistent(prior, kept, events, focus, shape, rl, rad),
        events.len() < budget ==> forall|k: ChunkKey3| #[trigger] kept.to_set().contains(k) <==> in_clip(k, focus, shape, rl, rad),
        (forall|k: ChunkKey3| #[trigger] prior.to_set().contains(k) <==> in_clip(k, focus, shape, rl, rad)) ==> events.len() == 0,
{
    assert forall|a: int, b: int| 0 <= a < events.len() && 0 <= b < events.len() && a != b implies events[a] != events[b] by {
        if a < b {
            assert(key_lt(event_key(events[a]), event_key(events[b])));
        } else {
            assert(key_lt(event_key(events[b]), event_key(events[a])));
        }
        lemma_key_lt_total(event_key(events[a]), event_key(events[b]));
    }
    assert forall|k: ChunkKey3| #[trigger] events.contains(ClipEvent::Unload(k)) implies prior.contains(k) && !in_clip(k, focus, shape, rl, rad) by {
        let m = choose|m: int| 0 <= m < events.len() && events[m] == ClipEvent::Unload(k);
        assert(is_pending(prior, events[m], focus, shape, rl, rad));
    }
    assert forall|k: ChunkKey3| #[trigger] events.contains(ClipEvent::Load(k)) implies !prior.contains(k) && in_clip(k, focus, shape, rl, rad) by {
        let m = choose|m: int| 0 <= m < events.len() && events[m] == ClipEvent::Load(k);
        assert(is_pending(prior, events[m], focus, shape, rl, rad));
    }
    if events.len() < budget {
        assert forall|k: ChunkKey3| #[trigger] kept.to_set().contains(k) <==> in_clip(k, focus, shape, rl, rad) by {
            if in_clip(k, focus, shape, rl, rad) && !prior.contains(k) {
                assert(is_pending(prior, ClipEvent::Load(k), focus, shape, rl, rad));
            }
            if !in_clip(k, focus, shape, rl, rad) && prior.contains(k) {
                assert(is_pending(prior, ClipEvent::Unload(k), focus, shape, rl, rad));
            }
        }
    }
    if forall|k: ChunkKey3| #[trigger] prior.to_set().contains(k) <==> in_clip(k, focus, shape, rl, rad) {
        if events.len() > 0 {
            let e = events[0];
            assert(is_pending(prior, e, focus, shape, rl, rad));
            match e {
                ClipEvent::Load(k) => {
                    assert(prior.to_set().contains(k) <==> in_clip(k, focus, shape, rl, rad));
                },
                ClipEvent::Unload(k) => {
                    assert(prior.to_set().contains(k) <==> in_clip(k, focus, shape, rl, rad));
                },
            }
        }
    }
}

fn key_lt_exec(a: ChunkKey3, b: ChunkKey3) -> (r: bool)
    ensures
        r == key_lt(a, b),
{
    a.lod < b.lod || (a.lod == b.lod && (a.coord.x < b.coord.x || (a.coord.x == b.coord.x && (a.coord.y
        < b.coord.y || (a.coord.y == b.coord.y && a.coord.z < b.coord.z)))))
}

fn events_contains(v: &Vec<ClipEvent>, e: ClipEvent) -> (r: bool)
    ensures
        r == v@.contains(e),
{
    let mut i: usize = 0;
    while i < v.len()
        invariant
            i <= v@.len(),
            forall|j: int| 0 <= j < i ==> v@[j] != e,
        decreases v@.len() - i,
    {
        if v[i] == e {
            return true;
        }
        i = i + 1;
    }
    false
}

/// The smallest key of `keys` after the key of the last event, or the smallest one when there
/// is no event yet.
fn min_unload_after(keys: &Vec<ChunkKey3>, events: &Vec<ClipEvent>) -> (r: Option<ChunkKey3>)
    ensures
        match r {
            Some(b) => keys@.contains(b) && after_last(events@, b) && forall|m: int|
                0 <= m < keys@.len() && after_last(events@, #[trigger] keys@[m]) ==> b == keys@[m] || key_lt(b, keys@[m]),
            None => forall|m: int| 0 <= m < keys@.len() ==> !after_last(events@, #[trigger] keys@[m]),
        },
{
    let n = events.len();
    let mut best: Option<ChunkKey3> = None;
    let mut i: usize = 0;
    while i < keys.len()
        invariant
            i <= keys@.len(),
            n == events@.len(),
            match best {
                Some(b) => keys@.contains(b) && after_last(events@, b) && forall|m: int|
                    0 <= m < i && after_last(events@, #[trigger] keys@[m]) ==> b == keys@[m] || key_lt(b, keys@[m]),
                None => forall|m: int| 0 <= m < i ==> !after_last(events@, #[trigger] keys@[m]),
            },
        decreases keys@.len() - i,
    {
        let k = keys[i];
        let ok = if n == 0 {
            true
        } else {
            let last = match events[n - 1] {
                ClipEvent::Load(x) => x,
                ClipEvent::Unload(x) => x,
            };
            key_lt_exec(last, k)
        };
        if ok {
            match best {
                Some(b) => {
                    if key_lt_exec(k, b) {
                        best = Some(k);
                    }
                },
                None => {
                    best = Some(k);
                },
            }
        }
        i = i + 1;
    }
    best
}

/// `k` comes after the key of the last event, or there is no event.
pub open spec fn after_last(events: Seq<ClipEvent>, k: ChunkKey3) -> bool {
    events.len() == 0 || key_lt(event_key(events.last()), k)
}

fn vec_contains(v: &Vec<ChunkKey3>, k: ChunkKey3) -> (r: bool)
    ensures
        r == v@.contains(k),
{
    let mut i: usize = 0;
    while i < v.len()
        invariant
            i <= v@.len(),
            forall|j: int| 0 <= j < i ==> v@[j] != k,
        decreases v@.len() - i,
    {
        if v[i] == k {
            return true;
        }
        i = i + 1;
    }
    false
}

fn within_exec(a: i32, b: i32, r: u8) -> (res: bool)
    ensures
        res == within(a as int, b as int, r as int),
{
    let a = a as i64;
    let b = b as i64;
    let r = r as i64;
    b - r <= a && a <= b + r
}

fn in_clip_exec(k: ChunkKey3, fkeys: &Vec<Point3i>, focus: Point3i, shape: Point3i, root_lod: u8, radius: u8) -> (r: bool)
    requires
        fkeys@.len() == root_lod + 1,
        forall|l: int| 0 <= l <= root_lod ==> key_triple(#[trigger] fkeys@[l]) == lod_key(focus, shape, l as nat),
    ensures
        r == in_clip(k, focus, shape, root_lod as int, radius as int),
{
    if k.lod > root_lod {
        false
    } else {
        let f = fkeys[k.lod as usize];
        proof {
            assert(key_triple(fkeys@[k.lod as int]) == lod_key(focus, shape, k.lod as nat));
        }
        within_exec(k.coord.x, f.x, radius) && within_exec(k.coord.y, f.y, radius) && within_exec(
            k.coord.z,
            f.z,
            radius,
        )
    }
}

/// The set of chunk keys that the streaming algorithm currently treats as loaded.
pub struct ClipmapState {
    active: Vec<ChunkKey3>,
}

impl ClipmapState {
    /// No key is listed twice.
    pub closed spec fn inv(&self) -> bool {
        self.active@.no_duplicates()
    }

    /// The loaded keys, in the order they were loaded.
    pub closed spec fn active_seq(&self) -> Seq<ChunkKey3> {
        self.active@
    }

    pub open spec fn active_set(&self) -> Set<ChunkKey3> {
        self.active_seq().to_set()
    }

    /// No key loaded.
    pub fn new() -> (r: ClipmapState)
        ensures
            r.inv(),
            r.active_set() == Set::<ChunkKey3>::empty(),
    {
        let r = ClipmapState { active: Vec::new() };
        assert(r.active_set() =~= Set::<ChunkKey3>::empty());
        r
    }

    pub fn is_active(&self, k: ChunkKey3) -> (r: bool)
        ensures
            r == self.active_set().contains(k),
    {
        vec_contains(&self.active, k)
    }

    /// The loaded keys, each once.
    pub fn active_keys(&self) -> (r: Vec<ChunkKey3>)
        requires
            self.inv(),
        ensures
            r@.no_duplicates(),
            r@.to_set() == self.active_set(),
    {
        self.active.clone()
    }

    /// One step of streaming towards `focus`. The pending events are an `Unload` for each
    /// loaded key outside the clip region and a `Load` for each key of the region not loaded.
    /// The first `budget` of them, in ascending order of key (level, then coordinate), are
    /// delivered and the state takes them in; the rest stay pending for the next call.
    pub fn update(&mut self, shape: Point3i, root_lod: u8, radius: u8, focus: Point3i, budget: usize) -> (events: Vec<ClipEvent>)
        requires
            old(self).inv(),
            shape.x >= 1 && shape.y >= 1 && shape.z >= 1,
        ensures
            final(self).inv(),
            events@.len() <= budget,
            events_ascending(events@),
            forall|j: int| 0 <= j < events@.len() ==> is_pending(old(self).active_seq(), #[trigger] events@[j], focus, shape, root_lod as int, radius as int),
            forall|e: ClipEvent|
                is_pending(old(self).active_seq(), e, focus, shape, root_lod as int, radius as int) && !#[trigger] events@.contains(e)
                    ==> events@.len() == budget && (budget > 0 ==> key_lt(event_key(events@.last()), event_key(e))),
            events_consistent(old(self).active_seq(), final(self).active_seq(), events@, focus, shape, root_lod as int, radius as int),
            events@.len() < budget ==> forall|k: ChunkKey3|
                #[trigger] final(self).active_set().contains(k) <==> in_clip(k, focus, shape, root_lod as int, radius as int),
            (forall|k: ChunkKey3| #[trigger] old(self).active_set().contains(k) <==> in_clip(k, focus, shape, root_lod as int, radius as int))
                ==> events@.len() == 0,
    {
        let ghost prior = self.active@;
        let ghost rl = root_lod as int;
        let ghost rad = radius as int;
        let fkeys = focus_keys(focus, shape, root_lod);
        // the loaded keys that left the region
        let mut out: Vec<ChunkKey3> = Vec::new();
        let mut i: usize = 0;
        while i < self.active.len()
            invariant
                self.active@ == prior,
                i <= prior.len(),
                rad == radius as int,
                rl == root_lod as int,
                fkeys@.len() == root_lod + 1,
                forall|l: int| 0 <= l <= root_lod ==> key_triple(#[trigger] fkeys@[l]) == lod_key(focus, shape, l as nat),
                forall|j: int| 0 <= j < out@.len() ==> prior.contains(#[trigger] out@[j]) && !in_clip(out@[j], focus, shape, rl, rad),
                forall|j: int| 0 <= j < i && !in_clip(#[trigger] prior[j], focus, shape, rl, rad) ==> out@.contains(prior[j]),
            decreases prior.len() - i,
        {
            let k = self.active[i];
            if !in_clip_exec(k, &fkeys, focus, shape, root_lod, radius) {
                out.push(k);
            }
            i = i + 1;
        }
        // the first keys of the region that are not loaded
        let ghost skipped = |k: ChunkKey3| prior.contains(k);
        let active = &self.active;
        let skip = |k: ChunkKey3| -> (b: bool)
            ensures
                b == active@.contains(k),
            { vec_contains(active, k) };
        let fresh = region_keys(&fkeys, focus, shape, root_lod, radius, budget, skip, Ghost(skipped));
        // merge the two by ascending key, up to the budget
        let mut events: Vec<ClipEvent> = Vec::new();
        let mut j: usize = 0;
        let ghost mut unloads: int = 0;
        let mut exhausted = false;
        while events.len() < budget && !exhausted
            invariant
                events@.len() <= budget,
                j <= fresh@.len(),
                events@.len() == j + unloads,
                events_ascending(events@),
                forall|m: int| 0 <= m < events@.len() ==> is_pending(prior, #[trigger] events@[m], focus, shape, rl, rad),
                forall|m: int| 0 <= m < events@.len() && #[trigger] events@[m] is Load ==> exists|q: int| 0 <= q < j && fresh@[q] == events@[m]->Load_0,
                forall|m: int| 0 <= m < events@.len() && #[trigger] events@[m] is Unload ==> unloads > 0,
                unloads >= 0,
                exhausted ==> j == fresh@.len() && forall|m: int| 0 <= m < out@.len() ==> !after_last(events@, #[trigger] out@[m]),
                rad == radius as int,
                rl == root_lod as int,
                forall|m: int| 0 <= m < j ==> events@.contains(ClipEvent::Load(#[trigger] fresh@[m])),
                j < fresh@.len() && events@.len() > 0 ==> key_lt(event_key(events@.last()), fresh@[j as int]),
                forall|m: int| 0 <= m < out@.len() && events@.len() > 0 && !key_lt(event_key(events@.last()), #[trigger] out@[m])
                    ==> events@.contains(ClipEvent::Unload(out@[m])),
                forall|m: int| 0 <= m < out@.len() ==> prior.contains(#[trigger] out@[m]) && !in_clip(out@[m], focus, shape, rl, rad),
                forall|m: int| 0 <= m < fresh@.len() ==> in_clip(#[trigger] fresh@[m], focus, shape, rl, rad) && !prior.contains(fresh@[m]),
                forall|a: int, b: int| 0 <= a < b < fresh@.len() ==> key_lt(#[trigger] fresh@[a], #[trigger] fresh@[b]),
            decreases budget - events@.len() + if exhausted { 0int } else { 1int },
        {
            let best = min_unload_after(&out, &events);
            if j < fresh.len() {
                let l = fresh[j];
                let take_unload = match best {
                    Some(u) => key_lt_exec(u, l),
                    None => false,
                };
                if take_unload {
                    let u = best.unwrap();
                    events.push(ClipEvent::Unload(u));
                    proof { unloads = unloads + 1; }
                } else {
                    let ghost j0 = j as int;
                    events.push(ClipEvent::Load(l));
                    j = j + 1;
                    proof {
                        assert(fresh@[j0] == events@.last()->Load_0);
                    }
                }
            } else {
                match best {
                    Some(u) => {
                        events.push(ClipEvent::Unload(u));
                        proof { unloads = unloads + 1; }
                    },
                    None => {
                        exhausted = true;
                    },
                }
            }
        }
        proof {
            lemma_merge_complete(prior, out@, fresh@, events@, j as int, unloads, exhausted, budget as int, focus, shape, rl, rad);
        }
        // take the events in
        let mut kept: Vec<ChunkKey3> = Vec::new();
        let mut i: usize = 0;
        while i < self.active.len()
            invariant
                self.active@ == prior,
                prior.no_duplicates(),
                i <= prior.len(),
                kept@.no_duplicates(),
                forall|k: ChunkKey3| #[trigger] kept@.contains(k) <==> prior.subrange(0, i as int).contains(k) && !events@.contains(ClipEvent::Unload(k)),
            decreases prior.len() - i,
        {
            let k = self.active[i];
            proof {
                assert(prior.subrange(0, i as int + 1) == prior.subrange(0, i as int).push(k));
                assert(!prior.subrange(0, i as int).contains(k));
            }
            if !events_contains(&events, ClipEvent::Unload(k)) {
                proof {
                    assert(!kept@.contains(k));
                }
                kept.push(k);
            }
            i = i + 1;
        }
        proof {
            assert(prior.subrange(0, prior.len() as int) == prior);
        }
        let mut i: usize = 0;
        while i < events.len()
            invariant
                i <= events@.len(),
                kept@.no_duplicates(),
                events_ascending(events@),
                forall|m: int| 0 <= m < events@.len() ==> is_pending(prior, #[trigger] events@[m], focus, shape, rl, rad),
                forall|k: ChunkKey3| #[trigger] kept@.contains(k) <==> (prior.contains(k) && !events@.contains(ClipEvent::Unload(k)))
                    || events@.subrange(0, i as int).contains(ClipEvent::Load(k)),
            decreases events@.len() - i,
        {
            proof {
                assert(events@.subrange(0, i as int + 1) == events@.subrange(0, i as int).push(events@[i as int]));
                if let ClipEvent::Load(k) = events@[i as int] {
                    assert(!prior.contains(k));
                    if events@.subrange(0, i as int).contains(ClipEvent::Load(k)) {
                        let q = choose|q: int| 0 <= q < i && events@.subrange(0, i as int)[q] == ClipEvent::Load(k);
                        assert(events@[q] == ClipEvent::Load(k));
                    }
                }
            }
            match events[i] {
                ClipEvent::Load(k) => {
                    proof {
                        assert(!kept@.contains(k));
                    }
                    kept.push(k);
                },
                ClipEvent::Unload(_) => {},
            }
            i = i + 1;
        }
        proof {
            assert(events@.subrange(0, events@.len() as int) == events@);
        }
        self.active = kept;
        proof {
            lemma_step_facts(prior, self.active@, events@, budget as int, focus, shape, rl, rad);
            assert(old(self).active_set() == prior.to_set());
            assert(self.active_set() == self.active@.to_set());
        }
        events
    }
}

/// A key of the clip region of `focus` whose chunk is not stored in `m`.
pub open spec fn is_vacant_slot<T: Copy, B: ChunkMapBuilder<T>, S: ChunkStorage<B::Chunk>>(
    m: ChunkMap<T, B, S>,
    k: ChunkKey3,
    focus: Point3i,
    radius: int,
) -> bool {
    &&& in_clip(k, focus, m.config_spec().chunk_shape, m.config_spec().root_lod as int, radius)
    &&& !m.storage_at(k.lod as int).contains_key(k.coord)
}

impl<T: Copy, B: ChunkMapBuilder<T>, S: ChunkStorage<B::Chunk>> ChunkMap<T, B, S> {
    /// The keys of the clip region of `focus` whose chunks are vacant, at most `budget` of them:
    /// the smallest ones by ascending level and coordinate. A vacant key left out means that
    /// `budget` keys came back, all of them before it.
    pub fn clipmap_loading_slots(&self, radius: u8, focus: Point3i, budget: usize) -> (slots: Vec<ChunkKey3>)
        requires
            self.wf(),
        ensures
            slots@.len() <= budget,
            forall|j: int| 0 <= j < slots@.len() ==> is_vacant_slot(*self, #[trigger] slots@[j], focus, radius as int),
            forall|i: int, j: int| 0 <= i < j < slots@.len() ==> key_lt(#[trigger] slots@[i], #[trigger] slots@[j]),
            forall|k: ChunkKey3| is_vacant_slot(*self, k, focus, radius as int) && !#[trigger] slots@.contains(k)
                ==> slots@.len() == budget && (budget > 0 ==> key_lt(slots@.last(), k)),
    {
        let shape = self.builder().chunk_shape();
        let root_lod = self.builder().root_lod();
        proof {
            self.lemma_wf_config();
        }
        let fkeys = focus_keys(focus, shape, root_lod);
        let ghost m = *self;
        let ghost skipped = |k: ChunkKey3| m.storage_at(k.lod as int).contains_key(k.coord);
        let skip = |k: ChunkKey3| -> (b: bool)
            requires
                m.wf(),
                k.lod <= m.config_spec().root_lod,
            ensures
                b == m.storage_at(k.lod as int).contains_key(k.coord),
            { self.contains_chunk(k.lod, k.coord) };
        region_keys(&fkeys, focus, shape, root_lod, radius, budget, skip, Ghost(skipped))
    }
}

} // verus!
