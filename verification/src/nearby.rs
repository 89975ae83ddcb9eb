//! The chunks around a position, nearest first.

use vstd::prelude::*;
use crate::chunk::Chunk;
use crate::coord::ChunkCoord;
use crate::loader::{
    request_spec, resident_among, state_valid, ChunkLoader, VISIBLE_RADIUS,
};
use crate::terrain::CHUNK_SIZE;

verus! {

/// The largest radius that `coords_within` takes: squared distances within
/// it fit in a machine word with room to spare.
pub const MAX_RADIUS: i64 = 0x4000_0000;

/// The square of the distance from the origin to `(x, y, z)`.
pub open spec fn norm2(x: int, y: int, z: int) -> int {
    x * x + y * y + z * z
}

/// Whether the offset `(x, y, z)` lies strictly within `radius` of the
/// origin.
pub open spec fn within(x: int, y: int, z: int, radius: int) -> bool {
    &&& -radius <= x <= radius
    &&& -radius <= y <= radius
    &&& -radius <= z <= radius
    &&& norm2(x, y, z) < radius * radius
}

/// The order in which offsets are listed: nearer to the origin first, and
/// among offsets equally near, by `x`, then `y`, then `z`.
pub open spec fn listed_before(ax: int, ay: int, az: int, bx: int, by: int, bz: int) -> bool {
    norm2(ax, ay, az) < norm2(bx, by, bz) || (norm2(ax, ay, az) == norm2(bx, by, bz) && (ax < bx
        || (ax == bx && (ay < by || (ay == by && az < bz)))))
}

/// `list` is the list of chunks around `center`: it names exactly the
/// coordinates strictly within `radius` of `center`, each once, nearest
/// first. There is one such list for each center and radius.
pub open spec fn is_nearby_list(list: Seq<ChunkCoord>, center: ChunkCoord, radius: int) -> bool {
    &&& forall|i: int|
        0 <= i < list.len() ==> within(
            (#[trigger] list[i]).x - center.x,
            list[i].y - center.y,
            list[i].z - center.z,
            radius,
        )
    &&& forall|c: ChunkCoord|
        within(c.x - center.x, c.y - center.y, c.z - center.z, radius) ==> #[trigger] list.contains(
            c,
        )
    &&& nearest_first(list, center)
}

/// Division that rounds towards zero, for a positive divisor.
pub open spec fn div_towards_zero(a: int, b: int) -> int {
    if a >= 0 {
        a / b
    } else {
        -((-a) / b)
    }
}

/// The chunk coordinate of the world position `(x, y, z)`, given in blocks:
/// each component divided by the chunk edge, rounded towards zero.
pub open spec fn chunk_of_spec(x: i64, y: i64, z: i64) -> ChunkCoord {
    ChunkCoord {
        x: div_towards_zero(x as int, CHUNK_SIZE as int) as i64,
        y: div_towards_zero(y as int, CHUNK_SIZE as int) as i64,
        z: div_towards_zero(z as int, CHUNK_SIZE as int) as i64,
    }
}

fn div_by_chunk_size(a: i64) -> (q: i64)
    ensures
        q == div_towards_zero(a as int, CHUNK_SIZE as int),
        -0x0400_0000_0000_0000 <= q <= 0x0400_0000_0000_0000,
{
    if a >= 0 {
        a / CHUNK_SIZE
    } else if a == i64::MIN {
        -0x0400_0000_0000_0000
    } else {
        -((-a) / CHUNK_SIZE)
    }
}

/// The chunk coordinate of the world position `(x, y, z)`.
pub fn chunk_of(x: i64, y: i64, z: i64) -> (c: ChunkCoord)
    ensures
        c == chunk_of_spec(x, y, z),
{
    ChunkCoord { x: div_by_chunk_size(x), y: div_by_chunk_size(y), z: div_by_chunk_size(z) }
}

proof fn lemma_norm2_not_negative(x: int, y: int, z: int)
    by (nonlinear_arith)
    ensures
        norm2(x, y, z) >= 0,
{
}

fn square(a: i64) -> (s: i64)
    requires
        -MAX_RADIUS <= a <= MAX_RADIUS,
    ensures
        s == a * a,
        0 <= s <= MAX_RADIUS * MAX_RADIUS,
{
    assert(0 <= a * a <= 0x4000_0000 * 0x4000_0000) by (nonlinear_arith)
        requires
            -0x4000_0000 <= a <= 0x4000_0000,
    ;
    a * a
}

/// Whether the scan, which goes through squared distances in rising order
/// and through the offsets of each in the order of their components, has
/// passed the offset `(x, y, z)` when it stands at distance `d` and offset
/// `(cx, cy, cz)`.
spec fn passed(x: int, y: int, z: int, d: int, cx: int, cy: int, cz: int) -> bool {
    norm2(x, y, z) < d || (norm2(x, y, z) == d && (x < cx || (x == cx && (y < cy || (y == cy && z
        < cz)))))
}

/// What the list holds while the scan stands at distance `d` and offset
/// `(cx, cy, cz)`: the offsets within the radius that the scan has passed,
/// in the order it passed them.
spec fn scanned(
    list: Seq<ChunkCoord>,
    center: ChunkCoord,
    radius: int,
    d: int,
    cx: int,
    cy: int,
    cz: int,
) -> bool {
    &&& forall|i: int|
        0 <= i < list.len() ==> {
            let c = #[trigger] list[i];
            &&& within(c.x - center.x, c.y - center.y, c.z - center.z, radius)
            &&& passed(c.x - center.x, c.y - center.y, c.z - center.z, d, cx, cy, cz)
        }
    &&& forall|c: ChunkCoord|
        within(c.x - center.x, c.y - center.y, c.z - center.z, radius) && passed(
            c.x - center.x,
            c.y - center.y,
            c.z - center.z,
            d,
            cx,
            cy,
            cz,
        ) ==> #[trigger] list.contains(c)
    &&& nearest_first(list, center)
}

proof fn lemma_scanned_push(
    list: Seq<ChunkCoord>,
    center: ChunkCoord,
    radius: int,
    d: int,
    c: ChunkCoord,
)
    requires
        scanned(list, center, radius, d, c.x - center.x, c.y - center.y, c.z - center.z),
        within(c.x - center.x, c.y - center.y, c.z - center.z, radius),
        norm2(c.x - center.x, c.y - center.y, c.z - center.z) == d,
    ensures
        scanned(
            list.push(c),
            center,
            radius,
            d,
            c.x - center.x,
            c.y - center.y,
            c.z - center.z + 1,
        ),
{
    let next = list.push(c);
    let cx = c.x - center.x;
    let cy = c.y - center.y;
    let cz = c.z - center.z;
    assert forall|e: ChunkCoord|
        within(e.x - center.x, e.y - center.y, e.z - center.z, radius) && passed(
            e.x - center.x,
            e.y - center.y,
            e.z - center.z,
            d,
            cx,
            cy,
            cz + 1,
        ) implies #[trigger] next.contains(e) by {
        if passed(e.x - center.x, e.y - center.y, e.z - center.z, d, cx, cy, cz) {
            assert(list.contains(e));
            let i = choose|i: int| 0 <= i < list.len() && list[i] == e;
            assert(next[i] == e);
        } else {
            assert(e == c);
            assert(next[list.len() as int] == e);
        }
    }
}

/// No step of the scan is skipped where no offset is listed: an offset at
/// another distance than `d` leaves the list as it is.
proof fn lemma_scanned_skip(
    list: Seq<ChunkCoord>,
    center: ChunkCoord,
    radius: int,
    d: int,
    cx: int,
    cy: int,
    cz: int,
)
    requires
        scanned(list, center, radius, d, cx, cy, cz),
        norm2(cx, cy, cz) != d || !within(cx, cy, cz, radius),
    ensures
        scanned(list, center, radius, d, cx, cy, cz + 1),
{
    assert forall|e: ChunkCoord|
        within(e.x - center.x, e.y - center.y, e.z - center.z, radius) && passed(
            e.x - center.x,
            e.y - center.y,
            e.z - center.z,
            d,
            cx,
            cy,
            cz + 1,
        ) implies #[trigger] list.contains(e) by {
        assert(passed(e.x - center.x, e.y - center.y, e.z - center.z, d, cx, cy, cz));
    }
}

/// The coordinates strictly within `radius` of `center`, nearest first.
pub fn coords_within(center: ChunkCoord, radius: i64) -> (list: Vec<ChunkCoord>)
    requires
        0 <= radius <= MAX_RADIUS,
        i64::MIN <= center.x - radius,
        center.x + radius <= i64::MAX,
        i64::MIN <= center.y - radius,
        center.y + radius <= i64::MAX,
        i64::MIN <= center.z - radius,
        center.z + radius <= i64::MAX,
    ensures
        is_nearby_list(list@, center, radius as int),
{
    let mut list: Vec<ChunkCoord> = Vec::new();
    let limit = square(radius);
    let ghost r = radius as int;
    let mut d: i64 = 0;
    proof {
        assert forall|c: ChunkCoord|
            within(c.x - center.x, c.y - center.y, c.z - center.z, r) && passed(
                c.x - center.x,
                c.y - center.y,
                c.z - center.z,
                0,
                -r,
                -r,
                -r,
            ) implies #[trigger] list@.contains(c) by {
            lemma_norm2_not_negative(c.x - center.x, c.y - center.y, c.z - center.z);
        }
    }
    while d < limit
        invariant
            0 <= radius <= MAX_RADIUS,
            i64::MIN <= center.x - radius,
            center.x + radius <= i64::MAX,
            i64::MIN <= center.y - radius,
            center.y + radius <= i64::MAX,
            i64::MIN <= center.z - radius,
            center.z + radius <= i64::MAX,
            r == radius,
            limit == r * r,
            0 <= d <= limit,
            scanned(list@, center, r, d as int, -r, -r, -r),
        decreases limit - d,
    {
        let mut x: i64 = -radius;
        while x <= radius
            invariant
                0 <= radius <= MAX_RADIUS,
                i64::MIN <= center.x - radius,
                center.x + radius <= i64::MAX,
                i64::MIN <= center.y - radius,
                center.y + radius <= i64::MAX,
                i64::MIN <= center.z - radius,
                center.z + radius <= i64::MAX,
                r == radius,
                limit == r * r,
                0 <= d < limit,
                -r <= x <= r + 1,
                scanned(list@, center, r, d as int, x as int, -r, -r),
            decreases radius + 1 - x,
        {
            let mut y: i64 = -radius;
            while y <= radius
                invariant
                    0 <= radius <= MAX_RADIUS,
                    i64::MIN <= center.x - radius,
                    center.x + radius <= i64::MAX,
                    i64::MIN <= center.y - radius,
                    center.y + radius <= i64::MAX,
                    i64::MIN <= center.z - radius,
                    center.z + radius <= i64::MAX,
                    r == radius,
                    limit == r * r,
                    0 <= d < limit,
                    -r <= x <= r,
                    -r <= y <= r + 1,
                    scanned(list@, center, r, d as int, x as int, y as int, -r),
                decreases radius + 1 - y,
            {
                let mut z: i64 = -radius;
                while z <= radius
                    invariant
                        0 <= radius <= MAX_RADIUS,
                        i64::MIN <= center.x - radius,
                        center.x + radius <= i64::MAX,
                        i64::MIN <= center.y - radius,
                        center.y + radius <= i64::MAX,
                        i64::MIN <= center.z - radius,
                        center.z + radius <= i64::MAX,
                        r == radius,
                        limit == r * r,
                        0 <= d < limit,
                        -r <= x <= r,
                        -r <= y <= r,
                        -r <= z <= r + 1,
                        scanned(list@, center, r, d as int, x as int, y as int, z as int),
                    decreases radius + 1 - z,
                {
                    if square(x) + square(y) + square(z) == d {
                        let c = ChunkCoord { x: center.x + x, y: center.y + y, z: center.z + z };
                        proof {
                            lemma_scanned_push(list@, center, r, d as int, c);
                        }
                        list.push(c);
                    } else {
                        proof {
                            lemma_scanned_skip(
                                list@,
                                center,
                                r,
                                d as int,
                                x as int,
                                y as int,
                                z as int,
                            );
                        }
                    }
                    z += 1;
                }
                y += 1;
            }
            x += 1;
        }
        d += 1;
    }
    list
}

/// The chunks to keep loaded around the world position `(x, y, z)`, given in
/// blocks: those strictly within `VISIBLE_RADIUS` of the chunk that holds
/// the position, nearest first.
pub fn nearby_chunk_coords(x: i64, y: i64, z: i64) -> (list: Vec<ChunkCoord>)
    ensures
        is_nearby_list(list@, chunk_of_spec(x, y, z), VISIBLE_RADIUS as int),
{
    let center = ChunkCoord {
        x: div_by_chunk_size(x),
        y: div_by_chunk_size(y),
        z: div_by_chunk_size(z),
    };
    coords_within(center, VISIBLE_RADIUS as i64)
}

/// The resident chunks around the world position `(x, y, z)`, nearest
/// first: what there is to draw.
pub fn find_nearby_chunks<P>(chunk_loader: &ChunkLoader<P>, x: i64, y: i64, z: i64) -> (found: Vec<
    &Chunk<P>,
>)
    ensures
        exists|list: Seq<ChunkCoord>|
            {
                &&& is_nearby_list(list, chunk_of_spec(x, y, z), VISIBLE_RADIUS as int)
                &&& found@.len() == (#[trigger] resident_among(chunk_loader@.cache, list)).len()
                &&& forall|i: int|
                    0 <= i < found@.len() ==> *(#[trigger] found@[i]) == resident_among(
                        chunk_loader@.cache,
                        list,
                    )[i]
            },
{
    let coords = nearby_chunk_coords(x, y, z);
    chunk_loader.resident_chunks(coords.as_slice())
}

/// Asks the loader, at the time the clock reads, for the chunks around the
/// world position `(x, y, z)`, nearest first.
pub fn request_nearby_chunks<P>(chunk_loader: &mut ChunkLoader<P>, x: i64, y: i64, z: i64)
    ensures
        exists|list: Seq<ChunkCoord>, now: u64|
            {
                &&& is_nearby_list(list, chunk_of_spec(x, y, z), VISIBLE_RADIUS as int)
                &&& final(chunk_loader)@ == #[trigger] request_spec(
                    old(chunk_loader)@,
                    list,
                    now,
                    old(chunk_loader).config().policy,
                )
            },
        final(chunk_loader).config() == old(chunk_loader).config(),
        state_valid(final(chunk_loader)@),
{
    let coords = nearby_chunk_coords(x, y, z);
    chunk_loader.request(coords.as_slice());
}

/// Whether `list` is in listing order around `center`, strictly: no
/// coordinate comes twice.
pub open spec fn nearest_first(list: Seq<ChunkCoord>, center: ChunkCoord) -> bool {
    forall|i: int, j: int|
        0 <= i < j < list.len() ==> listed_before(
            (#[trigger] list[i]).x - center.x,
            list[i].y - center.y,
            list[i].z - center.z,
            (#[trigger] list[j]).x - center.x,
            list[j].y - center.y,
            list[j].z - center.z,
        )
}

/// Two lists in listing order that name the same coordinates are the same
/// list.
pub proof fn lemma_listing_order_unique(a: Seq<ChunkCoord>, b: Seq<ChunkCoord>, center: ChunkCoord)
    requires
        nearest_first(a, center),
        nearest_first(b, center),
        forall|i: int| 0 <= i < a.len() ==> b.contains(#[trigger] a[i]),
        forall|i: int| 0 <= i < b.len() ==> a.contains(#[trigger] b[i]),
    ensures
        a == b,
    decreases a.len(),
{
    if a.len() == 0 {
        if b.len() > 0 {
            assert(a.contains(b[0]));
        }
        assert(a =~= b);
    } else if b.len() == 0 {
        assert(b.contains(a[0]));
    } else {
        let la = a.last();
        let lb = b.last();
        assert(la == a[a.len() - 1] && lb == b[b.len() - 1]);
        let ia = choose|i: int| 0 <= i < b.len() && b[i] == la;
        let ib = choose|i: int| 0 <= i < a.len() && a[i] == lb;
        // each list ends with the coordinate that is listed last of all
        if la != lb {
            assert(ia < b.len() - 1 && ib < a.len() - 1);
            assert(listed_before(
                b[ia].x - center.x,
                b[ia].y - center.y,
                b[ia].z - center.z,
                b[b.len() - 1].x - center.x,
                b[b.len() - 1].y - center.y,
                b[b.len() - 1].z - center.z,
            ));
            assert(listed_before(
                a[ib].x - center.x,
                a[ib].y - center.y,
                a[ib].z - center.z,
                a[a.len() - 1].x - center.x,
                a[a.len() - 1].y - center.y,
                a[a.len() - 1].z - center.z,
            ));
            assert(false);
        }
        let pa = a.drop_last();
        let pb = b.drop_last();
        assert forall|i: int| 0 <= i < pa.len() implies pb.contains(#[trigger] pa[i]) by {
            assert(pa[i] == a[i]);
            assert(b.contains(a[i]));
            let j = choose|j: int| 0 <= j < b.len() && b[j] == a[i];
            if j == b.len() - 1 {
                assert(listed_before(
                    a[i].x - center.x,
                    a[i].y - center.y,
                    a[i].z - center.z,
                    a[a.len() - 1].x - center.x,
                    a[a.len() - 1].y - center.y,
                    a[a.len() - 1].z - center.z,
                ));
            }
            assert(pb[j] == a[i]);
        }
        assert forall|i: int| 0 <= i < pb.len() implies pa.contains(#[trigger] pb[i]) by {
            assert(pb[i] == b[i]);
            assert(a.contains(b[i]));
            let j = choose|j: int| 0 <= j < a.len() && a[j] == b[i];
            if j == a.len() - 1 {
                assert(listed_before(
                    b[i].x - center.x,
                    b[i].y - center.y,
                    b[i].z - center.z,
                    b[b.len() - 1].x - center.x,
                    b[b.len() - 1].y - center.y,
                    b[b.len() - 1].z - center.z,
                ));
            }
            assert(pa[j] == b[i]);
        }
        assert(nearest_first(pa, center)) by {
            assert forall|i: int, j: int| 0 <= i < j < pa.len() implies listed_before(
                (#[trigger] pa[i]).x - center.x,
                pa[i].y - center.y,
                pa[i].z - center.z,
                (#[trigger] pa[j]).x - center.x,
                pa[j].y - center.y,
                pa[j].z - center.z,
            ) by {
                assert(pa[i] == a[i] && pa[j] == a[j]);
            }
        }
        assert(nearest_first(pb, center)) by {
            assert forall|i: int, j: int| 0 <= i < j < pb.len() implies listed_before(
                (#[trigger] pb[i]).x - center.x,
                pb[i].y - center.y,
                pb[i].z - center.z,
                (#[trigger] pb[j]).x - center.x,
                pb[j].y - center.y,
                pb[j].z - center.z,
            ) by {
                assert(pb[i] == b[i] && pb[j] == b[j]);
            }
        }
        lemma_listing_order_unique(pa, pb, center);
        assert(a =~= pa.push(la));
        assert(b =~= pb.push(lb));
    }
}

/// There is one list of the chunks around a center: two lists that both meet
/// `is_nearby_list` are the same list.
pub proof fn law_nearby_list_unique(
    a: Seq<ChunkCoord>,
    b: Seq<ChunkCoord>,
    center: ChunkCoord,
    radius: int,
)
    requires
        is_nearby_list(a, center, radius),
        is_nearby_list(b, center, radius),
    ensures
        a == b,
{
    lemma_listing_order_unique(a, b, center);
}

} // verus!
