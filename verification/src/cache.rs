//! The bounded, coordinate-keyed chunk cache and its eviction rule.

use vstd::prelude::*;
use crate::chunk::{touched, Chunk};
use crate::coord::{coord_before, lemma_coord_order_total, spread_spec, ChunkCoord};

verus! {

/// The eviction order: the entry at `a`, last used at `ta`, leaves the cache
/// before the entry at `b`, last used at `tb`, when it was used earlier, or
/// at the same time and `a` is the lower coordinate.
pub open spec fn evicted_before(ta: u64, a: ChunkCoord, tb: u64, b: ChunkCoord) -> bool {
    ta < tb || (ta == tb && coord_before(a, b))
}

/// The eviction order is transitive.
pub proof fn lemma_evicted_before_transitive(
    ta: u64,
    a: ChunkCoord,
    tb: u64,
    b: ChunkCoord,
    tc: u64,
    c: ChunkCoord,
)
    requires
        evicted_before(ta, a, tb, b),
        evicted_before(tb, b, tc, c),
    ensures
        evicted_before(ta, a, tc, c),
{
}

/// `m` after the chunk at `c`, if one is resident, had its timestamp
/// refreshed to `now`.
pub open spec fn touch_spec<P>(m: Map<ChunkCoord, Chunk<P>>, c: ChunkCoord, now: u64) -> Map<
    ChunkCoord,
    Chunk<P>,
> {
    if m.contains_key(c) {
        m.insert(c, touched(m[c], now))
    } else {
        m
    }
}

/// `c` is resident in `m` and every other resident entry leaves after it.
pub open spec fn is_oldest<P>(m: Map<ChunkCoord, Chunk<P>>, c: ChunkCoord) -> bool {
    &&& m.contains_key(c)
    &&& forall|d: ChunkCoord| #[trigger]
        m.contains_key(d) && d != c ==> evicted_before(m[c].used_time, c, m[d].used_time, d)
}

/// The coordinate that eviction removes next from a non-empty cache.
pub open spec fn victim<P>(m: Map<ChunkCoord, Chunk<P>>) -> ChunkCoord {
    choose|c: ChunkCoord| is_oldest(m, c)
}

/// What eviction leaves of `m` under capacity `cap`: while more than `cap`
/// entries are resident, the oldest one is removed.
pub open spec fn evict_spec<P>(m: Map<ChunkCoord, Chunk<P>>, cap: nat) -> Map<ChunkCoord, Chunk<P>>
    decreases m.len(),
    when m.dom().finite()
    via evict_spec_decreases::<P>
{
    if m.len() <= cap {
        m
    } else {
        evict_spec(m.remove(victim(m)), cap)
    }
}

#[via_fn]
proof fn evict_spec_decreases<P>(m: Map<ChunkCoord, Chunk<P>>, cap: nat) {
    if m.len() > cap {
        lemma_victim_exists(m);
    }
}

/// A finite, non-empty cache has exactly one oldest entry, and `victim` is it.
pub proof fn lemma_victim_exists<P>(m: Map<ChunkCoord, Chunk<P>>)
    requires
        m.dom().finite(),
        m.len() > 0,
    ensures
        is_oldest(m, victim(m)),
        m.contains_key(victim(m)),
    decreases m.len(),
{
    let c = m.dom().choose();
    assert(m.dom().contains(c)) by {
        if m.dom().len() != 0 {
            vstd::set_lib::lemma_set_empty_equivalency_len(m.dom());
        }
    }
    let rest = m.remove(c);
    if rest.len() == 0 {
        assert forall|d: ChunkCoord| #[trigger] m.contains_key(d) && d != c implies evicted_before(
            m[c].used_time,
            c,
            m[d].used_time,
            d,
        ) by {
            assert(rest.contains_key(d));
            vstd::set_lib::lemma_set_empty_equivalency_len(rest.dom());
        }
        assert(is_oldest(m, c));
    } else {
        lemma_victim_exists(rest);
        let r = victim(rest);
        assert(m.contains_key(r));
        if evicted_before(m[c].used_time, c, m[r].used_time, r) {
            assert forall|d: ChunkCoord| #[trigger]
                m.contains_key(d) && d != c implies evicted_before(
                m[c].used_time,
                c,
                m[d].used_time,
                d,
            ) by {
                if d != r {
                    assert(rest.contains_key(d));
                }
            }
            assert(is_oldest(m, c));
        } else {
            lemma_coord_order_total(c, r);
            assert forall|d: ChunkCoord| #[trigger]
                m.contains_key(d) && d != r implies evicted_before(
                m[r].used_time,
                r,
                m[d].used_time,
                d,
            ) by {
                if d != c {
                    assert(rest.contains_key(d));
                }
            }
            assert(is_oldest(m, r));
        }
    }
}

/// Two oldest entries are the same entry.
pub proof fn lemma_oldest_unique<P>(m: Map<ChunkCoord, Chunk<P>>, a: ChunkCoord, b: ChunkCoord)
    requires
        is_oldest(m, a),
        is_oldest(m, b),
    ensures
        a == b,
{
    if a != b {
        lemma_coord_order_total(a, b);
        assert(m.contains_key(b) && b != a);
        assert(m.contains_key(a) && a != b);
    }
}

/// Eviction never leaves more than `cap` entries, removes nothing from a
/// cache within its capacity, and only ever removes: what is left is a part
/// of what was there.
pub proof fn lemma_evict_spec<P>(m: Map<ChunkCoord, Chunk<P>>, cap: nat)
    requires
        m.dom().finite(),
    ensures
        evict_spec(m, cap).dom().finite(),
        evict_spec(m, cap).len() <= cap,
        evict_spec(m, cap).len() == if m.len() <= cap { m.len() } else { cap },
        m.len() <= cap ==> evict_spec(m, cap) == m,
        evict_spec(m, cap).submap_of(m),
    decreases m.len(),
{
    if m.len() > cap {
        lemma_victim_exists(m);
        lemma_evict_spec(m.remove(victim(m)), cap);
    }
}

/// With exactly one chunk over capacity, eviction removes the oldest entry
/// and nothing else.
pub proof fn lemma_evict_one<P>(m: Map<ChunkCoord, Chunk<P>>, cap: nat, c: ChunkCoord)
    requires
        m.dom().finite(),
        m.len() == cap + 1,
        is_oldest(m, c),
    ensures
        evict_spec(m, cap) == m.remove(c),
{
    lemma_victim_exists(m);
    lemma_oldest_unique(m, victim(m), c);
    lemma_evict_spec(m.remove(c), cap);
}

/// Least recently used goes first: when the cache holds one chunk more than
/// its capacity and the chunk at `c` was last used strictly before every
/// other, eviction removes exactly the chunk at `c`.
pub proof fn law_evicts_least_recently_used<P>(
    m: Map<ChunkCoord, Chunk<P>>,
    cap: nat,
    c: ChunkCoord,
)
    requires
        m.dom().finite(),
        m.len() == cap + 1,
        m.contains_key(c),
        forall|d: ChunkCoord| #[trigger]
            m.contains_key(d) && d != c ==> m[c].used_time < m[d].used_time,
    ensures
        evict_spec(m, cap) == m.remove(c),
{
    assert(is_oldest(m, c));
    lemma_evict_one(m, cap, c);
}

/// A touch extends residency: when the cache holds one chunk more than its
/// capacity and the chunk at `c` is touched at `now`, it survives the
/// eviction that follows, and the chunk that is now the oldest is evicted in
/// its place, provided some other chunk `d` now ranks before it: last used
/// before `now`, or at `now` itself with `d` the lower coordinate.
pub proof fn law_touch_extends_residency<P>(
    m: Map<ChunkCoord, Chunk<P>>,
    cap: nat,
    c: ChunkCoord,
    now: u64,
    d: ChunkCoord,
)
    requires
        m.dom().finite(),
        m.len() == cap + 1,
        m.contains_key(c),
        m.contains_key(d),
        d != c,
        evicted_before(m[d].used_time, d, now, c),
    ensures
        evict_spec(touch_spec(m, c, now), cap).contains_key(c),
        evict_spec(touch_spec(m, c, now), cap)[c] == touched(m[c], now),
        exists|v: ChunkCoord|
            v != c && is_oldest(touch_spec(m, c, now), v) && evict_spec(
                touch_spec(m, c, now),
                cap,
            ) == (#[trigger] touch_spec(m, c, now).remove(v)),
{
    let t = touch_spec(m, c, now);
    assert(t.dom() =~= m.dom());
    lemma_victim_exists(t);
    let v = victim(t);
    if v == c {
        assert(t.contains_key(d) && d != c);
        lemma_coord_order_total(c, d);
    }
    lemma_evict_one(t, cap, v);
}

/// One resident chunk under the coordinate it was inserted at.
struct Slot<P> {
    key: ChunkCoord,
    chunk: Chunk<P>,
}

/// No two slots hold the same coordinate.
spec fn keys_distinct<P>(s: Seq<Slot<P>>) -> bool {
    forall|i: int, j: int| 0 <= i < j < s.len() ==> (#[trigger] s[i]).key != (#[trigger] s[j]).key
}

/// Some slot holds the coordinate `c`.
spec fn has_key<P>(s: Seq<Slot<P>>, c: ChunkCoord) -> bool {
    exists|i: int| 0 <= i < s.len() && (#[trigger] s[i]).key == c
}

/// The position of a slot that holds the coordinate `c`.
spec fn slot_of<P>(s: Seq<Slot<P>>, c: ChunkCoord) -> int {
    choose|i: int| 0 <= i < s.len() && (#[trigger] s[i]).key == c
}

/// The map that the slots stand for.
spec fn slots_map<P>(s: Seq<Slot<P>>) -> Map<ChunkCoord, Chunk<P>> {
    Map::new(|c: ChunkCoord| has_key(s, c), |c: ChunkCoord| s[slot_of(s, c)].chunk)
}

/// Each slot is the one found for its coordinate, and the map holds its
/// chunk there.
proof fn lemma_slot_lookup<P>(s: Seq<Slot<P>>, i: int)
    requires
        keys_distinct(s),
        0 <= i < s.len(),
    ensures
        has_key(s, s[i].key),
        slot_of(s, s[i].key) == i,
        slots_map(s).contains_key(s[i].key),
        slots_map(s)[s[i].key] == s[i].chunk,
{
    let j = slot_of(s, s[i].key);
    assert(s[j].key == s[i].key);
}

/// A slot appended for a new coordinate is an insertion into the map.
proof fn lemma_slots_push<P>(s: Seq<Slot<P>>, slot: Slot<P>)
    requires
        keys_distinct(s),
        !has_key(s, slot.key),
    ensures
        keys_distinct(s.push(slot)),
        slots_map(s.push(slot)) == slots_map(s).insert(slot.key, slot.chunk),
{
    let t = s.push(slot);
    assert(keys_distinct(t)) by {
        assert forall|i: int, j: int| 0 <= i < j < t.len() implies (#[trigger] t[i]).key != (
        #[trigger] t[j]).key by {
            if j == s.len() {
                assert(s[i].key != slot.key);
            } else {
                assert(s[i].key != s[j].key);
            }
        }
    }
    assert forall|c: ChunkCoord| has_key(t, c) <==> (has_key(s, c) || c == slot.key) by {
        if has_key(t, c) {
            let i = slot_of(t, c);
            if i < s.len() {
                assert(s[i].key == c);
            }
        }
        if has_key(s, c) {
            let i = slot_of(s, c);
            assert(t[i].key == c);
        }
        if c == slot.key {
            assert(t[s.len() as int].key == c);
        }
    }
    assert forall|c: ChunkCoord| has_key(t, c) implies #[trigger] slots_map(t)[c] == slots_map(
        s,
    ).insert(slot.key, slot.chunk)[c] by {
        let i = slot_of(t, c);
        lemma_slot_lookup(t, i);
        if i < s.len() {
            assert(s[i].key == c);
            lemma_slot_lookup(s, i);
        }
    }
    assert(slots_map(t) =~= slots_map(s).insert(slot.key, slot.chunk));
}

/// A slot taken out, with the last slot moved into its place, is a removal
/// from the map.
proof fn lemma_slots_swap_remove<P>(s: Seq<Slot<P>>, i: int)
    requires
        keys_distinct(s),
        0 <= i < s.len(),
    ensures
        keys_distinct(s.update(i, s.last()).drop_last()),
        !has_key(s.update(i, s.last()).drop_last(), s[i].key),
        slots_map(s.update(i, s.last()).drop_last()) == slots_map(s).remove(s[i].key),
{
    let t = s.update(i, s.last()).drop_last();
    let last = s.len() - 1;
    // where each slot of `t` sat in `s`
    let origin = |j: int| if j == i { last } else { j };
    assert(forall|j: int| 0 <= j < t.len() ==> (#[trigger] t[j]) == s[origin(j)]);
    assert(keys_distinct(t)) by {
        assert forall|a: int, b: int| 0 <= a < b < t.len() implies (#[trigger] t[a]).key != (
        #[trigger] t[b]).key by {
            let oa = origin(a);
            let ob = origin(b);
            assert(t[a] == s[oa] && t[b] == s[ob]);
            if oa < ob {
                assert(s[oa].key != s[ob].key);
            } else {
                assert(s[ob].key != s[oa].key);
            }
        }
    }
    assert forall|c: ChunkCoord| has_key(t, c) <==> (has_key(s, c) && c != s[i].key) by {
        if has_key(t, c) {
            let j = slot_of(t, c);
            let oj = origin(j);
            assert(t[j] == s[oj]);
            assert(s[oj].key == c);
            if oj < i {
                assert(s[oj].key != s[i].key);
            } else {
                assert(s[i].key != s[oj].key);
            }
        }
        if has_key(s, c) && c != s[i].key {
            let j = slot_of(s, c);
            if j == last {
                assert(t[i].key == c);
            } else {
                assert(t[j].key == c);
            }
        }
    }
    assert forall|c: ChunkCoord| has_key(t, c) implies #[trigger] slots_map(t)[c] == slots_map(
        s,
    ).remove(s[i].key)[c] by {
        let j = slot_of(t, c);
        lemma_slot_lookup(t, j);
        let oj = origin(j);
        assert(t[j] == s[oj]);
        lemma_slot_lookup(s, oj);
    }
    assert(slots_map(t) =~= slots_map(s).remove(s[i].key));
}

/// The map has as many entries as there are slots.
proof fn lemma_slots_len<P>(s: Seq<Slot<P>>)
    requires
        keys_distinct(s),
    ensures
        slots_map(s).dom().finite(),
        slots_map(s).len() == s.len(),
    decreases s.len(),
{
    if s.len() == 0 {
        assert(slots_map(s) =~= Map::empty());
    } else {
        let init = s.drop_last();
        assert(keys_distinct(init)) by {
            assert forall|i: int, j: int| 0 <= i < j < init.len() implies (#[trigger] init[i]).key
                != (#[trigger] init[j]).key by {
                assert(s[i].key != s[j].key);
            }
        }
        assert(!has_key(init, s.last().key)) by {
            if has_key(init, s.last().key) {
                let i = slot_of(init, s.last().key);
                assert(s[i].key != s[s.len() - 1].key);
            }
        }
        lemma_slots_len(init);
        lemma_slots_push(init, s.last());
        assert(init.push(s.last()) =~= s);
    }
}

/// A chunk replaced in its slot is an overwrite in the map.
proof fn lemma_slots_replace<P>(s: Seq<Slot<P>>, i: int, chunk: Chunk<P>)
    requires
        keys_distinct(s),
        0 <= i < s.len(),
    ensures
        keys_distinct(s.update(i, Slot { key: s[i].key, chunk })),
        slots_map(s.update(i, Slot { key: s[i].key, chunk })) == slots_map(s).insert(
            s[i].key,
            chunk,
        ),
{
    let t = s.update(i, Slot { key: s[i].key, chunk });
    assert(keys_distinct(t)) by {
        assert forall|a: int, b: int| 0 <= a < b < t.len() implies (#[trigger] t[a]).key != (
        #[trigger] t[b]).key by {
            assert(t[a].key == s[a].key && t[b].key == s[b].key);
        }
    }
    assert forall|c: ChunkCoord| has_key(t, c) <==> has_key(s, c) by {
        if has_key(t, c) {
            let j = slot_of(t, c);
            assert(s[j].key == c);
        }
        if has_key(s, c) {
            let j = slot_of(s, c);
            assert(t[j].key == c);
        }
    }
    lemma_slot_lookup(s, i);
    assert forall|c: ChunkCoord| has_key(t, c) implies #[trigger] slots_map(t)[c] == slots_map(
        s,
    ).insert(s[i].key, chunk)[c] by {
        let j = slot_of(t, c);
        lemma_slot_lookup(t, j);
        assert(s[j].key == c);
        lemma_slot_lookup(s, j);
    }
    assert(slots_map(t) =~= slots_map(s).insert(s[i].key, chunk));
}

/// What the index promises of the slots, where there is one: each entry of a
/// bucket is the position of a slot whose key belongs in that bucket, and
/// the position of every slot is entered in the bucket of its key. Without
/// buckets there is no index, and slots are found by going through them.
spec fn index_ok<P>(slots: Seq<Slot<P>>, index: Seq<Vec<usize>>) -> bool {
    index.len() > 0 ==> {
        &&& forall|b: int, j: int|
            0 <= b < index.len() && 0 <= j < index[b]@.len() ==> {
                let p = #[trigger] index[b]@[j];
                p < slots.len() && spread_spec(slots[p as int].key, index.len() as usize) == b
            }
        &&& forall|i: int|
            0 <= i < slots.len() ==> index[spread_spec(
                (#[trigger] slots[i]).key,
                index.len() as usize,
            ) as int]@.contains(i as usize)
    }
}

/// Takes every entry `x` out of the bucket.
fn drop_entry(bucket: &mut Vec<usize>, x: usize)
    ensures
        forall|y: usize| final(bucket)@.contains(y) <==> old(bucket)@.contains(y) && y != x,
{
    let mut k: usize = 0;
    while k < bucket.len()
        invariant
            k <= bucket@.len(),
            forall|j: int| 0 <= j < k ==> bucket@[j] != x,
            forall|y: usize| bucket@.contains(y) ==> old(bucket)@.contains(y),
            forall|y: usize| old(bucket)@.contains(y) && y != x ==> bucket@.contains(y),
        decreases bucket@.len() - k,
    {
        if bucket[k] == x {
            let ghost before = bucket@;
            bucket.swap_remove(k);
            proof {
                assert forall|y: usize| bucket@.contains(y) implies before.contains(y) by {
                    let j = choose|j: int| 0 <= j < bucket@.len() && bucket@[j] == y;
                    if j == k {
                        assert(before[before.len() - 1] == y);
                    } else {
                        assert(before[j] == y);
                    }
                }
                assert forall|y: usize| before.contains(y) && y != x implies bucket@.contains(
                    y,
                ) by {
                    let j = choose|j: int| 0 <= j < before.len() && before[j] == y;
                    if j == before.len() - 1 {
                        assert(bucket@[k as int] == y);
                    } else {
                        assert(bucket@[j] == y);
                    }
                }
            }
        } else {
            k += 1;
        }
    }
    proof {
        assert forall|y: usize| bucket@.contains(y) implies y != x by {
            let j = choose|j: int| 0 <= j < bucket@.len() && bucket@[j] == y;
        }
    }
}

/// Makes every entry `from` of the bucket an entry `to`.
fn rename_entry(bucket: &mut Vec<usize>, from: usize, to: usize)
    ensures
        final(bucket)@.len() == old(bucket)@.len(),
        forall|j: int|
            0 <= j < old(bucket)@.len() ==> #[trigger] final(bucket)@[j] == if old(bucket)@[j]
                == from {
                to
            } else {
                old(bucket)@[j]
            },
{
    let mut k: usize = 0;
    while k < bucket.len()
        invariant
            k <= bucket@.len(),
            bucket@.len() == old(bucket)@.len(),
            forall|j: int|
                0 <= j < k ==> #[trigger] bucket@[j] == if old(bucket)@[j] == from {
                    to
                } else {
                    old(bucket)@[j]
                },
            forall|j: int| k <= j < bucket@.len() ==> #[trigger] bucket@[j] == old(bucket)@[j],
        decreases bucket@.len() - k,
    {
        if bucket[k] == from {
            bucket[k] = to;
        }
        k += 1;
    }
}

/// Appends a slot and enters it in the index.
fn indexed_push<P>(slots: &mut Vec<Slot<P>>, index: &mut Vec<Vec<usize>>, slot: Slot<P>)
    requires
        index_ok(old(slots)@, old(index)@),
    ensures
        final(slots)@ == old(slots)@.push(slot),
        final(index)@.len() == old(index)@.len(),
        index_ok(final(slots)@, final(index)@),
{
    let pos = slots.len();
    let ghost before = index@;
    if index.len() > 0 {
        let b = slot.key.spread(index.len());
        index[b].push(pos);
    }
    slots.push(slot);
    proof {
        if index@.len() > 0 {
            let n = index@.len() as usize;
            let b = spread_spec(slot.key, n) as int;
            assert forall|c: int, j: int| 0 <= c < index@.len() && 0 <= j < index@[c]@.len() implies {
                let p = #[trigger] index@[c]@[j];
                p < slots@.len() && spread_spec(slots@[p as int].key, n) == c
            } by {
                if c == b && j == before[b]@.len() {
                } else {
                    assert(index@[c]@[j] == before[c]@[j]);
                }
            }
            assert forall|i: int| 0 <= i < slots@.len() implies index@[spread_spec(
                (#[trigger] slots@[i]).key,
                n,
            ) as int]@.contains(i as usize) by {
                let c = spread_spec(slots@[i].key, n) as int;
                if i == pos {
                    assert(index@[c]@[before[c]@.len() as int] == pos);
                } else {
                    assert(slots@[i] == old(slots)@[i]);
                    assert(before[c]@.contains(i as usize));
                    let j = choose|j: int| 0 <= j < before[c]@.len() && before[c]@[j] == i as usize;
                    assert(index@[c]@[j] == i as usize);
                }
            }
        }
    }
}

/// Takes the slot at position `i` out, moves the last slot into its place,
/// and brings the index up to date.
fn indexed_swap_remove<P>(slots: &mut Vec<Slot<P>>, index: &mut Vec<Vec<usize>>, i: usize) -> (slot:
    Slot<P>)
    requires
        i < old(slots)@.len(),
        index_ok(old(slots)@, old(index)@),
    ensures
        slot == old(slots)@[i as int],
        final(slots)@ == old(slots)@.update(i as int, old(slots)@.last()).drop_last(),
        final(index)@.len() == old(index)@.len(),
        index_ok(final(slots)@, final(index)@),
{
    let last = slots.len() - 1;
    let ghost before = index@;
    let ghost old_slots = slots@;
    if index.len() > 0 {
        let n = index.len();
        let bi = slots[i].key.spread(n);
        drop_entry(&mut index[bi], i);
        let ghost dropped = index@;
        if i != last {
            let bl = slots[last].key.spread(n);
            rename_entry(&mut index[bl], last, i);
            proof {
                let moved = index@;
                assert forall|c: int, j: int|
                    0 <= c < moved.len() && 0 <= j < moved[c]@.len() implies {
                    let p = #[trigger] moved[c]@[j];
                    p != last && (p == i ==> c == bl) && (p != i ==> before[c]@.contains(p))
                } by {
                    let q = dropped[c]@[j];
                    assert(dropped[c]@.contains(q));
                    assert(before[c]@.contains(q));
                    let k = choose|k: int| 0 <= k < before[c]@.len() && before[c]@[k] == q;
                    assert(before[c]@[k] == q);
                }
                assert forall|c: int, y: usize|
                    0 <= c < moved.len() && before[c]@.contains(y) && y != i && y
                        != last implies #[trigger] moved[c]@.contains(y) by {
                    assert(dropped[c]@.contains(y));
                    let k = choose|k: int| 0 <= k < dropped[c]@.len() && dropped[c]@[k] == y;
                    assert(moved[c]@[k] == y);
                }
                assert(moved[bl as int]@.contains(i)) by {
                    assert(before[bl as int]@.contains(last));
                    assert(dropped[bl as int]@.contains(last));
                    let k = choose|k: int|
                        0 <= k < dropped[bl as int]@.len() && dropped[bl as int]@[k] == last;
                    assert(moved[bl as int]@[k] == i);
                }
            }
        } else {
            proof {
                assert forall|c: int, j: int|
                    0 <= c < index@.len() && 0 <= j < index@[c]@.len() implies {
                    let p = #[trigger] index@[c]@[j];
                    p != last && before[c]@.contains(p)
                } by {
                    let q = index@[c]@[j];
                    assert(index@[c]@.contains(q));
                    assert(before[c]@.contains(q));
                    let k = choose|k: int| 0 <= k < before[c]@.len() && before[c]@[k] == q;
                    assert(before[c]@[k] == q);
                }
                assert forall|c: int, y: usize|
                    0 <= c < index@.len() && before[c]@.contains(y) && y != i implies #[trigger] index@[c]@.contains(
                    y,
                ) by {
                }
            }
        }
    }
    let ghost settled = index@;
    let slot = slots.swap_remove(i);
    proof {
        if settled.len() > 0 {
            let n = settled.len() as usize;
            assert forall|c: int, j: int|
                0 <= c < settled.len() && 0 <= j < settled[c]@.len() implies {
                let p = #[trigger] settled[c]@[j];
                p < slots@.len() && spread_spec(slots@[p as int].key, n) == c
            } by {
                let p = settled[c]@[j];
                if p != i || i == last {
                    assert(before[c]@.contains(p));
                    let k = choose|k: int| 0 <= k < before[c]@.len() && before[c]@[k] == p;
                    assert(before[c]@[k] == p);
                }
            }
            assert forall|q: int| 0 <= q < slots@.len() implies settled[spread_spec(
                (#[trigger] slots@[q]).key,
                n,
            ) as int]@.contains(q as usize) by {
                if q != i {
                    assert(slots@[q] == old_slots[q]);
                    let c = spread_spec(old_slots[q].key, n) as int;
                    assert(before[c]@.contains(q as usize));
                } else {
                    assert(slots@[q] == old_slots[last as int]);
                }
            }
        }
    }
    slot
}

/// The position of the slot of `coord`: looked up in the bucket of its hash
/// where there is an index, and by going through the slots where there is
/// none.
fn find_slot<P>(slots: &Vec<Slot<P>>, index: &Vec<Vec<usize>>, coord: ChunkCoord) -> (r: Option<
    usize,
>)
    requires
        index_ok(slots@, index@),
    ensures
        match r {
            Some(i) => i < slots@.len() && slots@[i as int].key == coord,
            None => !has_key(slots@, coord),
        },
{
    if index.len() == 0 {
        let mut i: usize = 0;
        while i < slots.len()
            invariant
                i <= slots@.len(),
                forall|j: int| 0 <= j < i ==> (#[trigger] slots@[j]).key != coord,
            decreases slots@.len() - i,
        {
            if slots[i].key == coord {
                return Some(i);
            }
            i += 1;
        }
        None
    } else {
        let b = coord.spread(index.len());
        let bucket = &index[b];
        let mut j: usize = 0;
        while j < bucket.len()
            invariant
                j <= bucket@.len(),
                index_ok(slots@, index@),
                b < index@.len(),
                *bucket == index@[b as int],
                forall|k: int| 0 <= k < j ==> slots@[(#[trigger] bucket@[k]) as int].key != coord,
            decreases bucket@.len() - j,
        {
            let p = bucket[j];
            if slots[p].key == coord {
                return Some(p);
            }
            j += 1;
        }
        proof {
            if has_key(slots@, coord) {
                let i = slot_of(slots@, coord);
                assert(slots@[i].key == coord);
                let home = spread_spec(slots@[i].key, index@.len() as usize) as int;
                assert(home == b);
                assert(index@[home]@.contains(i as usize));
                let k = choose|k: int| 0 <= k < bucket@.len() && bucket@[k] == i as usize;
                assert(slots@.len() == slots.len());
                assert(slots@[bucket@[k] as int].key != coord);
            }
        }
        None
    }
}

/// The number of buckets that a cache of capacity `capacity` is indexed
/// with: about one for each chunk it is meant to hold.
fn bucket_count(capacity: usize) -> (n: usize)
    ensures
        16 <= n <= 65536,
{
    if capacity < 16 {
        16
    } else if capacity > 65536 {
        65536
    } else {
        capacity
    }
}

/// The resident chunks, keyed by coordinate, with the bound that eviction
/// restores.
///
/// The cache is the sole owner of every resident chunk. It is a map from
/// coordinate to chunk: at most one chunk per coordinate, and the order of
/// insertion plays no part in what it holds or in what eviction removes.
/// Chunks are found through an index of buckets by the hash of their
/// coordinate; eviction goes through all of them for the oldest.
pub struct ChunkCache<P> {
    slots: Vec<Slot<P>>,
    index: Vec<Vec<usize>>,
    capacity: usize,
}

impl<P> View for ChunkCache<P> {
    type V = Map<ChunkCoord, Chunk<P>>;

    closed spec fn view(&self) -> Map<ChunkCoord, Chunk<P>> {
        slots_map(self.slots@)
    }
}

impl<P> ChunkCache<P> {
    #[verifier::type_invariant]
    spec fn well_formed(self) -> bool {
        &&& keys_distinct(self.slots@)
        &&& index_ok(self.slots@, self.index@)
    }

    /// The number of chunks that eviction leaves resident at most.
    pub closed spec fn spec_capacity(&self) -> usize {
        self.capacity
    }

    /// An empty cache bounded by `capacity`.
    pub fn new(capacity: usize) -> (cache: ChunkCache<P>)
        ensures
            cache@ == Map::<ChunkCoord, Chunk<P>>::empty(),
            cache.capacity() == capacity,
    {
        let n = bucket_count(capacity);
        let mut index: Vec<Vec<usize>> = Vec::new();
        while index.len() < n
            invariant
                index@.len() <= n,
                forall|b: int| 0 <= b < index@.len() ==> (#[trigger] index@[b])@.len() == 0,
            decreases n - index@.len(),
        {
            index.push(Vec::new());
        }
        let cache = ChunkCache { slots: Vec::new(), index, capacity };
        assert(slots_map(cache.slots@) =~= Map::empty());
        cache
    }

    /// An empty cache without an index, to stand in for one that is being
    /// worked on.
    pub(crate) fn placeholder() -> (cache: ChunkCache<P>)
        ensures
            cache@ == Map::<ChunkCoord, Chunk<P>>::empty(),
    {
        let cache = ChunkCache { slots: Vec::new(), index: Vec::new(), capacity: 0 };
        assert(slots_map(cache.slots@) =~= Map::empty());
        cache
    }

    /// The number of chunks that eviction leaves resident at most.
    #[verifier::when_used_as_spec(spec_capacity)]
    pub fn capacity(&self) -> (cap: usize)
        ensures
            cap == self.spec_capacity(),
    {
        self.capacity
    }

    /// The number of resident chunks.
    pub fn len(&self) -> (n: usize)
        ensures
            self@.dom().finite(),
            n == self@.len(),
    {
        proof {
            use_type_invariant(self);
            lemma_slots_len(self.slots@);
        }
        self.slots.len()
    }

    /// The position of the slot of `coord`, looked up in the bucket of its
    /// hash.
    fn find(&self, coord: ChunkCoord) -> (r: Option<usize>)
        ensures
            match r {
                Some(i) => i < self.slots@.len() && self.slots@[i as int].key == coord,
                None => !has_key(self.slots@, coord),
            },
    {
        proof {
            use_type_invariant(self);
        }
        find_slot(&self.slots, &self.index, coord)
    }

    /// Whether a chunk is resident at `coord`.
    pub fn contains(&self, coord: ChunkCoord) -> (r: bool)
        ensures
            r == self@.contains_key(coord),
    {
        self.find(coord).is_some()
    }

    /// The chunk resident at `coord`, if there is one. A pure lookup: the
    /// timestamp is not refreshed.
    pub fn get(&self, coord: ChunkCoord) -> (r: Option<&Chunk<P>>)
        ensures
            match r {
                Some(ch) => self@.contains_key(coord) && *ch == self@[coord],
                None => !self@.contains_key(coord),
            },
    {
        match self.find(coord) {
            Some(i) => {
                proof {
                    use_type_invariant(self);
                    lemma_slot_lookup(self.slots@, i as int);
                }
                Some(&self.slots[i].chunk)
            },
            None => None,
        }
    }

    /// Makes `chunk` the chunk resident at `coord`, in place of any chunk that
    /// was resident there. Nothing is evicted here: the cache may hold more
    /// than its capacity until [`ChunkCache::evict_if_over_capacity`] runs.
    pub fn insert(&mut self, coord: ChunkCoord, chunk: Chunk<P>)
        ensures
            final(self)@ == old(self)@.insert(coord, chunk),
            final(self)@.dom().finite(),
            final(self).capacity() == old(self).capacity(),
    {
        proof {
            use_type_invariant(&*self);
        }
        let found = self.find(coord);
        let mut index = Vec::new();
        std::mem::swap(&mut index, &mut self.index);
        let mut slots = Vec::new();
        std::mem::swap(&mut slots, &mut self.slots);
        match found {
            Some(i) => {
                proof {
                    lemma_slots_replace(slots@, i as int, chunk);
                }
                slots[i] = Slot { key: coord, chunk };
            },
            None => {
                proof {
                    lemma_slots_push(slots@, Slot { key: coord, chunk });
                }
                indexed_push(&mut slots, &mut index, Slot { key: coord, chunk });
            },
        }
        proof {
            lemma_slots_len(slots@);
        }
        self.slots = slots;
        self.index = index;
    }

    /// Refreshes to `now` the timestamp of the chunk resident at `coord`, and
    /// says whether there was one. A coordinate that is not resident leaves
    /// the cache as it was.
    pub fn touch(&mut self, coord: ChunkCoord, now: u64) -> (resident: bool)
        ensures
            resident == old(self)@.contains_key(coord),
            final(self)@ == touch_spec(old(self)@, coord, now),
            final(self)@.dom().finite(),
            final(self).capacity() == old(self).capacity(),
    {
        proof {
            use_type_invariant(&*self);
        }
        proof {
            lemma_slots_len(self.slots@);
        }
        match self.find(coord) {
            Some(i) => {
                let mut index = Vec::new();
                std::mem::swap(&mut index, &mut self.index);
                let mut slots = Vec::new();
                std::mem::swap(&mut slots, &mut self.slots);
                proof {
                    lemma_slot_lookup(slots@, i as int);
                    lemma_slots_replace(slots@, i as int, touched(slots@[i as int].chunk, now));
                }
                slots[i].chunk.used_time = now;
                proof {
                    lemma_slots_len(slots@);
                }
                self.slots = slots;
                self.index = index;
                true
            },
            None => false,
        }
    }

    /// The position of the slot that leaves first.
    fn oldest_slot(&self) -> (i: usize)
        requires
            self.slots@.len() > 0,
        ensures
            i < self.slots@.len(),
            is_oldest(self@, self.slots@[i as int].key),
    {
        proof {
            use_type_invariant(self);
        }
        let mut best: usize = 0;
        let mut i: usize = 1;
        while i < self.slots.len()
            invariant
                keys_distinct(self.slots@),
                best < i <= self.slots@.len(),
                forall|j: int|
                    0 <= j < i && j != best ==> evicted_before(
                        self.slots@[best as int].chunk.used_time,
                        self.slots@[best as int].key,
                        (#[trigger] self.slots@[j]).chunk.used_time,
                        self.slots@[j].key,
                    ),
            decreases self.slots@.len() - i,
        {
            let cand = &self.slots[i];
            let cur = &self.slots[best];
            proof {
                lemma_coord_order_total(cand.key, cur.key);
                assert(self.slots@[best as int].key != self.slots@[i as int].key);
            }
            if cand.chunk.used_time < cur.chunk.used_time || (cand.chunk.used_time
                == cur.chunk.used_time && cand.key.before(&cur.key)) {
                proof {
                    let ghost old_best = best as int;
                    assert forall|j: int| 0 <= j < i + 1 && j != i implies evicted_before(
                        self.slots@[i as int].chunk.used_time,
                        self.slots@[i as int].key,
                        (#[trigger] self.slots@[j]).chunk.used_time,
                        self.slots@[j].key,
                    ) by {
                        if j != old_best {
                            lemma_evicted_before_transitive(
                                cand.chunk.used_time,
                                cand.key,
                                cur.chunk.used_time,
                                cur.key,
                                self.slots@[j].chunk.used_time,
                                self.slots@[j].key,
                            );
                        }
                    }
                }
                best = i;
            }
            i += 1;
        }
        proof {
            let s = self.slots@;
            lemma_slot_lookup(s, best as int);
            assert forall|d: ChunkCoord| #[trigger]
                self@.contains_key(d) && d != s[best as int].key implies evicted_before(
                self@[s[best as int].key].used_time,
                s[best as int].key,
                self@[d].used_time,
                d,
            ) by {
                let j = slot_of(s, d);
                lemma_slot_lookup(s, j);
            }
        }
        best
    }

    /// Restores the bound: while more chunks are resident than the capacity
    /// allows, the one used longest ago is removed; among chunks used at the
    /// same time, the one at the lowest coordinate goes first.
    pub fn evict_if_over_capacity(&mut self)
        ensures
            final(self)@ == evict_spec(old(self)@, old(self).capacity() as nat),
            final(self)@.dom().finite(),
            final(self)@.len() <= final(self).capacity(),
            final(self).capacity() == old(self).capacity(),
    {
        proof {
            use_type_invariant(&*self);
            lemma_slots_len(self.slots@);
            lemma_evict_spec(self@, self.capacity as nat);
        }
        while self.slots.len() > self.capacity
            invariant
                self.capacity == old(self).capacity,
                keys_distinct(self.slots@),
                index_ok(self.slots@, self.index@),
                self@.dom().finite(),
                self@.len() == self.slots@.len(),
                evict_spec(self@, self.capacity as nat) == evict_spec(
                    old(self)@,
                    self.capacity as nat,
                ),
            decreases self.slots@.len(),
        {
            let i = self.oldest_slot();
            let mut index = Vec::new();
            std::mem::swap(&mut index, &mut self.index);
            let mut slots = Vec::new();
            std::mem::swap(&mut slots, &mut self.slots);
            proof {
                let m = slots_map(slots@);
                lemma_victim_exists(m);
                lemma_oldest_unique(m, victim(m), slots@[i as int].key);
                lemma_slots_swap_remove(slots@, i as int);
            }
            indexed_swap_remove(&mut slots, &mut index, i);
            proof {
                lemma_slots_len(slots@);
            }
            self.slots = slots;
            self.index = index;
        }
        proof {
            lemma_evict_spec(self@, self.capacity as nat);
        }
    }
}

} // verus!
