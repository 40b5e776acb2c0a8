use vstd::prelude::*;

use crate::coords::ChunkCoord;

verus! {

/// Sort key of a chunk: compared field by field, in declaration order.
#[derive(Debug, Clone, Copy, PartialEq, Eq, Structural)]
pub struct ChunkPriority {
    pub rank: u8,
    pub depth: i32,
    pub distance: i32,
    pub y: i32,
    pub z: i32,
    pub x: i32,
}

/// `a` comes strictly before `b`.
pub open spec fn priority_lt(a: ChunkPriority, b: ChunkPriority) -> bool {
    if a.rank != b.rank {
        a.rank < b.rank
    } else if a.depth != b.depth {
        a.depth < b.depth
    } else if a.distance != b.distance {
        a.distance < b.distance
    } else if a.y != b.y {
        a.y < b.y
    } else if a.z != b.z {
        a.z < b.z
    } else {
        a.x < b.x
    }
}

/// The key that orders chunks by `y`, then `z`, then `x`.
pub open spec fn yzx_priority(c: ChunkCoord) -> ChunkPriority {
    ChunkPriority { rank: 0, depth: 0, distance: 0, y: c.y, z: c.z, x: c.x }
}

/// Entry `i` of a list keyed by `keys` comes strictly before entry `j`: by key, and by
/// position among equal keys.
pub open spec fn entry_before(keys: Seq<ChunkPriority>, i: int, j: int) -> bool {
    priority_lt(keys[i], keys[j]) || (keys[i] == keys[j] && i < j)
}

/// `order` lists every position of `keys` once, in key order, positions of equal keys
/// in the order they came: the stable sorting order of `keys`.
pub open spec fn is_sorting_order(keys: Seq<ChunkPriority>, order: Seq<int>) -> bool {
    &&& order.len() == keys.len()
    &&& forall|a: int| 0 <= a < order.len() ==> 0 <= #[trigger] order[a] < keys.len()
    &&& forall|j: int| 0 <= j < keys.len() ==> #[trigger] order.contains(j)
    &&& forall|a: int, b: int|
        0 <= a < b < order.len() ==> entry_before(keys, #[trigger] order[a], #[trigger] order[b])
}

/// Whether `a` comes strictly before `b`.
pub fn priority_less(a: ChunkPriority, b: ChunkPriority) -> (lt: bool)
    ensures
        lt == priority_lt(a, b),
{
    if a.rank != b.rank {
        a.rank < b.rank
    } else if a.depth != b.depth {
        a.depth < b.depth
    } else if a.distance != b.distance {
        a.distance < b.distance
    } else if a.y != b.y {
        a.y < b.y
    } else if a.z != b.z {
        a.z < b.z
    } else {
        a.x < b.x
    }
}

/// `priority_lt` is a strict total order.
pub proof fn lemma_priority_order(a: ChunkPriority, b: ChunkPriority, c: ChunkPriority)
    ensures
        !priority_lt(a, a),
        priority_lt(a, b) ==> !priority_lt(b, a),
        priority_lt(a, b) || priority_lt(b, a) || a == b,
        priority_lt(a, b) && priority_lt(b, c) ==> priority_lt(a, c),
{
}

/// The positions of `keys` in stable sorted order.
pub fn sorted_order(keys: &[ChunkPriority]) -> (order: Vec<usize>)
    ensures
        is_sorting_order(keys@, order@.map_values(|i: usize| i as int)),
{
    let mut order: Vec<usize> = Vec::new();
    let mut i: usize = 0;
    while i < keys.len()
        invariant
            0 <= i <= keys@.len(),
            order@.len() == i,
            forall|a: int| 0 <= a < order@.len() ==> #[trigger] order@[a] < i,
            forall|j: int| 0 <= j < i ==> #[trigger] order@.contains(j as usize),
            forall|a: int, b: int|
                0 <= a < b < order@.len() ==> entry_before(
                    keys@,
                    #[trigger] order@[a] as int,
                    #[trigger] order@[b] as int,
                ),
        decreases keys@.len() - i,
    {
        let key = keys[i];
        let mut pos: usize = 0;
        while pos < order.len() && !priority_less(key, keys[order[pos]])
            invariant
                0 <= i < keys@.len(),
                key == keys@[i as int],
                0 <= pos <= order@.len(),
                forall|a: int| 0 <= a < order@.len() ==> #[trigger] order@[a] < i,
                forall|a: int| 0 <= a < pos ==> !priority_lt(key, keys@[#[trigger] order@[a] as int]),
            decreases order@.len() - pos,
        {
            pos = pos + 1;
        }
        let ghost old_order = order@;
        order.insert(pos, i);
        proof {
            assert forall|a: int| 0 <= a < order@.len() implies #[trigger] order@[a] < i + 1 by {
                if a < pos {
                    assert(order@[a] == old_order[a]);
                } else if a > pos {
                    assert(order@[a] == old_order[a - 1]);
                }
            }
            assert forall|j: int| 0 <= j < i + 1 implies #[trigger] order@.contains(j as usize) by {
                if j < i {
                    assert(old_order.contains(j as usize));
                    let a = choose|a: int| 0 <= a < old_order.len() && old_order[a] == j as usize;
                    if a < pos {
                        assert(order@[a] == j as usize);
                    } else {
                        assert(order@[a + 1] == j as usize);
                    }
                } else {
                    assert(order@[pos as int] == i);
                }
            }
            assert forall|a: int, b: int| 0 <= a < b < order@.len() implies entry_before(
                keys@,
                #[trigger] order@[a] as int,
                #[trigger] order@[b] as int,
            ) by {
                let ka = order@[a] as int;
                let kb = order@[b] as int;
                if b < pos {
                    assert(order@[a] == old_order[a] && order@[b] == old_order[b]);
                } else if a > pos {
                    assert(order@[a] == old_order[a - 1] && order@[b] == old_order[b - 1]);
                } else if a < pos && b > pos {
                    assert(order@[a] == old_order[a] && order@[b] == old_order[b - 1]);
                } else if a == pos {
                    // The new entry: every later entry has a larger key.
                    let c = old_order[b - 1] as int;
                    assert(order@[b] == old_order[b - 1]);
                    if pos < old_order.len() {
                        let p = old_order[pos as int] as int;
                        assert(priority_lt(key, keys@[p]));
                        if b - 1 > pos {
                            assert(entry_before(keys@, p, c));
                            lemma_priority_order(key, keys@[p], keys@[c]);
                        }
                    }
                } else {
                    // b == pos: every earlier entry has a key not above the new one.
                    let c = old_order[a] as int;
                    assert(order@[a] == old_order[a]);
                    assert(!priority_lt(key, keys@[c]));
                    lemma_priority_order(key, keys@[c], key);
                    assert(c < i);
                }
            }
        }
        i = i + 1;
    }
    proof {
        let o = order@.map_values(|x: usize| x as int);
        assert forall|j: int| 0 <= j < keys@.len() implies #[trigger] o.contains(j) by {
            assert(order@.contains(j as usize));
            let a = choose|a: int| 0 <= a < order@.len() && order@[a] == j as usize;
            assert(o[a] == j);
        }
    }
    order
}

/// The items picked by `order`, in that order.
pub fn apply_order<T: Copy>(items: &[T], order: &[usize]) -> (r: Vec<T>)
    requires
        forall|a: int| 0 <= a < order@.len() ==> #[trigger] order@[a] < items@.len(),
    ensures
        r@.len() == order@.len(),
        forall|a: int| 0 <= a < order@.len() ==> #[trigger] r@[a] == items@[order@[a] as int],
{
    let mut r: Vec<T> = Vec::new();
    let mut a: usize = 0;
    while a < order.len()
        invariant
            0 <= a <= order@.len(),
            forall|b: int| 0 <= b < order@.len() ==> #[trigger] order@[b] < items@.len(),
            r@.len() == a,
            forall|b: int| 0 <= b < a ==> #[trigger] r@[b] == items@[order@[b] as int],
        decreases order@.len() - a,
    {
        r.push(items[order[a]]);
        a = a + 1;
    }
    r
}

/// Distinct chunk coordinates have distinct `y`, `z`, `x` keys.
pub proof fn lemma_yzx_injective(a: ChunkCoord, b: ChunkCoord)
    ensures
        yzx_priority(a) == yzx_priority(b) ==> a == b,
{
}

/// `coords` sorted by `y`, then `z`, then `x`.
pub fn sort_coords_yzx(coords: &[ChunkCoord]) -> (r: Vec<ChunkCoord>)
    requires
        coords@.no_duplicates(),
    ensures
        r@.len() == coords@.len(),
        forall|c: ChunkCoord| r@.contains(c) <==> coords@.contains(c),
        forall|a: int, b: int|
            0 <= a < b < r@.len() ==> priority_lt(yzx_priority(#[trigger] r@[a]), yzx_priority(#[trigger] r@[b])),
{
    let mut keys: Vec<ChunkPriority> = Vec::new();
    let mut i: usize = 0;
    while i < coords.len()
        invariant
            0 <= i <= coords@.len(),
            keys@.len() == i,
            forall|j: int| 0 <= j < i ==> #[trigger] keys@[j] == yzx_priority(coords@[j]),
        decreases coords@.len() - i,
    {
        let c = coords[i];
        keys.push(ChunkPriority { rank: 0, depth: 0, distance: 0, y: c.y, z: c.z, x: c.x });
        i = i + 1;
    }
    let order = sorted_order(keys.as_slice());
    let ghost o = order@.map_values(|x: usize| x as int);
    proof {
        assert forall|a: int| 0 <= a < order@.len() implies #[trigger] order@[a] < coords@.len() by {
            assert(o[a] == order@[a] as int);
        }
    }
    let r = apply_order(coords, order.as_slice());
    proof {
        assert forall|c: ChunkCoord| r@.contains(c) <==> coords@.contains(c) by {
            if coords@.contains(c) {
                let j = choose|j: int| 0 <= j < coords@.len() && coords@[j] == c;
                assert(o.contains(j));
                let a = choose|a: int| 0 <= a < o.len() && o[a] == j;
                assert(r@[a] == c);
            }
            if r@.contains(c) {
                let a = choose|a: int| 0 <= a < r@.len() && r@[a] == c;
                assert(coords@[order@[a] as int] == c);
            }
        }
        assert forall|a: int, b: int| 0 <= a < b < r@.len() implies priority_lt(
            yzx_priority(#[trigger] r@[a]),
            yzx_priority(#[trigger] r@[b]),
        ) by {
            let ia = o[a];
            let ib = o[b];
            assert(entry_before(keys@, ia, ib));
            assert(r@[a] == coords@[ia] && r@[b] == coords@[ib]);
            if keys@[ia] == keys@[ib] {
                lemma_yzx_injective(coords@[ia], coords@[ib]);
                assert(ia != ib);
            }
        }
    }
    r
}

/// Two sequences of positions, each strictly increasing in the entry order of `keys`
/// and holding the same positions, are equal.
proof fn lemma_sorted_positions_unique(keys: Seq<ChunkPriority>, s1: Seq<int>, s2: Seq<int>)
    requires
        forall|a: int, b: int| 0 <= a < b < s1.len() ==> entry_before(keys, #[trigger] s1[a], #[trigger] s1[b]),
        forall|a: int, b: int| 0 <= a < b < s2.len() ==> entry_before(keys, #[trigger] s2[a], #[trigger] s2[b]),
        forall|a: int| 0 <= a < s1.len() ==> s2.contains(#[trigger] s1[a]),
        forall|b: int| 0 <= b < s2.len() ==> s1.contains(#[trigger] s2[b]),
    ensures
        s1 == s2,
    decreases s1.len() + s2.len(),
{
    if s1.len() == 0 {
        if s2.len() > 0 {
            assert(s1.contains(s2[0]));
        }
        assert(s1 =~= s2);
    } else if s2.len() == 0 {
        assert(s2.contains(s1[0]));
    } else {
        let n1 = s1.len() - 1;
        let n2 = s2.len() - 1;
        let l1 = s1[n1];
        let l2 = s2[n2];
        assert(s2.contains(l1));
        assert(s1.contains(l2));
        let b = choose|b: int| 0 <= b < s2.len() && s2[b] == l1;
        let a = choose|a: int| 0 <= a < s1.len() && s1[a] == l2;
        lemma_priority_order(keys[l1], keys[l2], keys[l1]);
        if b < n2 {
            assert(entry_before(keys, s2[b], s2[n2]));
        }
        if a < n1 {
            assert(entry_before(keys, s1[a], s1[n1]));
        }
        assert(l1 == l2);
        let t1 = s1.drop_last();
        let t2 = s2.drop_last();
        assert forall|x: int| 0 <= x < t1.len() implies t2.contains(#[trigger] t1[x]) by {
            assert(entry_before(keys, s1[x], s1[n1]));
            lemma_priority_order(keys[s1[x]], keys[l1], keys[l1]);
            assert(s2.contains(s1[x]));
            let y = choose|y: int| 0 <= y < s2.len() && s2[y] == s1[x];
            assert(y != n2);
            assert(t2[y] == t1[x]);
        }
        assert forall|y: int| 0 <= y < t2.len() implies t1.contains(#[trigger] t2[y]) by {
            assert(entry_before(keys, s2[y], s2[n2]));
            lemma_priority_order(keys[s2[y]], keys[l2], keys[l2]);
            assert(s1.contains(s2[y]));
            let x = choose|x: int| 0 <= x < s1.len() && s1[x] == s2[y];
            assert(x != n1);
            assert(t1[x] == t2[y]);
        }
        lemma_sorted_positions_unique(keys, t1, t2);
        assert(s1 =~= t1.push(l1));
        assert(s2 =~= t2.push(l2));
    }
}

/// The stable sorting order of a key list is unique, so sorting is deterministic.
pub proof fn lemma_sorting_order_unique(keys: Seq<ChunkPriority>, o1: Seq<int>, o2: Seq<int>)
    requires
        is_sorting_order(keys, o1),
        is_sorting_order(keys, o2),
    ensures
        o1 == o2,
{
    assert forall|a: int| 0 <= a < o1.len() implies o2.contains(#[trigger] o1[a]) by {
        assert(0 <= o1[a] < keys.len());
    }
    assert forall|b: int| 0 <= b < o2.len() implies o1.contains(#[trigger] o2[b]) by {
        assert(0 <= o2[b] < keys.len());
    }
    lemma_sorted_positions_unique(keys, o1, o2);
}

} // verus!
