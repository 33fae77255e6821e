//! Intersections: owners of connection points, rebuilding their turn
//! lanes as the cross product of compatible entries and exits.
//!
//! An intersection names its connections and lanes by index into the
//! map's arenas. Rebuilding replaces the intersection's lane list and
//! repopulates its connections' lane lists, but never touches lanes
//! already in the arena: a reference held elsewhere (an agent mid-
//! journey) stays valid.

use vstd::prelude::*;
use crate::connection::{Connection, ConnectionKind};
use crate::curve::{Curve, fits};
use crate::lane::{Lane, LaneKind, lane_kind_width};
use crate::node::{Node, Heading, off_coord};
use crate::road_profile::{RoadProfile, kinds_width};
use crate::MAX_COORD;

verus! {

/// Can a turn lane run from connection `e` to connection `x` of arena
/// `arena`? The entry must be an `In`, the exit an `Out`, of one
/// category, and they must be two distinct connections.
pub open spec fn can_join(arena: Seq<Connection>, e: usize, x: usize) -> bool {
    &&& e != x
    &&& arena[e as int].kind == ConnectionKind::In
    &&& arena[x as int].kind == ConnectionKind::Out
    &&& arena[e as int].lane_kind == arena[x as int].lane_kind
}

/// The (entry, exit) pairs that entry `e` forms against the first `j`
/// listed connections.
pub open spec fn entry_pairs_upto(
    arena: Seq<Connection>,
    ids: Seq<usize>,
    e: usize,
    j: int,
) -> Seq<(usize, usize)>
    decreases j,
{
    if j <= 0 {
        Seq::empty()
    } else {
        entry_pairs_upto(arena, ids, e, j - 1) + if can_join(arena, e, ids[j - 1]) {
            seq![(e, ids[j - 1])]
        } else {
            Seq::empty()
        }
    }
}

/// All turn-lane pairs the first `i` listed connections generate as
/// entries, each against the full list.
pub open spec fn cross_upto(arena: Seq<Connection>, ids: Seq<usize>, i: int) -> Seq<(usize, usize)>
    decreases i,
{
    if i <= 0 {
        Seq::empty()
    } else {
        cross_upto(arena, ids, i - 1) + entry_pairs_upto(arena, ids, ids[i - 1], ids.len() as int)
    }
}

/// Every (entry, exit) pair of distinct listed connections where an
/// `In` meets an `Out` of the same category, in registration order.
pub open spec fn cross_pairs(arena: Seq<Connection>, ids: Seq<usize>) -> Seq<(usize, usize)> {
    cross_upto(arena, ids, ids.len() as int)
}

/// The pairs depend only on the listed connections' sides and
/// categories, so two arenas that agree there generate the same
/// pairs.
proof fn lemma_entry_pairs_congruent(
    a1: Seq<Connection>,
    a2: Seq<Connection>,
    ids: Seq<usize>,
    e: usize,
    j: int,
)
    requires
        0 <= j <= ids.len(),
        e < a1.len(),
        e < a2.len(),
        a1[e as int].kind == a2[e as int].kind,
        a1[e as int].lane_kind == a2[e as int].lane_kind,
        forall|q: int| 0 <= q < ids.len() ==> ids[q] < a1.len() && ids[q] < a2.len(),
        forall|q: int|
            0 <= q < ids.len() ==> {
                &&& a1[(#[trigger] ids[q]) as int].kind == a2[ids[q] as int].kind
                &&& a1[ids[q] as int].lane_kind == a2[ids[q] as int].lane_kind
            },
    ensures
        entry_pairs_upto(a1, ids, e, j) == entry_pairs_upto(a2, ids, e, j),
    decreases j,
{
    if j > 0 {
        lemma_entry_pairs_congruent(a1, a2, ids, e, j - 1);
        assert(can_join(a1, e, ids[j - 1]) == can_join(a2, e, ids[j - 1]));
    }
}

/// Two arenas that agree on the listed connections' sides and
/// categories generate the same cross-product pairs.
pub proof fn lemma_cross_pairs_congruent(a1: Seq<Connection>, a2: Seq<Connection>, ids: Seq<usize>)
    requires
        forall|q: int| 0 <= q < ids.len() ==> ids[q] < a1.len() && ids[q] < a2.len(),
        forall|q: int|
            0 <= q < ids.len() ==> {
                &&& a1[(#[trigger] ids[q]) as int].kind == a2[ids[q] as int].kind
                &&& a1[ids[q] as int].lane_kind == a2[ids[q] as int].lane_kind
            },
    ensures
        cross_pairs(a1, ids) == cross_pairs(a2, ids),
{
    lemma_cross_upto_congruent(a1, a2, ids, ids.len() as int);
}

proof fn lemma_cross_upto_congruent(
    a1: Seq<Connection>,
    a2: Seq<Connection>,
    ids: Seq<usize>,
    i: int,
)
    requires
        i <= ids.len(),
        forall|q: int| 0 <= q < ids.len() ==> ids[q] < a1.len() && ids[q] < a2.len(),
        forall|q: int|
            0 <= q < ids.len() ==> {
                &&& a1[(#[trigger] ids[q]) as int].kind == a2[ids[q] as int].kind
                &&& a1[ids[q] as int].lane_kind == a2[ids[q] as int].lane_kind
            },
    ensures
        cross_upto(a1, ids, i) == cross_upto(a2, ids, i),
    decreases i,
{
    if i > 0 {
        lemma_cross_upto_congruent(a1, a2, ids, i - 1);
        lemma_entry_pairs_congruent(a1, a2, ids, ids[i - 1], ids.len() as int);
    }
}

/// The lane list a connection carried in arena `conns0`: nothing for a
/// connection not yet created there.
pub open spec fn prior_out(conns0: Seq<Connection>, c: usize) -> Seq<usize> {
    if c < conns0.len() {
        conns0[c as int].out_lane@
    } else {
        Seq::empty()
    }
}

/// The arriving-lane list a connection carried in arena `conns0`.
pub open spec fn prior_in(conns0: Seq<Connection>, c: usize) -> Seq<usize> {
    if c < conns0.len() {
        conns0[c as int].in_lane@
    } else {
        Seq::empty()
    }
}

/// The turn lane a rebuild creates for the pair `(e, x)`: it joins the
/// two connections with a curve fitted between their positions along
/// their headings, five units wide, in the entry's category.
pub open spec fn turn_lane_matches(l: Lane, arena: Seq<Connection>, e: usize, x: usize) -> bool {
    &&& l.c0 == e
    &&& l.c1 == x
    &&& l.kind == arena[e as int].lane_kind
    &&& l.width == 5000
    &&& l.curve.wf()
    &&& fits(
        l.curve,
        arena[e as int].center,
        arena[x as int].center,
        arena[e as int].angle,
        arena[x as int].angle,
    )
}

/// What one connection created for a road attachment looks like: tag
/// `ck`, category `kinds[t]`, the road heading, an offset field of a
/// quarter road width, positioned at the road anchor (the intersection
/// center pushed a full road width `road_w` along the heading) pushed
/// laterally along the perpendicular `(px, py)` by the accumulated
/// half-widths of the categories before it plus half its own.
pub open spec fn side_conn_matches(
    c: Connection,
    center: Node,
    a: Heading,
    kinds: Seq<LaneKind>,
    t: int,
    ck: ConnectionKind,
    px: int,
    py: int,
    road_w: int,
) -> bool {
    let anchor_x = off_coord(center.x as int, a.x as int, road_w);
    let anchor_y = off_coord(center.y as int, a.y as int, road_w);
    let off = kinds_width(kinds.take(t)) + lane_kind_width(kinds[t]) / 2;
    &&& c.kind == ck
    &&& c.lane_kind == kinds[t]
    &&& c.angle == a
    &&& c.offset == (road_w / 2) / 2
    &&& c.center.x == off_coord(anchor_x, px, off)
    &&& c.center.y == off_coord(anchor_y, py, off)
    &&& c.center.bounded(MAX_COORD as int)
}

/// Appending a connection with empty lane lists keeps the graph
/// sound.
pub proof fn lemma_push_conn_wf(pre: Seq<Connection>, lanes: Seq<Lane>, c: Connection)
    requires
        graph_wf(pre, lanes),
        c.ok(lanes.len() as int),
        c.in_lane@.len() == 0,
        c.out_lane@.len() == 0,
    ensures
        graph_wf(pre.push(c), lanes),
{
    let post = pre.push(c);
    assert forall|cx: int| 0 <= cx < post.len() implies (#[trigger] post[cx]).ok(
        lanes.len() as int,
    ) && conn_lists_ok(post, lanes, cx) by {
        if cx < pre.len() {
            assert(post[cx] == pre[cx]);
            assert(pre[cx].ok(lanes.len() as int));
            assert(conn_lists_ok(pre, lanes, cx));
        } else {
            assert(post[cx] == c);
        }
    }
    assert forall|l: int| 0 <= l < lanes.len() implies (#[trigger] lanes[l]).ok(post.len() as int)
        && lane_conns_ok(post, lanes[l]) by {
        assert(lanes[l].ok(pre.len() as int));
        assert(lane_conns_ok(pre, lanes[l]));
        assert(post[lanes[l].c0 as int] == pre[lanes[l].c0 as int]);
        assert(post[lanes[l].c1 as int] == pre[lanes[l].c1 as int]);
    }
}

/// `s` with every member of `dead` removed, order kept.
pub open spec fn keep_ids(s: Seq<usize>, dead: Seq<usize>) -> Seq<usize>
    decreases s.len(),
{
    if s.len() == 0 {
        Seq::empty()
    } else {
        keep_ids(s.drop_last(), dead) + if dead.contains(s.last()) {
            Seq::empty()
        } else {
            seq![s.last()]
        }
    }
}

/// Everything `keep_ids` keeps was in the list it kept it from.
pub proof fn lemma_keep_ids_from(s: Seq<usize>, dead: Seq<usize>)
    ensures
        forall|i: int|
            0 <= i < keep_ids(s, dead).len() ==> s.contains(#[trigger] keep_ids(s, dead)[i]),
    decreases s.len(),
{
    if s.len() > 0 {
        lemma_keep_ids_from(s.drop_last(), dead);
        assert forall|i: int| 0 <= i < keep_ids(s, dead).len() implies s.contains(
            #[trigger] keep_ids(s, dead)[i],
        ) by {
            if i < keep_ids(s.drop_last(), dead).len() {
                assert(s.drop_last().contains(keep_ids(s.drop_last(), dead)[i]));
                let w = choose|w: int|
                    0 <= w < s.drop_last().len() && s.drop_last()[w] == keep_ids(
                        s.drop_last(),
                        dead,
                    )[i];
                assert(s[w] == keep_ids(s, dead)[i]);
            } else {
                assert(keep_ids(s, dead)[i] == s.last());
                assert(s[s.len() - 1] == s.last());
            }
        }
    }
}

/// The identifiers of the new turn lanes leaving connection `c`:
/// `base + t` for every pair index `t` whose entry is `c`.
pub open spec fn pair_out_ids(pairs: Seq<(usize, usize)>, base: int, c: usize) -> Seq<usize>
    decreases pairs.len(),
{
    if pairs.len() == 0 {
        Seq::empty()
    } else {
        pair_out_ids(pairs.drop_last(), base, c) + if pairs.last().0 == c {
            seq![(base + pairs.len() - 1) as usize]
        } else {
            Seq::empty()
        }
    }
}

/// The identifiers of the new turn lanes arriving at connection `c`.
pub open spec fn pair_in_ids(pairs: Seq<(usize, usize)>, base: int, c: usize) -> Seq<usize>
    decreases pairs.len(),
{
    if pairs.len() == 0 {
        Seq::empty()
    } else {
        pair_in_ids(pairs.drop_last(), base, c) + if pairs.last().1 == c {
            seq![(base + pairs.len() - 1) as usize]
        } else {
            Seq::empty()
        }
    }
}

/// Each pair an entry generates pairs the entry itself with a listed,
/// joinable exit.
pub proof fn lemma_entry_pairs_elems(arena: Seq<Connection>, ids: Seq<usize>, e: usize, j: int)
    requires
        j <= ids.len(),
    ensures
        forall|u: int|
            0 <= u < entry_pairs_upto(arena, ids, e, j).len() ==> {
                let p = #[trigger] entry_pairs_upto(arena, ids, e, j)[u];
                &&& p.0 == e
                &&& ids.contains(p.1)
                &&& can_join(arena, p.0, p.1)
            },
    decreases j,
{
    if j > 0 {
        lemma_entry_pairs_elems(arena, ids, e, j - 1);
        let prev = entry_pairs_upto(arena, ids, e, j - 1);
        let cur = entry_pairs_upto(arena, ids, e, j);
        assert forall|u: int| 0 <= u < cur.len() implies {
            let p = #[trigger] cur[u];
            &&& p.0 == e
            &&& ids.contains(p.1)
            &&& can_join(arena, p.0, p.1)
        } by {
            if u < prev.len() {
                assert(cur[u] == prev[u]);
            } else {
                assert(can_join(arena, e, ids[j - 1]));
                assert(cur[u] == (e, ids[j - 1]));
                assert(ids.contains(ids[j - 1]));
            }
        }
    }
}

/// Every cross-product pair joins two listed connections that can be
/// joined.
pub proof fn lemma_cross_elems(arena: Seq<Connection>, ids: Seq<usize>, i: int)
    requires
        i <= ids.len(),
    ensures
        forall|u: int|
            0 <= u < cross_upto(arena, ids, i).len() ==> {
                let p = #[trigger] cross_upto(arena, ids, i)[u];
                &&& ids.contains(p.0)
                &&& ids.contains(p.1)
                &&& can_join(arena, p.0, p.1)
            },
    decreases i,
{
    if i > 0 {
        lemma_cross_elems(arena, ids, i - 1);
        lemma_entry_pairs_elems(arena, ids, ids[i - 1], ids.len() as int);
        let prev = cross_upto(arena, ids, i - 1);
        let tail = entry_pairs_upto(arena, ids, ids[i - 1], ids.len() as int);
        let cur = cross_upto(arena, ids, i);
        assert forall|u: int| 0 <= u < cur.len() implies {
            let p = #[trigger] cur[u];
            &&& ids.contains(p.0)
            &&& ids.contains(p.1)
            &&& can_join(arena, p.0, p.1)
        } by {
            if u < prev.len() {
                assert(cur[u] == prev[u]);
            } else {
                assert(cur[u] == tail[u - prev.len()]);
            }
        }
    }
}

/// Every new out-lane identifier of `c` names the new lane of one pair
/// whose entry is `c`.
pub proof fn lemma_pair_out_ids_elems(pairs: Seq<(usize, usize)>, base: int, c: usize)
    requires
        0 <= base,
        base + pairs.len() <= usize::MAX,
    ensures
        forall|i: int|
            0 <= i < pair_out_ids(pairs, base, c).len() ==> {
                let id = #[trigger] pair_out_ids(pairs, base, c)[i];
                &&& base <= id < base + pairs.len()
                &&& pairs[id - base].0 == c
            },
    decreases pairs.len(),
{
    if pairs.len() > 0 {
        lemma_pair_out_ids_elems(pairs.drop_last(), base, c);
        let prev = pair_out_ids(pairs.drop_last(), base, c);
        let cur = pair_out_ids(pairs, base, c);
        assert forall|i: int| 0 <= i < cur.len() implies {
            let id = #[trigger] cur[i];
            &&& base <= id < base + pairs.len()
            &&& pairs[id - base].0 == c
        } by {
            if i < prev.len() {
                assert(cur[i] == prev[i]);
                assert(pairs[cur[i] - base] == pairs.drop_last()[cur[i] - base]);
            } else {
                assert(cur[i] == (base + pairs.len() - 1) as usize);
                assert(pairs.last().0 == c);
            }
        }
    }
}

/// Every new in-lane identifier of `c` names the new lane of one pair
/// whose exit is `c`.
pub proof fn lemma_pair_in_ids_elems(pairs: Seq<(usize, usize)>, base: int, c: usize)
    requires
        0 <= base,
        base + pairs.len() <= usize::MAX,
    ensures
        forall|i: int|
            0 <= i < pair_in_ids(pairs, base, c).len() ==> {
                let id = #[trigger] pair_in_ids(pairs, base, c)[i];
                &&& base <= id < base + pairs.len()
                &&& pairs[id - base].1 == c
            },
    decreases pairs.len(),
{
    if pairs.len() > 0 {
        lemma_pair_in_ids_elems(pairs.drop_last(), base, c);
        let prev = pair_in_ids(pairs.drop_last(), base, c);
        let cur = pair_in_ids(pairs, base, c);
        assert forall|i: int| 0 <= i < cur.len() implies {
            let id = #[trigger] cur[i];
            &&& base <= id < base + pairs.len()
            &&& pairs[id - base].1 == c
        } by {
            if i < prev.len() {
                assert(cur[i] == prev[i]);
                assert(pairs[cur[i] - base] == pairs.drop_last()[cur[i] - base]);
            } else {
                assert(cur[i] == (base + pairs.len() - 1) as usize);
                assert(pairs.last().1 == c);
            }
        }
    }
}

/// How many listed connections carry kind `k`.
pub open spec fn count_kind(arena: Seq<Connection>, ids: Seq<usize>, k: ConnectionKind) -> int
    decreases ids.len(),
{
    if ids.len() == 0 {
        0
    } else {
        count_kind(arena, ids.drop_last(), k) + if arena[ids.last() as int].kind == k {
            1int
        } else {
            0int
        }
    }
}

/// How many times `c` stands in `ids`.
pub open spec fn count_id(ids: Seq<usize>, c: usize) -> int
    decreases ids.len(),
{
    if ids.len() == 0 {
        0
    } else {
        count_id(ids.drop_last(), c) + if ids.last() == c {
            1int
        } else {
            0int
        }
    }
}

/// The total length of the new out-lane lists over the listed
/// connections.
pub open spec fn sum_out_ids(pairs: Seq<(usize, usize)>, base: int, ids: Seq<usize>) -> int
    decreases ids.len(),
{
    if ids.len() == 0 {
        0
    } else {
        sum_out_ids(pairs, base, ids.drop_last()) + pair_out_ids(pairs, base, ids.last()).len()
    }
}

/// The total length of the new in-lane lists over the listed
/// connections.
pub open spec fn sum_in_ids(pairs: Seq<(usize, usize)>, base: int, ids: Seq<usize>) -> int
    decreases ids.len(),
{
    if ids.len() == 0 {
        0
    } else {
        sum_in_ids(pairs, base, ids.drop_last()) + pair_in_ids(pairs, base, ids.last()).len()
    }
}

/// An entry of the shared category pairs with exactly the listed
/// exits; anything that is no entry pairs with nothing.
proof fn lemma_entry_count(
    arena: Seq<Connection>,
    ids: Seq<usize>,
    e: usize,
    j: int,
    cat: LaneKind,
)
    requires
        0 <= j <= ids.len(),
        e < arena.len(),
        arena[e as int].lane_kind == cat,
        forall|q: int| 0 <= q < ids.len() ==> ids[q] < arena.len(),
        forall|q: int| 0 <= q < ids.len() ==> arena[#[trigger] ids[q] as int].lane_kind == cat,
    ensures
        entry_pairs_upto(arena, ids, e, j).len() == if arena[e as int].kind == ConnectionKind::In {
            count_kind(arena, ids.take(j), ConnectionKind::Out)
        } else {
            0int
        },
    decreases j,
{
    if j > 0 {
        lemma_entry_count(arena, ids, e, j - 1, cat);
        assert(ids.take(j).drop_last() =~= ids.take(j - 1));
        assert(ids.take(j).last() == ids[j - 1]);
        if arena[e as int].kind == ConnectionKind::In && arena[ids[j - 1] as int].kind
            == ConnectionKind::Out {
            assert(e != ids[j - 1]);
            assert(can_join(arena, e, ids[j - 1]));
        } else {
            assert(!can_join(arena, e, ids[j - 1]));
        }
    } else {
        assert(ids.take(j) =~= Seq::<usize>::empty());
    }
}

/// The cross product of connections sharing one category has exactly
/// (number of entries) times (number of exits) pairs.
proof fn lemma_cross_count(arena: Seq<Connection>, ids: Seq<usize>, i: int, cat: LaneKind)
    requires
        0 <= i <= ids.len(),
        forall|q: int| 0 <= q < ids.len() ==> ids[q] < arena.len(),
        forall|q: int| 0 <= q < ids.len() ==> arena[#[trigger] ids[q] as int].lane_kind == cat,
    ensures
        cross_upto(arena, ids, i).len() == count_kind(arena, ids.take(i), ConnectionKind::In)
            * count_kind(arena, ids, ConnectionKind::Out),
    decreases i,
{
    let m = count_kind(arena, ids, ConnectionKind::Out);
    if i > 0 {
        lemma_cross_count(arena, ids, i - 1, cat);
        lemma_entry_count(arena, ids, ids[i - 1], ids.len() as int, cat);
        assert(ids.take(ids.len() as int) =~= ids);
        assert(ids.take(i).drop_last() =~= ids.take(i - 1));
        assert(ids.take(i).last() == ids[i - 1]);
        let cin = count_kind(arena, ids.take(i - 1), ConnectionKind::In);
        if arena[ids[i - 1] as int].kind == ConnectionKind::In {
            assert((cin + 1) * m == cin * m + m) by (nonlinear_arith);
        }
    } else {
        assert(ids.take(i) =~= Seq::<usize>::empty());
    }
}

/// How many listed connections carry kind `k` in category `cat`.
pub open spec fn count_kind_cat(
    arena: Seq<Connection>,
    ids: Seq<usize>,
    k: ConnectionKind,
    cat: LaneKind,
) -> int
    decreases ids.len(),
{
    if ids.len() == 0 {
        0
    } else {
        count_kind_cat(arena, ids.drop_last(), k, cat) + if arena[ids.last() as int].kind == k
            && arena[ids.last() as int].lane_kind == cat {
            1int
        } else {
            0int
        }
    }
}

/// An entry pairs with exactly the listed exits of its own category;
/// anything that is no entry pairs with nothing.
proof fn lemma_entry_count_cat(arena: Seq<Connection>, ids: Seq<usize>, e: usize, j: int)
    requires
        0 <= j <= ids.len(),
    ensures
        entry_pairs_upto(arena, ids, e, j).len() == if arena[e as int].kind
            == ConnectionKind::In {
            count_kind_cat(arena, ids.take(j), ConnectionKind::Out, arena[e as int].lane_kind)
        } else {
            0int
        },
    decreases j,
{
    if j > 0 {
        lemma_entry_count_cat(arena, ids, e, j - 1);
        assert(ids.take(j).drop_last() =~= ids.take(j - 1));
        assert(ids.take(j).last() == ids[j - 1]);
        if arena[e as int].kind == ConnectionKind::In && arena[ids[j - 1] as int].kind
            == ConnectionKind::Out && arena[e as int].lane_kind == arena[ids[j - 1] as int]
            .lane_kind {
            assert(e != ids[j - 1]);
            assert(can_join(arena, e, ids[j - 1]));
        } else {
            assert(!can_join(arena, e, ids[j - 1]));
        }
    } else {
        assert(ids.take(j) =~= Seq::<usize>::empty());
    }
}

proof fn lemma_cross_count_cat(arena: Seq<Connection>, ids: Seq<usize>, i: int)
    requires
        0 <= i <= ids.len(),
    ensures
        cross_upto(arena, ids, i).len() == count_kind_cat(
            arena,
            ids.take(i),
            ConnectionKind::In,
            LaneKind::Car,
        ) * count_kind_cat(arena, ids, ConnectionKind::Out, LaneKind::Car) + count_kind_cat(
            arena,
            ids.take(i),
            ConnectionKind::In,
            LaneKind::Bike,
        ) * count_kind_cat(arena, ids, ConnectionKind::Out, LaneKind::Bike) + count_kind_cat(
            arena,
            ids.take(i),
            ConnectionKind::In,
            LaneKind::Pedestrian,
        ) * count_kind_cat(arena, ids, ConnectionKind::Out, LaneKind::Pedestrian),
    decreases i,
{
    if i > 0 {
        lemma_cross_count_cat(arena, ids, i - 1);
        let e = ids[i - 1];
        lemma_entry_count_cat(arena, ids, e, ids.len() as int);
        assert(ids.take(ids.len() as int) =~= ids);
        assert(ids.take(i).drop_last() =~= ids.take(i - 1));
        assert(ids.take(i).last() == e);
        if arena[e as int].kind == ConnectionKind::In {
            let cin = count_kind_cat(
                arena,
                ids.take(i - 1),
                ConnectionKind::In,
                arena[e as int].lane_kind,
            );
            let m = count_kind_cat(arena, ids, ConnectionKind::Out, arena[e as int].lane_kind);
            assert((cin + 1) * m == cin * m + m) by (nonlinear_arith);
        }
    } else {
        assert(ids.take(i) =~= Seq::<usize>::empty());
    }
}

/// Over connections of mixed categories, the rebuild pairs entries
/// and exits category by category: the turn-lane count is the sum,
/// over the categories, of (entries of that category) times (exits of
/// that category) — the cross product minus the category mismatches.
pub proof fn lemma_lane_count_by_category(arena: Seq<Connection>, ids: Seq<usize>)
    ensures
        cross_pairs(arena, ids).len() == count_kind_cat(
            arena,
            ids,
            ConnectionKind::In,
            LaneKind::Car,
        ) * count_kind_cat(arena, ids, ConnectionKind::Out, LaneKind::Car) + count_kind_cat(
            arena,
            ids,
            ConnectionKind::In,
            LaneKind::Bike,
        ) * count_kind_cat(arena, ids, ConnectionKind::Out, LaneKind::Bike) + count_kind_cat(
            arena,
            ids,
            ConnectionKind::In,
            LaneKind::Pedestrian,
        ) * count_kind_cat(arena, ids, ConnectionKind::Out, LaneKind::Pedestrian),
{
    lemma_cross_count_cat(arena, ids, ids.len() as int);
    assert(ids.take(ids.len() as int) =~= ids);
}

/// Appending one pair grows `c`'s new out-list exactly when the
/// pair's entry is `c`.
proof fn lemma_pair_out_len_step(pairs: Seq<(usize, usize)>, base: int, c: usize)
    requires
        pairs.len() > 0,
    ensures
        pair_out_ids(pairs, base, c).len() == pair_out_ids(pairs.drop_last(), base, c).len() + if (
        pairs.last().0 == c) {
            1int
        } else {
            0int
        },
{
}

proof fn lemma_pair_in_len_step(pairs: Seq<(usize, usize)>, base: int, c: usize)
    requires
        pairs.len() > 0,
    ensures
        pair_in_ids(pairs, base, c).len() == pair_in_ids(pairs.drop_last(), base, c).len() + if (
        pairs.last().1 == c) {
            1int
        } else {
            0int
        },
{
}

/// Dropping the last pair shrinks the out-list total by the number of
/// times that pair's entry is listed.
proof fn lemma_sum_out_step(pairs: Seq<(usize, usize)>, base: int, ids: Seq<usize>)
    requires
        pairs.len() > 0,
    ensures
        sum_out_ids(pairs, base, ids) == sum_out_ids(pairs.drop_last(), base, ids) + count_id(
            ids,
            pairs.last().0,
        ),
    decreases ids.len(),
{
    if ids.len() > 0 {
        lemma_sum_out_step(pairs, base, ids.drop_last());
        lemma_pair_out_len_step(pairs, base, ids.last());
    }
}

proof fn lemma_sum_in_step(pairs: Seq<(usize, usize)>, base: int, ids: Seq<usize>)
    requires
        pairs.len() > 0,
    ensures
        sum_in_ids(pairs, base, ids) == sum_in_ids(pairs.drop_last(), base, ids) + count_id(
            ids,
            pairs.last().1,
        ),
    decreases ids.len(),
{
    if ids.len() > 0 {
        lemma_sum_in_step(pairs, base, ids.drop_last());
        lemma_pair_in_len_step(pairs, base, ids.last());
    }
}

/// A value that is not listed is counted zero times.
proof fn lemma_count_id_zero(ids: Seq<usize>, c: usize)
    requires
        !ids.contains(c),
    ensures
        count_id(ids, c) == 0,
    decreases ids.len(),
{
    if ids.len() > 0 {
        assert(ids[ids.len() - 1] != c);
        assert forall|w: int| 0 <= w < ids.drop_last().len() implies ids.drop_last()[w] != c by {
            assert(ids[w] != c);
        }
        lemma_count_id_zero(ids.drop_last(), c);
    }
}

/// A listed value is counted exactly once when the list is free of
/// repeats.
proof fn lemma_count_id_one(ids: Seq<usize>, c: usize)
    requires
        ids.contains(c),
        forall|q: int, r: int| 0 <= q < r < ids.len() ==> ids[q] != ids[r],
    ensures
        count_id(ids, c) == 1,
    decreases ids.len(),
{
    if ids.last() == c {
        assert forall|w: int| 0 <= w < ids.drop_last().len() implies ids.drop_last()[w] != c by {
            assert(ids[w] != ids[ids.len() - 1]);
        }
        assert(!ids.drop_last().contains(c));
        lemma_count_id_zero(ids.drop_last(), c);
    } else {
        let w = choose|w: int| 0 <= w < ids.len() && ids[w] == c;
        assert(w < ids.len() - 1);
        assert(ids.drop_last()[w] == c);
        assert(ids.drop_last().contains(c));
        lemma_count_id_one(ids.drop_last(), c);
    }
}

/// With no pairs there are no new identifiers anywhere.
proof fn lemma_sum_out_zero(base: int, ids: Seq<usize>)
    ensures
        sum_out_ids(Seq::empty(), base, ids) == 0,
        sum_in_ids(Seq::empty(), base, ids) == 0,
    decreases ids.len(),
{
    if ids.len() > 0 {
        lemma_sum_out_zero(base, ids.drop_last());
    }
}

/// Every pair whose entry is listed exactly once contributes exactly
/// one identifier to the out-list total, so the total is the pair
/// count: the new lanes partition over the entries.
proof fn lemma_sum_out_total(pairs: Seq<(usize, usize)>, base: int, ids: Seq<usize>)
    requires
        forall|u: int| 0 <= u < pairs.len() ==> ids.contains((#[trigger] pairs[u]).0),
        forall|u: int| 0 <= u < pairs.len() ==> ids.contains((#[trigger] pairs[u]).1),
        forall|q: int, r: int| 0 <= q < r < ids.len() ==> ids[q] != ids[r],
    ensures
        sum_out_ids(pairs, base, ids) == pairs.len(),
        sum_in_ids(pairs, base, ids) == pairs.len(),
    decreases pairs.len(),
{
    if pairs.len() == 0 {
        lemma_sum_out_zero(base, ids);
        assert(pairs =~= Seq::<(usize, usize)>::empty());
    } else {
        assert forall|u: int| 0 <= u < pairs.drop_last().len() implies ids.contains(
            (#[trigger] pairs.drop_last()[u]).0,
        ) && ids.contains(pairs.drop_last()[u].1) by {
            assert(pairs.drop_last()[u] == pairs[u]);
        }
        lemma_sum_out_total(pairs.drop_last(), base, ids);
        lemma_sum_out_step(pairs, base, ids);
        lemma_sum_in_step(pairs, base, ids);
        assert(ids.contains(pairs[pairs.len() - 1].0));
        assert(ids.contains(pairs[pairs.len() - 1].1));
        lemma_count_id_one(ids, pairs.last().0);
        lemma_count_id_one(ids, pairs.last().1);
    }
}

/// After a rebuild over connections that all share one category, the
/// intersection holds exactly (entries times exits) turn lanes, and
/// those lanes partition consistently over the connections: the new
/// out-lists of the entries together name every new lane exactly once,
/// and so do the new in-lists of the exits.
pub proof fn lemma_lane_partition(
    arena: Seq<Connection>,
    ids: Seq<usize>,
    base: int,
    cat: LaneKind,
)
    requires
        forall|q: int| 0 <= q < ids.len() ==> ids[q] < arena.len(),
        forall|q: int, r: int| 0 <= q < r < ids.len() ==> ids[q] != ids[r],
        forall|q: int| 0 <= q < ids.len() ==> arena[#[trigger] ids[q] as int].lane_kind == cat,
    ensures
        cross_pairs(arena, ids).len() == count_kind(arena, ids, ConnectionKind::In) * count_kind(
            arena,
            ids,
            ConnectionKind::Out,
        ),
        sum_out_ids(cross_pairs(arena, ids), base, ids) == cross_pairs(arena, ids).len(),
        sum_in_ids(cross_pairs(arena, ids), base, ids) == cross_pairs(arena, ids).len(),
{
    lemma_cross_count(arena, ids, ids.len() as int, cat);
    assert(ids.take(ids.len() as int) =~= ids);
    lemma_cross_elems(arena, ids, ids.len() as int);
    lemma_sum_out_total(cross_pairs(arena, ids), base, ids);
}

/// A list whose members are all retired filters down to nothing.
proof fn lemma_keep_ids_empty(s: Seq<usize>, dead: Seq<usize>)
    requires
        forall|i: int| 0 <= i < s.len() ==> dead.contains(#[trigger] s[i]),
    ensures
        keep_ids(s, dead) == Seq::<usize>::empty(),
    decreases s.len(),
{
    if s.len() > 0 {
        assert forall|i: int| 0 <= i < s.drop_last().len() implies dead.contains(
            #[trigger] s.drop_last()[i],
        ) by {
            assert(dead.contains(s[i]));
        }
        lemma_keep_ids_empty(s.drop_last(), dead);
        assert(dead.contains(s[s.len() - 1]));
        assert(keep_ids(s, dead) =~= Seq::<usize>::empty());
    }
}

/// The total length of the listed connections' out-lane lists.
pub open spec fn sum_out_lists(conns: Seq<Connection>, ids: Seq<usize>) -> int
    decreases ids.len(),
{
    if ids.len() == 0 {
        0
    } else {
        sum_out_lists(conns, ids.drop_last()) + conns[ids.last() as int].out_lane@.len()
    }
}

/// The total length of the listed connections' in-lane lists.
pub open spec fn sum_in_lists(conns: Seq<Connection>, ids: Seq<usize>) -> int
    decreases ids.len(),
{
    if ids.len() == 0 {
        0
    } else {
        sum_in_lists(conns, ids.drop_last()) + conns[ids.last() as int].in_lane@.len()
    }
}

/// After a fresh rebuild — every list entry the connections held
/// beforehand was a turn lane being retired — each connection's lists
/// are exactly the new identifiers assigned to it, so the out-lists
/// and the in-lists each total the lane count: the turn lanes
/// partition consistently over the connections, entries on the
/// departing side and exits on the arriving side.
pub proof fn lemma_rebuilt_lists_partition(
    arena0: Seq<Connection>,
    conns: Seq<Connection>,
    ids: Seq<usize>,
    dead: Seq<usize>,
    base: int,
)
    requires
        forall|q: int| 0 <= q < ids.len() ==> ids[q] < arena0.len(),
        forall|q: int, r: int| 0 <= q < r < ids.len() ==> ids[q] != ids[r],
        forall|q: int| 0 <= q < ids.len() ==> ids[q] < conns.len(),
        // what the rebuild leaves in each connection's lists
        forall|q: int|
            0 <= q < ids.len() ==> {
                let c = #[trigger] ids[q];
                &&& conns[c as int].out_lane@ == keep_ids(arena0[c as int].out_lane@, dead)
                    + pair_out_ids(cross_pairs(arena0, ids), base, c)
                &&& conns[c as int].in_lane@ == keep_ids(arena0[c as int].in_lane@, dead)
                    + pair_in_ids(cross_pairs(arena0, ids), base, c)
            },
        // freshness: everything the lists held before is being retired
        forall|q: int, i: int|
            0 <= q < ids.len() && 0 <= i < arena0[ids[q] as int].out_lane@.len() ==> dead.contains(
                #[trigger] arena0[ids[q] as int].out_lane@[i],
            ),
        forall|q: int, i: int|
            0 <= q < ids.len() && 0 <= i < arena0[ids[q] as int].in_lane@.len() ==> dead.contains(
                #[trigger] arena0[ids[q] as int].in_lane@[i],
            ),
    ensures
        sum_out_lists(conns, ids) == cross_pairs(arena0, ids).len(),
        sum_in_lists(conns, ids) == cross_pairs(arena0, ids).len(),
{
    let pairs = cross_pairs(arena0, ids);
    lemma_cross_elems(arena0, ids, ids.len() as int);
    lemma_sum_out_total(pairs, base, ids);
    lemma_rebuilt_sums_are_pair_sums(arena0, conns, ids, ids, dead, base);
}

/// Over any sublist of the rebuilt connections, the list-length totals
/// equal the new-identifier totals.
proof fn lemma_rebuilt_sums_are_pair_sums(
    arena0: Seq<Connection>,
    conns: Seq<Connection>,
    all_ids: Seq<usize>,
    ids: Seq<usize>,
    dead: Seq<usize>,
    base: int,
)
    requires
        forall|q: int|
            0 <= q < ids.len() ==> {
                let c = #[trigger] ids[q];
                &&& c < arena0.len()
                &&& c < conns.len()
                &&& conns[c as int].out_lane@ == keep_ids(arena0[c as int].out_lane@, dead)
                    + pair_out_ids(cross_pairs(arena0, all_ids), base, c)
                &&& conns[c as int].in_lane@ == keep_ids(arena0[c as int].in_lane@, dead)
                    + pair_in_ids(cross_pairs(arena0, all_ids), base, c)
            },
        forall|q: int, i: int|
            0 <= q < ids.len() && 0 <= i < arena0[ids[q] as int].out_lane@.len() ==> dead.contains(
                #[trigger] arena0[ids[q] as int].out_lane@[i],
            ),
        forall|q: int, i: int|
            0 <= q < ids.len() && 0 <= i < arena0[ids[q] as int].in_lane@.len() ==> dead.contains(
                #[trigger] arena0[ids[q] as int].in_lane@[i],
            ),
    ensures
        sum_out_lists(conns, ids) == sum_out_ids(cross_pairs(arena0, all_ids), base, ids),
        sum_in_lists(conns, ids) == sum_in_ids(cross_pairs(arena0, all_ids), base, ids),
    decreases ids.len(),
{
    if ids.len() > 0 {
        let prev = ids.drop_last();
        assert forall|q: int| 0 <= q < prev.len() implies {
            let c = #[trigger] prev[q];
            &&& c < arena0.len()
            &&& c < conns.len()
            &&& conns[c as int].out_lane@ == keep_ids(arena0[c as int].out_lane@, dead)
                + pair_out_ids(cross_pairs(arena0, all_ids), base, c)
            &&& conns[c as int].in_lane@ == keep_ids(arena0[c as int].in_lane@, dead)
                + pair_in_ids(cross_pairs(arena0, all_ids), base, c)
        } by {
            assert(prev[q] == ids[q]);
        }
        assert forall|q: int, i: int|
            0 <= q < prev.len() && 0 <= i < arena0[prev[q] as int].out_lane@.len() implies dead
            .contains(#[trigger] arena0[prev[q] as int].out_lane@[i]) by {
            assert(prev[q] == ids[q]);
            assert(dead.contains(arena0[ids[q] as int].out_lane@[i]));
        }
        assert forall|q: int, i: int|
            0 <= q < prev.len() && 0 <= i < arena0[prev[q] as int].in_lane@.len() implies dead
            .contains(#[trigger] arena0[prev[q] as int].in_lane@[i]) by {
            assert(prev[q] == ids[q]);
            assert(dead.contains(arena0[ids[q] as int].in_lane@[i]));
        }
        lemma_rebuilt_sums_are_pair_sums(arena0, conns, all_ids, prev, dead, base);
        let c = ids.last();
        assert(ids[ids.len() - 1] == c);
        lemma_keep_ids_empty(arena0[c as int].out_lane@, dead);
        lemma_keep_ids_empty(arena0[c as int].in_lane@, dead);
        assert(conns[c as int].out_lane@ =~= pair_out_ids(cross_pairs(arena0, all_ids), base, c));
        assert(conns[c as int].in_lane@ =~= pair_in_ids(cross_pairs(arena0, all_ids), base, c));
    }
}

/// `nl` holds, pair for pair, the turn lanes of `pairs`.
pub open spec fn lanes_match(nl: Seq<Lane>, pairs: Seq<(usize, usize)>, arena: Seq<Connection>)
    -> bool {
    &&& nl.len() == pairs.len()
    &&& forall|t: int|
        0 <= t < pairs.len() ==> turn_lane_matches(
            #[trigger] nl[t],
            arena,
            pairs[t].0,
            pairs[t].1,
        )
}

/// Every lane a connection lists really departs from it (`out_lane`)
/// or arrives at it (`in_lane`), in its own category.
pub open spec fn conn_lists_ok(conns: Seq<Connection>, lanes: Seq<Lane>, c: int) -> bool {
    &&& forall|i: int|
        0 <= i < conns[c].out_lane@.len() ==> {
            let l = #[trigger] conns[c].out_lane@[i];
            &&& l < lanes.len()
            &&& lanes[l as int].c0 == c
            &&& lanes[l as int].kind == conns[c].lane_kind
        }
    &&& forall|i: int|
        0 <= i < conns[c].in_lane@.len() ==> {
            let l = #[trigger] conns[c].in_lane@[i];
            &&& l < lanes.len()
            &&& lanes[l as int].c1 == c
            &&& lanes[l as int].kind == conns[c].lane_kind
        }
}

/// A lane joins two connections of different sides, both in the lane's
/// own category.
pub open spec fn lane_conns_ok(conns: Seq<Connection>, l: Lane) -> bool {
    &&& conns[l.c0 as int].kind != conns[l.c1 as int].kind
    &&& conns[l.c0 as int].lane_kind == l.kind
    &&& conns[l.c1 as int].lane_kind == l.kind
}

/// The lane graph is sound: every cross-reference lands in range, on a
/// lane or connection that really stands in that relation.
pub open spec fn graph_wf(conns: Seq<Connection>, lanes: Seq<Lane>) -> bool {
    &&& forall|c: int| 0 <= c < conns.len() ==> (#[trigger] conns[c]).ok(lanes.len() as int)
    &&& forall|c: int| 0 <= c < conns.len() ==> conn_lists_ok(conns, lanes, c)
    &&& forall|l: int| 0 <= l < lanes.len() ==> (#[trigger] lanes[l]).ok(conns.len() as int)
    &&& forall|l: int| 0 <= l < lanes.len() ==> lane_conns_ok(conns, #[trigger] lanes[l])
}

/// An element-for-element copy of `v`.
fn copy_ids(v: &Vec<usize>) -> (r: Vec<usize>)
    ensures
        r@ == v@,
{
    let mut r: Vec<usize> = Vec::new();
    let mut i: usize = 0;
    while i < v.len()
        invariant
            i <= v@.len(),
            r@ == v@.take(i as int),
        decreases v@.len() - i,
    {
        r.push(v[i]);
        proof {
            assert(r@ =~= v@.take(i + 1));
        }
        i = i + 1;
    }
    proof {
        assert(v@.take(v@.len() as int) =~= v@);
    }
    r
}

/// Does `v` hold `x`?
fn contains_id(v: &Vec<usize>, x: usize) -> (r: bool)
    ensures
        r == v@.contains(x),
{
    let mut i: usize = 0;
    while i < v.len()
        invariant
            i <= v@.len(),
            forall|j: int| 0 <= j < i ==> v@[j] != x,
        decreases v@.len() - i,
    {
        if v[i] == x {
            return true;
        }
        i = i + 1;
    }
    false
}

/// A copy of `v` without any member of `dead`.
fn filter_ids(v: &Vec<usize>, dead: &Vec<usize>) -> (r: Vec<usize>)
    ensures
        r@ == keep_ids(v@, dead@),
{
    let mut r: Vec<usize> = Vec::new();
    let mut i: usize = 0;
    while i < v.len()
        invariant
            i <= v@.len(),
            r@ == keep_ids(v@.take(i as int), dead@),
        decreases v@.len() - i,
    {
        proof {
            assert(v@.take(i + 1).drop_last() =~= v@.take(i as int));
            assert(v@.take(i + 1).last() == v@[i as int]);
        }
        if !contains_id(dead, v[i]) {
            r.push(v[i]);
        }
        i = i + 1;
    }
    proof {
        assert(v@.take(v@.len() as int) =~= v@);
    }
    r
}

/// Replace the two lane lists of connection `cid`, leaving everything
/// else as it stands.
fn set_conn_lists(conns: &mut Vec<Connection>, cid: usize, in_l: Vec<usize>, out_l: Vec<usize>)
    requires
        cid < old(conns)@.len(),
    ensures
        final(conns)@.len() == old(conns)@.len(),
        forall|c: int|
            0 <= c < old(conns)@.len() && c != cid ==> final(conns)@[c] == old(conns)@[c],
        final(conns)@[cid as int].center == old(conns)@[cid as int].center,
        final(conns)@[cid as int].kind == old(conns)@[cid as int].kind,
        final(conns)@[cid as int].lane_kind == old(conns)@[cid as int].lane_kind,
        final(conns)@[cid as int].angle == old(conns)@[cid as int].angle,
        final(conns)@[cid as int].offset == old(conns)@[cid as int].offset,
        final(conns)@[cid as int].in_lane == in_l,
        final(conns)@[cid as int].out_lane == out_l,
{
    let center: Node = conns[cid].center;
    let kind: ConnectionKind = conns[cid].kind;
    let lane_kind: LaneKind = conns[cid].lane_kind;
    let angle = conns[cid].angle;
    let offset: i64 = conns[cid].offset;
    conns.set(
        cid,
        Connection { center, kind, lane_kind, angle, offset, in_lane: in_l, out_lane: out_l },
    );
}

/// Appending a lane that joins two real connections of different
/// sides, in its own category, keeps the graph sound.
pub proof fn lemma_push_lane_wf(conns: Seq<Connection>, pre: Seq<Lane>, l: Lane)
    requires
        graph_wf(conns, pre),
        l.ok(conns.len() as int),
        lane_conns_ok(conns, l),
    ensures
        graph_wf(conns, pre.push(l)),
{
    let post = pre.push(l);
    assert forall|c: int| 0 <= c < conns.len() implies (#[trigger] conns[c]).ok(post.len() as int)
        && conn_lists_ok(conns, post, c) by {
        assert(conns[c].ok(pre.len() as int));
        assert(conn_lists_ok(conns, pre, c));
        assert forall|i: int| 0 <= i < conns[c].out_lane@.len() implies {
            let lx = #[trigger] conns[c].out_lane@[i];
            &&& lx < post.len()
            &&& post[lx as int].c0 == c
            &&& post[lx as int].kind == conns[c].lane_kind
        } by {
            assert(post[conns[c].out_lane@[i] as int] == pre[conns[c].out_lane@[i] as int]);
        }
        assert forall|i: int| 0 <= i < conns[c].in_lane@.len() implies {
            let lx = #[trigger] conns[c].in_lane@[i];
            &&& lx < post.len()
            &&& post[lx as int].c1 == c
            &&& post[lx as int].kind == conns[c].lane_kind
        } by {
            assert(post[conns[c].in_lane@[i] as int] == pre[conns[c].in_lane@[i] as int]);
        }
    }
    assert forall|lx: int| 0 <= lx < post.len() implies (#[trigger] post[lx]).ok(
        conns.len() as int,
    ) && lane_conns_ok(conns, post[lx]) by {
        if lx < pre.len() {
            assert(post[lx] == pre[lx]);
        } else {
            assert(post[lx] == l);
        }
    }
}

/// Wiring an existing lane into the lists of the two connections it
/// really joins keeps the graph sound.
pub proof fn lemma_wire_wf(
    pre: Seq<Connection>,
    post: Seq<Connection>,
    lanes: Seq<Lane>,
    e: usize,
    x: usize,
    id: usize,
)
    requires
        graph_wf(pre, lanes),
        e != x,
        e < pre.len(),
        x < pre.len(),
        post.len() == pre.len(),
        forall|c: int| 0 <= c < pre.len() && c != e && c != x ==> post[c] == pre[c],
        forall|c: int|
            0 <= c < pre.len() ==> {
                &&& (#[trigger] post[c]).center == pre[c].center
                &&& post[c].kind == pre[c].kind
                &&& post[c].lane_kind == pre[c].lane_kind
                &&& post[c].angle == pre[c].angle
                &&& post[c].offset == pre[c].offset
            },
        post[e as int].out_lane@ == pre[e as int].out_lane@ + seq![id],
        post[e as int].in_lane@ == pre[e as int].in_lane@,
        post[x as int].in_lane@ == pre[x as int].in_lane@ + seq![id],
        post[x as int].out_lane@ == pre[x as int].out_lane@,
        id < lanes.len(),
        lanes[id as int].c0 == e,
        lanes[id as int].c1 == x,
        lanes[id as int].kind == pre[e as int].lane_kind,
        lanes[id as int].kind == pre[x as int].lane_kind,
    ensures
        graph_wf(post, lanes),
{
    assert forall|c: int| 0 <= c < post.len() implies (#[trigger] post[c]).ok(lanes.len() as int)
        && conn_lists_ok(post, lanes, c) by {
        assert(pre[c].ok(lanes.len() as int));
        assert(conn_lists_ok(pre, lanes, c));
        assert forall|i: int| 0 <= i < post[c].out_lane@.len() implies {
            let lx = #[trigger] post[c].out_lane@[i];
            &&& lx < lanes.len()
            &&& lanes[lx as int].c0 == c
            &&& lanes[lx as int].kind == post[c].lane_kind
        } by {
            if c == e && i == pre[c].out_lane@.len() {
                assert(post[c].out_lane@[i] == id);
            } else {
                assert(post[c].out_lane@[i] == pre[c].out_lane@[i]);
            }
        }
        assert forall|i: int| 0 <= i < post[c].in_lane@.len() implies {
            let lx = #[trigger] post[c].in_lane@[i];
            &&& lx < lanes.len()
            &&& lanes[lx as int].c1 == c
            &&& lanes[lx as int].kind == post[c].lane_kind
        } by {
            if c == x && i == pre[c].in_lane@.len() {
                assert(post[c].in_lane@[i] == id);
            } else {
                assert(post[c].in_lane@[i] == pre[c].in_lane@[i]);
            }
        }
    }
    assert forall|lx: int| 0 <= lx < lanes.len() implies (#[trigger] lanes[lx]).ok(
        post.len() as int,
    ) && lane_conns_ok(post, lanes[lx]) by {
        assert(lane_conns_ok(pre, lanes[lx]));
    }
}

/// Record lane `id` as departing from connection `e` and arriving at
/// connection `x`: append it to `e`'s out-list and `x`'s in-list.
pub(crate) fn wire_lane(conns: &mut Vec<Connection>, e: usize, x: usize, id: usize)
    requires
        e != x,
        e < old(conns)@.len(),
        x < old(conns)@.len(),
    ensures
        final(conns)@.len() == old(conns)@.len(),
        forall|c: int|
            0 <= c < old(conns)@.len() && c != e && c != x ==> final(conns)@[c] == old(conns)@[c],
        forall|c: int|
            0 <= c < old(conns)@.len() ==> {
                &&& (#[trigger] final(conns)@[c]).center == old(conns)@[c].center
                &&& final(conns)@[c].kind == old(conns)@[c].kind
                &&& final(conns)@[c].lane_kind == old(conns)@[c].lane_kind
                &&& final(conns)@[c].angle == old(conns)@[c].angle
                &&& final(conns)@[c].offset == old(conns)@[c].offset
            },
        final(conns)@[e as int].out_lane@ == old(conns)@[e as int].out_lane@ + seq![id],
        final(conns)@[e as int].in_lane@ == old(conns)@[e as int].in_lane@,
        final(conns)@[x as int].in_lane@ == old(conns)@[x as int].in_lane@ + seq![id],
        final(conns)@[x as int].out_lane@ == old(conns)@[x as int].out_lane@,
{
    let ghost conns0 = conns@;
    let ei = copy_ids(&conns[e].in_lane);
    let mut eo = copy_ids(&conns[e].out_lane);
    eo.push(id);
    set_conn_lists(conns, e, ei, eo);
    let ghost conns1 = conns@;
    proof {
        assert(conns1[x as int] == conns0[x as int]);
    }
    let xo = copy_ids(&conns[x].out_lane);
    let mut xi = copy_ids(&conns[x].in_lane);
    xi.push(id);
    set_conn_lists(conns, x, xi, xo);
    proof {
        assert(final(conns)@[e as int].out_lane@ =~= conns0[e as int].out_lane@ + seq![id]);
        assert(final(conns)@[x as int].in_lane@ =~= conns0[x as int].in_lane@ + seq![id]);
    }
}

/// An intersection: its center, and the roads, connections and lanes
/// it takes part in, each an index into the owning map's arenas.
pub struct Intersection {
    pub center: Node,
    pub roads: Vec<usize>,
    pub connections: Vec<usize>,
    pub lanes: Vec<usize>,
}

impl Intersection {
    /// The intersection's cross-references are in range of arenas of
    /// `n_conns` connections and `n_lanes` lanes, and it lists no
    /// connection twice.
    pub open spec fn ok(self, n_conns: int, n_lanes: int) -> bool {
        &&& forall|i: int| 0 <= i < self.connections@.len() ==> self.connections@[i] < n_conns
        &&& forall|i: int| 0 <= i < self.lanes@.len() ==> self.lanes@[i] < n_lanes
        &&& forall|i: int, j: int|
            0 <= i < j < self.connections@.len() ==> self.connections@[i] != self.connections@[j]
    }

    /// Attach one side of a road: create one connection per category in
    /// the profile, at successive lateral offsets from the road's
    /// anchor point, then rebuild the turn lanes. The right side (in
    /// road heading `a`) carries traffic out of the intersection, the
    /// left side carries traffic in. Returns the new connections'
    /// identifiers, right side first, in profile order.
    pub fn get_connections(
        &mut self,
        a: Heading,
        road_profile: &RoadProfile,
        conns: &mut Vec<Connection>,
        lanes: &mut Vec<Lane>,
    ) -> (cs: Vec<usize>)
        requires
            a.wf(),
            road_profile.ok(),
            graph_wf(old(conns)@, old(lanes)@),
            old(self).ok(old(conns)@.len() as int, old(lanes)@.len() as int),
            old(self).center.bounded(MAX_COORD as int - 100_000_000),
        ensures
            graph_wf(final(conns)@, final(lanes)@),
            final(self).ok(final(conns)@.len() as int, final(lanes)@.len() as int),
            final(self).center == old(self).center,
            final(self).roads@ == old(self).roads@,
            forall|t: int| 0 <= t < old(lanes)@.len() ==> final(lanes)@[t] == old(lanes)@[t],
            final(lanes)@.len() >= old(lanes)@.len(),
            ({
                let nr = road_profile.right_lane_kinds@.len() as int;
                let nl = road_profile.left_lane_kinds@.len() as int;
                let b = old(conns)@.len() as int;
                let w = kinds_width(road_profile.right_lane_kinds@) + kinds_width(
                    road_profile.left_lane_kinds@,
                );
                &&& final(conns)@.len() == b + nr + nl
                &&& forall|c: int| 0 <= c < b ==> {
                    &&& (#[trigger] final(conns)@[c]).center == old(conns)@[c].center
                    &&& final(conns)@[c].kind == old(conns)@[c].kind
                    &&& final(conns)@[c].lane_kind == old(conns)@[c].lane_kind
                    &&& final(conns)@[c].angle == old(conns)@[c].angle
                    &&& final(conns)@[c].offset == old(conns)@[c].offset
                }
                &&& cs@.len() == nr + nl
                &&& forall|t: int| 0 <= t < nr + nl ==> cs@[t] == b + t
                &&& final(self).connections@ == old(self).connections@ + cs@
                &&& forall|t: int|
                    0 <= t < nr ==> side_conn_matches(
                        #[trigger] final(conns)@[b + t],
                        old(self).center,
                        a,
                        road_profile.right_lane_kinds@,
                        t,
                        ConnectionKind::Out,
                        -a.y as int,
                        a.x as int,
                        w,
                    )
                &&& forall|t: int|
                    0 <= t < nl ==> side_conn_matches(
                        #[trigger] final(conns)@[b + nr + t],
                        old(self).center,
                        a,
                        road_profile.left_lane_kinds@,
                        t,
                        ConnectionKind::In,
                        a.y as int,
                        -a.x as int,
                        w,
                    )
            }),
            // the attachment ends by rebuilding the turn lanes: the
            // arena gains exactly one lane per compatible (entry, exit)
            // pair over the connections as they now stand, this
            // intersection's lane list names exactly those lanes, and
            // every connection's lists are its prior lists purged of
            // the retired turn lanes plus its share of the new ones
            ({
                let ids2 = final(self).connections@;
                let pairs = cross_pairs(final(conns)@, ids2);
                let base = old(lanes)@.len() as int;
                &&& final(lanes)@.len() == base + pairs.len()
                &&& lanes_match(final(lanes)@.skip(base), pairs, final(conns)@)
                &&& final(self).lanes@ =~= Seq::new(
                    pairs.len(),
                    |t: int| (old(lanes)@.len() + t) as usize,
                )
                &&& forall|q: int|
                    0 <= q < ids2.len() ==> {
                        let c = #[trigger] ids2[q];
                        &&& final(conns)@[c as int].out_lane@ == keep_ids(
                            prior_out(old(conns)@, c),
                            old(self).lanes@,
                        ) + pair_out_ids(pairs, base, c)
                        &&& final(conns)@[c as int].in_lane@ == keep_ids(
                            prior_in(old(conns)@, c),
                            old(self).lanes@,
                        ) + pair_in_ids(pairs, base, c)
                    }
            }),
    {
        let wfull: u64 = road_profile.width();
        let whalf: i64 = ((wfull / 2) / 2) as i64;
        let a0 = a.quarter_left();
        let a1 = a.quarter_right();
        let anchor = self.center.offset(a, wfull as i64);
        let ghost b = conns@.len() as int;
        let ghost kinds_r = road_profile.right_lane_kinds@;
        let ghost kinds_l = road_profile.left_lane_kinds@;
        let ghost center0 = self.center;
        let mut cs: Vec<usize> = Vec::new();
        let mut off: u64 = 0;
        let mut t: usize = 0;
        while t < road_profile.right_lane_kinds.len()
            invariant
                t <= kinds_r.len(),
                kinds_r.len() <= 1000,
                kinds_r == road_profile.right_lane_kinds@,
                kinds_l == road_profile.left_lane_kinds@,
                a.wf(),
                a0.x == -a.y && a0.y == a.x,
                self.center == center0,
                center0.bounded(MAX_COORD as int - 100_000_000),
                anchor.x == off_coord(
                    center0.x as int,
                    a.x as int,
                    kinds_width(kinds_r) + kinds_width(kinds_l),
                ),
                anchor.y == off_coord(
                    center0.y as int,
                    a.y as int,
                    kinds_width(kinds_r) + kinds_width(kinds_l),
                ),
                anchor.bounded(MAX_COORD as int - 90_000_000),
                whalf == (((kinds_width(kinds_r) + kinds_width(kinds_l)) / 2) / 2),
                off == kinds_width(kinds_r.take(t as int)),
                off <= 4_000_000,
                graph_wf(conns@, lanes@),
                self.ok(conns@.len() as int, lanes@.len() as int),
                self.roads@ == old(self).roads@,
                self.lanes@ == old(self).lanes@,
                lanes@ == old(lanes)@,
                conns@.len() == b + t,
                b == old(conns)@.len(),
                forall|c: int| 0 <= c < b ==> conns@[c] == old(conns)@[c],
                cs@.len() == t as int,
                forall|u: int| 0 <= u < t ==> cs@[u] == b + u,
                self.connections@ == old(self).connections@ + cs@,
                forall|u: int|
                    0 <= u < t ==> side_conn_matches(
                        #[trigger] conns@[b + u],
                        center0,
                        a,
                        kinds_r,
                        u,
                        ConnectionKind::Out,
                        -a.y as int,
                        a.x as int,
                        kinds_width(kinds_r) + kinds_width(kinds_l),
                    ),
                forall|u: int|
                    0 <= u < t ==> (#[trigger] conns@[b + u]).out_lane@.len() == 0 && conns@[b
                        + u].in_lane@.len() == 0,
            decreases kinds_r.len() - t,
        {
            let k: LaneKind = road_profile.right_lane_kinds[t];
            let kw: u64 = k.width();
            proof {
                crate::road_profile::lemma_kinds_width_bounds(kinds_r.take(t as int));
                crate::road_profile::lemma_kinds_width_bounds(kinds_r.take(t + 1));
                assert(kinds_r.take(t + 1).drop_last() =~= kinds_r.take(t as int));
                assert(kinds_r.take(t + 1).last() == kinds_r[t as int]);
            }
            off = off + kw / 2;
            let n = anchor.offset(a0, off as i64);
            let c = Connection::new(n, ConnectionKind::Out, k, a, whalf);
            let id: usize = conns.len();
            let ghost conns_pre = conns@;
            conns.push(c);
            cs.push(id);
            self.connections.push(id);
            proof {
                assert(conns@ =~= conns_pre.push(c));
                lemma_push_conn_wf(conns_pre, lanes@, c);
                assert(side_conn_matches(
                    conns@[b + t],
                    center0,
                    a,
                    kinds_r,
                    t as int,
                    ConnectionKind::Out,
                    -a.y as int,
                    a.x as int,
                    kinds_width(kinds_r) + kinds_width(kinds_l),
                ));
                assert forall|u: int| 0 <= u < t implies side_conn_matches(
                    #[trigger] conns@[b + u],
                    center0,
                    a,
                    kinds_r,
                    u,
                    ConnectionKind::Out,
                    -a.y as int,
                    a.x as int,
                    kinds_width(kinds_r) + kinds_width(kinds_l),
                ) by {
                    assert(conns@[b + u] == conns_pre[b + u]);
                }
            }
            off = off + kw / 2;
            t = t + 1;
            proof {
                assert(self.connections@ =~= old(self).connections@ + cs@);
            }
        }
        proof {
            assert(kinds_r.take(kinds_r.len() as int) =~= kinds_r);
        }
        let mut off2: u64 = 0;
        let mut t2: usize = 0;
        while t2 < road_profile.left_lane_kinds.len()
            invariant
                t2 <= kinds_l.len(),
                kinds_l.len() <= 1000,
                kinds_r == road_profile.right_lane_kinds@,
                kinds_l == road_profile.left_lane_kinds@,
                a.wf(),
                a1.x == a.y && a1.y == -a.x,
                self.center == center0,
                center0.bounded(MAX_COORD as int - 100_000_000),
                anchor.x == off_coord(
                    center0.x as int,
                    a.x as int,
                    kinds_width(kinds_r) + kinds_width(kinds_l),
                ),
                anchor.y == off_coord(
                    center0.y as int,
                    a.y as int,
                    kinds_width(kinds_r) + kinds_width(kinds_l),
                ),
                anchor.bounded(MAX_COORD as int - 90_000_000),
                whalf == (((kinds_width(kinds_r) + kinds_width(kinds_l)) / 2) / 2),
                off2 == kinds_width(kinds_l.take(t2 as int)),
                off2 <= 4_000_000,
                graph_wf(conns@, lanes@),
                self.ok(conns@.len() as int, lanes@.len() as int),
                self.roads@ == old(self).roads@,
                self.lanes@ == old(self).lanes@,
                lanes@ == old(lanes)@,
                conns@.len() == b + kinds_r.len() + t2,
                b == old(conns)@.len(),
                forall|c: int| 0 <= c < b ==> conns@[c] == old(conns)@[c],
                cs@.len() == kinds_r.len() + t2,
                forall|u: int| 0 <= u < cs@.len() ==> cs@[u] == b + u,
                self.connections@ == old(self).connections@ + cs@,
                forall|u: int|
                    0 <= u < kinds_r.len() ==> side_conn_matches(
                        #[trigger] conns@[b + u],
                        center0,
                        a,
                        kinds_r,
                        u,
                        ConnectionKind::Out,
                        -a.y as int,
                        a.x as int,
                        kinds_width(kinds_r) + kinds_width(kinds_l),
                    ),
                forall|u: int|
                    0 <= u < t2 ==> side_conn_matches(
                        #[trigger] conns@[b + kinds_r.len() + u],
                        center0,
                        a,
                        kinds_l,
                        u,
                        ConnectionKind::In,
                        a.y as int,
                        -a.x as int,
                        kinds_width(kinds_r) + kinds_width(kinds_l),
                    ),
                forall|u: int|
                    0 <= u < kinds_r.len() + t2 ==> (#[trigger] conns@[b + u]).out_lane@.len()
                        == 0 && conns@[b + u].in_lane@.len() == 0,
            decreases kinds_l.len() - t2,
        {
            let k: LaneKind = road_profile.left_lane_kinds[t2];
            let kw: u64 = k.width();
            proof {
                crate::road_profile::lemma_kinds_width_bounds(kinds_l.take(t2 as int));
                crate::road_profile::lemma_kinds_width_bounds(kinds_l.take(t2 + 1));
                assert(kinds_l.take(t2 + 1).drop_last() =~= kinds_l.take(t2 as int));
                assert(kinds_l.take(t2 + 1).last() == kinds_l[t2 as int]);
            }
            off2 = off2 + kw / 2;
            let n = anchor.offset(a1, off2 as i64);
            let c = Connection::new(n, ConnectionKind::In, k, a, whalf);
            let id: usize = conns.len();
            let ghost conns_pre = conns@;
            conns.push(c);
            cs.push(id);
            self.connections.push(id);
            proof {
                assert(conns@ =~= conns_pre.push(c));
                lemma_push_conn_wf(conns_pre, lanes@, c);
                assert(side_conn_matches(
                    conns@[b + kinds_r.len() + t2],
                    center0,
                    a,
                    kinds_l,
                    t2 as int,
                    ConnectionKind::In,
                    a.y as int,
                    -a.x as int,
                    kinds_width(kinds_r) + kinds_width(kinds_l),
                ));
                assert forall|u: int| 0 <= u < kinds_r.len() implies side_conn_matches(
                    #[trigger] conns@[b + u],
                    center0,
                    a,
                    kinds_r,
                    u,
                    ConnectionKind::Out,
                    -a.y as int,
                    a.x as int,
                    kinds_width(kinds_r) + kinds_width(kinds_l),
                ) by {
                    assert(conns@[b + u] == conns_pre[b + u]);
                }
                assert forall|u: int| 0 <= u < t2 implies side_conn_matches(
                    #[trigger] conns@[b + kinds_r.len() + u],
                    center0,
                    a,
                    kinds_l,
                    u,
                    ConnectionKind::In,
                    a.y as int,
                    -a.x as int,
                    kinds_width(kinds_r) + kinds_width(kinds_l),
                ) by {
                    assert(conns@[b + kinds_r.len() + u] == conns_pre[b + kinds_r.len() + u]);
                }
            }
            off2 = off2 + kw / 2;
            t2 = t2 + 1;
            proof {
                assert(self.connections@ =~= old(self).connections@ + cs@);
            }
        }
        proof {
            assert(kinds_l.take(kinds_l.len() as int) =~= kinds_l);
        }
        self.add_lanes(conns, lanes);
        cs
    }

    /// Rebuild this intersection's turn lanes: retire the old ones from
    /// its connections' lists, then create one lane for every (entry,
    /// exit) pair of distinct connections whose categories match, and
    /// wire each into both connections. Retired lanes stay in the
    /// arena, so references held elsewhere stay valid.
    pub fn add_lanes(&mut self, conns: &mut Vec<Connection>, lanes: &mut Vec<Lane>)
        requires
            graph_wf(old(conns)@, old(lanes)@),
            old(self).ok(old(conns)@.len() as int, old(lanes)@.len() as int),
        ensures
            graph_wf(final(conns)@, final(lanes)@),
            final(self).ok(final(conns)@.len() as int, final(lanes)@.len() as int),
            final(self).center == old(self).center,
            final(self).roads@ == old(self).roads@,
            final(self).connections@ == old(self).connections@,
            final(conns)@.len() == old(conns)@.len(),
            cross_pairs(final(conns)@, old(self).connections@) == cross_pairs(
                old(conns)@,
                old(self).connections@,
            ),
            final(lanes)@.len() == old(lanes)@.len() + cross_pairs(
                final(conns)@,
                old(self).connections@,
            ).len(),
            forall|t: int| 0 <= t < old(lanes)@.len() ==> final(lanes)@[t] == old(lanes)@[t],
            lanes_match(
                final(lanes)@.skip(old(lanes)@.len() as int),
                cross_pairs(final(conns)@, old(self).connections@),
                final(conns)@,
            ),
            final(self).lanes@ =~= Seq::new(
                cross_pairs(final(conns)@, old(self).connections@).len(),
                |t: int| (old(lanes)@.len() + t) as usize,
            ),
            forall|c: int|
                0 <= c < old(conns)@.len() && !old(self).connections@.contains(c as usize)
                    ==> final(conns)@[c] == old(conns)@[c],
            forall|c: int|
                0 <= c < old(conns)@.len() ==> {
                    &&& (#[trigger] final(conns)@[c]).center == old(conns)@[c].center
                    &&& final(conns)@[c].kind == old(conns)@[c].kind
                    &&& final(conns)@[c].lane_kind == old(conns)@[c].lane_kind
                    &&& final(conns)@[c].angle == old(conns)@[c].angle
                    &&& final(conns)@[c].offset == old(conns)@[c].offset
                },
            forall|q: int|
                0 <= q < old(self).connections@.len() ==> {
                    let c = #[trigger] old(self).connections@[q];
                    &&& final(conns)@[c as int].out_lane@ == keep_ids(
                        old(conns)@[c as int].out_lane@,
                        old(self).lanes@,
                    ) + pair_out_ids(
                        cross_pairs(final(conns)@, old(self).connections@),
                        old(lanes)@.len() as int,
                        c,
                    )
                    &&& final(conns)@[c as int].in_lane@ == keep_ids(
                        old(conns)@[c as int].in_lane@,
                        old(self).lanes@,
                    ) + pair_in_ids(
                        cross_pairs(final(conns)@, old(self).connections@),
                        old(lanes)@.len() as int,
                        c,
                    )
                },
    {
        let n_conns: usize = conns.len();
        let ghost arena0 = conns@;
        let ghost lanes0 = lanes@;
        proof {
            assert(arena0.len() == n_conns);
        }
        let ghost ids = self.connections@;
        let ghost dead = self.lanes@;

        // First pass: collect the new turn lanes, reading the arena as
        // it stands.
        let mut new_lanes: Vec<Lane> = Vec::new();
        let mut i: usize = 0;
        while i < self.connections.len()
            invariant
                i <= ids.len(),
                ids == self.connections@,
                arena0 == conns@,
                lanes0 == lanes@,
                graph_wf(conns@, lanes@),
                self.ok(conns@.len() as int, lanes@.len() as int),
                lanes_match(new_lanes@, cross_upto(arena0, ids, i as int), arena0),
            decreases ids.len() - i,
        {
            let e: usize = self.connections[i];
            let mut j: usize = 0;
            while j < self.connections.len()
                invariant
                    i < ids.len(),
                    j <= ids.len(),
                    e == ids[i as int],
                    ids == self.connections@,
                    arena0 == conns@,
                    lanes0 == lanes@,
                    graph_wf(conns@, lanes@),
                    self.ok(conns@.len() as int, lanes@.len() as int),
                    lanes_match(
                        new_lanes@,
                        cross_upto(arena0, ids, i as int) + entry_pairs_upto(
                            arena0,
                            ids,
                            e,
                            j as int,
                        ),
                        arena0,
                    ),
                decreases ids.len() - j,
            {
                let x: usize = self.connections[j];
                if e != x && matches!(conns[e].kind, ConnectionKind::In) && matches!(
                    conns[x].kind,
                    ConnectionKind::Out,
                ) && conns[e].lane_kind == conns[x].lane_kind {
                    let curve = Curve::new(conns[e].center, conns[x].center, conns[e].angle,
                        conns[x].angle);
                    let l = Lane::new(e, x, curve, 5000, conns[e].lane_kind);
                    new_lanes.push(l);
                    proof {
                        assert(can_join(arena0, e, x));
                    }
                } else {
                    proof {
                        assert(!can_join(arena0, e, x));
                    }
                }
                proof {
                    assert(entry_pairs_upto(arena0, ids, e, j + 1) == entry_pairs_upto(
                        arena0,
                        ids,
                        e,
                        j as int,
                    ) + if can_join(arena0, e, ids[j as int]) {
                        seq![(e, ids[j as int])]
                    } else {
                        Seq::<(usize, usize)>::empty()
                    });
                }
                j = j + 1;
            }
            proof {
                assert(cross_upto(arena0, ids, i + 1) == cross_upto(arena0, ids, i as int)
                    + entry_pairs_upto(arena0, ids, ids[i as int], ids.len() as int));
            }
            i = i + 1;
        }
        let ghost pairs = cross_pairs(arena0, ids);
        proof {
            assert(lanes_match(new_lanes@, pairs, arena0));
        }

        // Second pass: retire this intersection's old turn lanes from
        // its connections' lists.
        let mut p: usize = 0;
        while p < self.connections.len()
            invariant
                p <= ids.len(),
                ids == self.connections@,
                dead == self.lanes@,
                lanes0 == lanes@,
                self.ok(arena0.len() as int, lanes@.len() as int),
                conns@.len() == arena0.len(),
                lanes_match(new_lanes@, pairs, arena0),
                forall|c: int|
                    0 <= c < arena0.len() && !ids.take(p as int).contains(c as usize)
                        ==> conns@[c] == arena0[c],
                forall|q: int|
                    0 <= q < p ==> {
                        let c = #[trigger] ids[q];
                        &&& conns@[c as int].out_lane@ == keep_ids(arena0[c as int].out_lane@, dead)
                        &&& conns@[c as int].in_lane@ == keep_ids(arena0[c as int].in_lane@, dead)
                        &&& conns@[c as int].center == arena0[c as int].center
                        &&& conns@[c as int].kind == arena0[c as int].kind
                        &&& conns@[c as int].lane_kind == arena0[c as int].lane_kind
                        &&& conns@[c as int].angle == arena0[c as int].angle
                        &&& conns@[c as int].offset == arena0[c as int].offset
                    },
            decreases ids.len() - p,
        {
            let cid: usize = self.connections[p];
            proof {
                assert(!ids.take(p as int).contains(cid));
                assert(conns@[cid as int] == arena0[cid as int]);
            }
            let fo = filter_ids(&conns[cid].out_lane, &self.lanes);
            let fi = filter_ids(&conns[cid].in_lane, &self.lanes);
            set_conn_lists(conns, cid, fi, fo);
            proof {
                assert(ids.take(p + 1)[p as int] == cid);
                assert(ids.take(p + 1).contains(cid));
                assert forall|c: int|
                    0 <= c < arena0.len() && !ids.take(p + 1).contains(c as usize) implies conns@[c]
                    == arena0[c] by {
                    if ids.take(p as int).contains(c as usize) {
                        let w = choose|w: int|
                            0 <= w < p && ids.take(p as int)[w] == c as usize;
                        assert(ids.take(p + 1)[w] == c as usize);
                        assert(ids.take(p + 1).contains(c as usize));
                    }
                    assert(c != cid);
                }
            }
            p = p + 1;
        }

        proof {
            assert(ids.take(ids.len() as int) =~= ids);
            assert forall|c: int| 0 <= c < arena0.len() implies {
                &&& (#[trigger] conns@[c]).center == arena0[c].center
                &&& conns@[c].kind == arena0[c].kind
                &&& conns@[c].lane_kind == arena0[c].lane_kind
                &&& conns@[c].angle == arena0[c].angle
                &&& conns@[c].offset == arena0[c].offset
            } by {
                if ids.contains(c as usize) {
                    let q = choose|q: int| 0 <= q < ids.len() && ids[q] == c as usize;
                    assert(ids[q] as int == c);
                    assert(conns@[ids[q] as int].center == arena0[ids[q] as int].center);
                    assert(conns@[ids[q] as int].kind == arena0[ids[q] as int].kind);
                    assert(conns@[ids[q] as int].lane_kind == arena0[ids[q] as int].lane_kind);
                    assert(conns@[ids[q] as int].angle == arena0[ids[q] as int].angle);
                    assert(conns@[ids[q] as int].offset == arena0[ids[q] as int].offset);
                } else {
                    assert(conns@[c] == arena0[c]);
                }
            }
            assert forall|q: int| 0 <= q < ids.len() implies {
                let c = #[trigger] ids[q];
                &&& conns@[c as int].out_lane@ == keep_ids(arena0[c as int].out_lane@, dead)
                    + pair_out_ids(pairs.take(0), lanes0.len() as int, c)
                &&& conns@[c as int].in_lane@ == keep_ids(arena0[c as int].in_lane@, dead)
                    + pair_in_ids(pairs.take(0), lanes0.len() as int, c)
            } by {
                let c = ids[q];
                assert(pair_out_ids(pairs.take(0), lanes0.len() as int, c)
                    =~= Seq::<usize>::empty());
                assert(pair_in_ids(pairs.take(0), lanes0.len() as int, c)
                    =~= Seq::<usize>::empty());
                assert(keep_ids(arena0[c as int].out_lane@, dead) + Seq::<usize>::empty()
                    =~= keep_ids(arena0[c as int].out_lane@, dead));
                assert(keep_ids(arena0[c as int].in_lane@, dead) + Seq::<usize>::empty()
                    =~= keep_ids(arena0[c as int].in_lane@, dead));
            }
        }

        // Third pass: append the new lanes to the arena, record their
        // identifiers here, and wire each into its two connections.
        self.lanes = Vec::new();
        let ghost base = lanes0.len() as int;
        let mut t: usize = 0;
        while t < new_lanes.len()
            invariant
                t <= pairs.len(),
                new_lanes@.len() == pairs.len(),
                ids == self.connections@,
                pairs == cross_pairs(arena0, ids),
                self.center == old(self).center,
                self.roads@ == old(self).roads@,
                self.connections@ == old(self).connections@,
                lanes_match(new_lanes@, pairs, arena0),
                forall|q: int, r: int| 0 <= q < r < ids.len() ==> ids[q] != ids[r],
                forall|q: int| 0 <= q < ids.len() ==> ids[q] < arena0.len(),
                conns@.len() == arena0.len(),
                lanes@.len() == base + t,
                lanes@ == lanes0 + new_lanes@.take(t as int),
                self.lanes@ =~= Seq::new(t as nat, |u: int| (base + u) as usize),
                forall|c: int|
                    0 <= c < arena0.len() && !ids.contains(c as usize) ==> conns@[c] == arena0[c],
                forall|c: int|
                    0 <= c < arena0.len() ==> {
                        &&& (#[trigger] conns@[c]).center == arena0[c].center
                        &&& conns@[c].kind == arena0[c].kind
                        &&& conns@[c].lane_kind == arena0[c].lane_kind
                        &&& conns@[c].angle == arena0[c].angle
                        &&& conns@[c].offset == arena0[c].offset
                    },
                forall|q: int|
                    0 <= q < ids.len() ==> {
                        let c = #[trigger] ids[q];
                        &&& conns@[c as int].out_lane@ == keep_ids(arena0[c as int].out_lane@, dead)
                            + pair_out_ids(pairs.take(t as int), base, c)
                        &&& conns@[c as int].in_lane@ == keep_ids(arena0[c as int].in_lane@, dead)
                            + pair_in_ids(pairs.take(t as int), base, c)
                    },
            decreases new_lanes@.len() - t,
        {
            proof {
                lemma_cross_elems(arena0, ids, ids.len() as int);
                assert(pairs[t as int] == cross_upto(arena0, ids, ids.len() as int)[t as int]);
                assert(ids.contains(pairs[t as int].0));
                assert(ids.contains(pairs[t as int].1));
            }
            let lane: Lane = new_lanes[t];
            let id: usize = lanes.len();
            lanes.push(lane);
            self.lanes.push(id);
            let e: usize = lane.c0;
            let x: usize = lane.c1;
            proof {
                assert(e == pairs[t as int].0 && x == pairs[t as int].1);
                assert(e != x);
            }
            let ghost conns_mid = conns@;
            wire_lane(conns, e, x, id);
            proof {
                assert(pairs.take(t + 1).drop_last() =~= pairs.take(t as int));
                assert(pairs.take(t + 1).last() == pairs[t as int]);
                assert(lanes@ =~= lanes0 + new_lanes@.take(t + 1));
                assert(self.lanes@ =~= Seq::new((t + 1) as nat, |u: int| (base + u) as usize));
                assert forall|q: int| 0 <= q < ids.len() implies {
                    let c = #[trigger] ids[q];
                    &&& conns@[c as int].out_lane@ == keep_ids(arena0[c as int].out_lane@, dead)
                        + pair_out_ids(pairs.take(t + 1), base, c)
                    &&& conns@[c as int].in_lane@ == keep_ids(arena0[c as int].in_lane@, dead)
                        + pair_in_ids(pairs.take(t + 1), base, c)
                } by {
                    let c = ids[q];
                    assert(pair_out_ids(pairs.take(t + 1), base, c) == pair_out_ids(
                        pairs.take(t as int),
                        base,
                        c,
                    ) + if pairs[t as int].0 == c {
                        seq![(base + t) as usize]
                    } else {
                        Seq::<usize>::empty()
                    });
                    assert(pair_in_ids(pairs.take(t + 1), base, c) == pair_in_ids(
                        pairs.take(t as int),
                        base,
                        c,
                    ) + if pairs[t as int].1 == c {
                        seq![(base + t) as usize]
                    } else {
                        Seq::<usize>::empty()
                    });
                    let ko = keep_ids(arena0[c as int].out_lane@, dead);
                    let ki = keep_ids(arena0[c as int].in_lane@, dead);
                    if c == e {
                        assert(conns@[c as int].out_lane@ =~= conns_mid[c as int].out_lane@
                            + seq![id]);
                        assert(conns@[c as int].in_lane@ =~= conns_mid[c as int].in_lane@);
                        assert(conns@[c as int].out_lane@ =~= ko + pair_out_ids(
                            pairs.take(t + 1),
                            base,
                            c,
                        ));
                        assert(conns@[c as int].in_lane@ =~= ki + pair_in_ids(
                            pairs.take(t + 1),
                            base,
                            c,
                        ));
                    } else if c == x {
                        assert(conns@[c as int].out_lane@ =~= conns_mid[c as int].out_lane@);
                        assert(conns@[c as int].in_lane@ =~= conns_mid[c as int].in_lane@
                            + seq![id]);
                        assert(conns@[c as int].out_lane@ =~= ko + pair_out_ids(
                            pairs.take(t + 1),
                            base,
                            c,
                        ));
                        assert(conns@[c as int].in_lane@ =~= ki + pair_in_ids(
                            pairs.take(t + 1),
                            base,
                            c,
                        ));
                    } else {
                        assert(conns@[c as int] == conns_mid[c as int]);
                        assert(conns@[c as int].out_lane@ =~= ko + pair_out_ids(
                            pairs.take(t + 1),
                            base,
                            c,
                        ));
                        assert(conns@[c as int].in_lane@ =~= ki + pair_in_ids(
                            pairs.take(t + 1),
                            base,
                            c,
                        ));
                    }
                }
            }
            t = t + 1;
        }
        let n_total: usize = lanes.len();
        proof {
            assert(n_total == lanes@.len());
            assert(pairs.take(pairs.len() as int) =~= pairs);
            assert(new_lanes@.take(new_lanes@.len() as int) =~= new_lanes@);
            assert(lanes@ == lanes0 + new_lanes@);
            assert(lanes@.skip(lanes0.len() as int) =~= new_lanes@);
            Self::lemma_rebuild_wf(arena0, lanes0, conns@, lanes@, ids, dead, pairs, new_lanes@);
            // the rebuild touched no connection's side or category, so
            // the pairs read the same off the final arena
            lemma_cross_pairs_congruent(arena0, conns@, ids);
            assert(cross_pairs(conns@, ids) == pairs);
            lemma_cross_elems(arena0, ids, ids.len() as int);
            assert forall|t: int| 0 <= t < pairs.len() implies turn_lane_matches(
                #[trigger] lanes@.skip(lanes0.len() as int)[t],
                conns@,
                pairs[t].0,
                pairs[t].1,
            ) by {
                assert(turn_lane_matches(new_lanes@[t], arena0, pairs[t].0, pairs[t].1));
                assert(ids.contains(pairs[t].0));
                assert(ids.contains(pairs[t].1));
                let qe = choose|qe: int| 0 <= qe < ids.len() && ids[qe] == pairs[t].0;
                let qx = choose|qx: int| 0 <= qx < ids.len() && ids[qx] == pairs[t].1;
                assert(conns@[pairs[t].0 as int].center == arena0[pairs[t].0 as int].center);
                assert(conns@[pairs[t].1 as int].center == arena0[pairs[t].1 as int].center);
                assert(conns@[pairs[t].0 as int].angle == arena0[pairs[t].0 as int].angle);
                assert(conns@[pairs[t].1 as int].angle == arena0[pairs[t].1 as int].angle);
                assert(conns@[pairs[t].0 as int].lane_kind == arena0[pairs[t].0 as int].lane_kind);
            }
        }
    }

    /// The rebuilt graph is sound: purged lists only dropped entries,
    /// and every new entry names the new lane it was made for.
    proof fn lemma_rebuild_wf(
        arena0: Seq<Connection>,
        lanes0: Seq<Lane>,
        conns: Seq<Connection>,
        lanes: Seq<Lane>,
        ids: Seq<usize>,
        dead: Seq<usize>,
        pairs: Seq<(usize, usize)>,
        new_lanes: Seq<Lane>,
    )
        requires
            graph_wf(arena0, lanes0),
            forall|q: int| 0 <= q < ids.len() ==> ids[q] < arena0.len(),
            pairs == cross_pairs(arena0, ids),
            lanes_match(new_lanes, pairs, arena0),
            conns.len() == arena0.len(),
            lanes == lanes0 + new_lanes,
            forall|c: int|
                0 <= c < arena0.len() && !ids.contains(c as usize) ==> conns[c] == arena0[c],
            forall|c: int|
                0 <= c < arena0.len() ==> {
                    &&& (#[trigger] conns[c]).center == arena0[c].center
                    &&& conns[c].kind == arena0[c].kind
                    &&& conns[c].lane_kind == arena0[c].lane_kind
                    &&& conns[c].angle == arena0[c].angle
                    &&& conns[c].offset == arena0[c].offset
                },
            forall|q: int|
                0 <= q < ids.len() ==> {
                    let c = #[trigger] ids[q];
                    &&& conns[c as int].out_lane@ == keep_ids(arena0[c as int].out_lane@, dead)
                        + pair_out_ids(pairs, lanes0.len() as int, c)
                    &&& conns[c as int].in_lane@ == keep_ids(arena0[c as int].in_lane@, dead)
                        + pair_in_ids(pairs, lanes0.len() as int, c)
                },
            lanes.len() <= usize::MAX,
            arena0.len() <= usize::MAX,
        ensures
            graph_wf(conns, lanes),
    {
        let base = lanes0.len() as int;
        lemma_cross_elems(arena0, ids, ids.len() as int);
        // Lanes: the old ones carry over, the new ones join listed,
        // joinable connections.
        assert forall|l: int| 0 <= l < lanes.len() implies (#[trigger] lanes[l]).ok(
            conns.len() as int,
        ) && lane_conns_ok(conns, lanes[l]) by {
            if l < lanes0.len() {
                assert(lanes[l] == lanes0[l]);
            } else {
                let u = l - base;
                assert(turn_lane_matches(new_lanes[u], arena0, pairs[u].0, pairs[u].1));
                assert(ids.contains(pairs[u].0));
                assert(ids.contains(pairs[u].1));
                let qe = choose|qe: int| 0 <= qe < ids.len() && ids[qe] == pairs[u].0;
                let qx = choose|qx: int| 0 <= qx < ids.len() && ids[qx] == pairs[u].1;
                assert(ids[qe] < arena0.len());
                assert(ids[qx] < arena0.len());
            }
        }
        // Connections: purged lists only dropped entries; new entries
        // name the lanes built for them.
        assert forall|c: int| 0 <= c < conns.len() implies (#[trigger] conns[c]).ok(
            lanes.len() as int,
        ) && conn_lists_ok(conns, lanes, c) by {
            if ids.contains(c as usize) {
                assert(arena0[c].ok(lanes0.len() as int));
                assert(conn_lists_ok(arena0, lanes0, c));
                let cc = c as usize;
                let cq = choose|cq: int| 0 <= cq < ids.len() && ids[cq] == cc;
                assert(ids[cq] as int == c);
                assert(conns[ids[cq] as int].out_lane@ == keep_ids(
                    arena0[ids[cq] as int].out_lane@,
                    dead,
                ) + pair_out_ids(pairs, base, ids[cq]));
                assert(conns[ids[cq] as int].in_lane@ == keep_ids(
                    arena0[ids[cq] as int].in_lane@,
                    dead,
                ) + pair_in_ids(pairs, base, ids[cq]));
                lemma_keep_ids_from(arena0[c].out_lane@, dead);
                lemma_keep_ids_from(arena0[c].in_lane@, dead);
                lemma_pair_out_ids_elems(pairs, base, cc);
                lemma_pair_in_ids_elems(pairs, base, cc);
                let ko = keep_ids(arena0[c].out_lane@, dead);
                let po = pair_out_ids(pairs, base, cc);
                assert forall|i: int| 0 <= i < conns[c].out_lane@.len() implies {
                    let l = #[trigger] conns[c].out_lane@[i];
                    &&& l < lanes.len()
                    &&& lanes[l as int].c0 == c
                    &&& lanes[l as int].kind == conns[c].lane_kind
                } by {
                    if i < ko.len() {
                        assert(conns[c].out_lane@[i] == ko[i]);
                        assert(arena0[c].out_lane@.contains(ko[i]));
                        let w = choose|w: int|
                            0 <= w < arena0[c].out_lane@.len() && arena0[c].out_lane@[w] == ko[i];
                        assert(lanes[ko[i] as int] == lanes0[ko[i] as int]);
                    } else {
                        let id = po[i - ko.len()];
                        assert(conns[c].out_lane@[i] == id);
                        assert(base <= id < base + pairs.len());
                        assert(pairs[id - base].0 == cc);
                        assert(lanes[id as int] == new_lanes[id - base]);
                        assert(turn_lane_matches(
                            new_lanes[id - base],
                            arena0,
                            pairs[id - base].0,
                            pairs[id - base].1,
                        ));
                    }
                }
                let ki = keep_ids(arena0[c].in_lane@, dead);
                let pi = pair_in_ids(pairs, base, cc);
                assert forall|i: int| 0 <= i < conns[c].in_lane@.len() implies {
                    let l = #[trigger] conns[c].in_lane@[i];
                    &&& l < lanes.len()
                    &&& lanes[l as int].c1 == c
                    &&& lanes[l as int].kind == conns[c].lane_kind
                } by {
                    if i < ki.len() {
                        assert(conns[c].in_lane@[i] == ki[i]);
                        assert(arena0[c].in_lane@.contains(ki[i]));
                        let w = choose|w: int|
                            0 <= w < arena0[c].in_lane@.len() && arena0[c].in_lane@[w] == ki[i];
                        assert(lanes[ki[i] as int] == lanes0[ki[i] as int]);
                    } else {
                        let id = pi[i - ki.len()];
                        assert(conns[c].in_lane@[i] == id);
                        assert(base <= id < base + pairs.len());
                        assert(pairs[id - base].1 == cc);
                        assert(lanes[id as int] == new_lanes[id - base]);
                        assert(turn_lane_matches(
                            new_lanes[id - base],
                            arena0,
                            pairs[id - base].0,
                            pairs[id - base].1,
                        ));
                    }
                }
            } else {
                assert(arena0[c].ok(lanes0.len() as int));
                assert(conn_lists_ok(arena0, lanes0, c));
                assert(conns[c] == arena0[c]);
                assert forall|i: int| 0 <= i < conns[c].out_lane@.len() implies {
                    let l = #[trigger] conns[c].out_lane@[i];
                    &&& l < lanes.len()
                    &&& lanes[l as int].c0 == c
                    &&& lanes[l as int].kind == conns[c].lane_kind
                } by {
                    assert(lanes[conns[c].out_lane@[i] as int] == lanes0[conns[c].out_lane@[
                        i] as int]);
                }
                assert forall|i: int| 0 <= i < conns[c].in_lane@.len() implies {
                    let l = #[trigger] conns[c].in_lane@[i];
                    &&& l < lanes.len()
                    &&& lanes[l as int].c1 == c
                    &&& lanes[l as int].kind == conns[c].lane_kind
                } by {
                    assert(lanes[conns[c].in_lane@[i] as int] == lanes0[conns[c].in_lane@[
                        i] as int]);
                }
            }
        }
    }

    pub fn new(x: i64, y: i64) -> (r: Intersection)
        ensures
            r.center == (Node { x, y }),
            r.roads@ == Seq::<usize>::empty(),
            r.connections@ == Seq::<usize>::empty(),
            r.lanes@ == Seq::<usize>::empty(),
            forall|nc: int, nl: int| r.ok(nc, nl),
    {
        Intersection {
            center: Node::new(x, y),
            roads: Vec::new(),
            connections: Vec::new(),
            lanes: Vec::new(),
        }
    }
}

} // verus!
