//! What holds of every split into connected solids.
use vstd::prelude::*;
use crate::mesh::{Triangle, touches};
use crate::chain::{is_chain, connected};
use crate::partition::{is_partition, placed, is_solid_split, picks};

verus! {

/// Positions `a` and `b` stand in one group of `groups`.
pub open spec fn same_group(groups: Seq<Seq<usize>>, a: int, b: int) -> bool {
    exists|g: int, m1: int, m2: int|
        0 <= g < groups.len() && 0 <= m1 < groups[g].len() && 0 <= m2 < groups[g].len()
            && #[trigger] groups[g][m1] as int == a && #[trigger] groups[g][m2] as int == b
}

/// Two triangles of a split share a group exactly when a chain of triangles
/// sharing vertices links them.
pub proof fn lemma_same_group_iff_connected(
    tris: Seq<Triangle>,
    groups: Seq<Seq<usize>>,
    a: int,
    b: int,
)
    requires
        is_partition(tris, groups),
        0 <= a < tris.len(),
        0 <= b < tris.len(),
    ensures
        same_group(groups, a, b) == connected(tris, a, b),
{
    assert(placed(groups, a));
    assert(placed(groups, b));
    let (g1, m1) = choose|g: int, m: int|
        0 <= g < groups.len() && 0 <= m < groups[g].len() && #[trigger] groups[g][m] as int == a;
    let (g2, m2) = choose|g: int, m: int|
        0 <= g < groups.len() && 0 <= m < groups[g].len() && #[trigger] groups[g][m] as int == b;
    assert((g1 == g2) == connected(tris, groups[g1][m1] as int, groups[g2][m2] as int));
    if same_group(groups, a, b) {
        let (g, k1, k2) = choose|g: int, k1: int, k2: int|
            0 <= g < groups.len() && 0 <= k1 < groups[g].len() && 0 <= k2 < groups[g].len()
                && #[trigger] groups[g][k1] as int == a && #[trigger] groups[g][k2] as int == b;
        assert(groups[g][k1] == groups[g1][m1]);
        assert(groups[g][k2] == groups[g2][m2]);
    } else {
        if g1 == g2 {
            assert(groups[g1][m1] as int == a && groups[g1][m2] as int == b);
        }
    }
}

/// Two splits of the same triangles have the same groups as sets: any two
/// positions share a group in one exactly when they share a group in the other.
/// So running the split twice on one input gives the same membership.
pub proof fn lemma_split_unique(
    tris: Seq<Triangle>,
    groups1: Seq<Seq<usize>>,
    groups2: Seq<Seq<usize>>,
)
    requires
        is_partition(tris, groups1),
        is_partition(tris, groups2),
    ensures
        forall|a: int, b: int|
            0 <= a < tris.len() && 0 <= b < tris.len() ==> #[trigger] same_group(groups1, a, b)
                == #[trigger] same_group(groups2, a, b),
{
    assert forall|a: int, b: int| 0 <= a < tris.len() && 0 <= b < tris.len() implies #[trigger] same_group(
        groups1,
        a,
        b,
    ) == #[trigger] same_group(groups2, a, b) by {
        lemma_same_group_iff_connected(tris, groups1, a, b);
        lemma_same_group_iff_connected(tris, groups2, a, b);
    }
}

/// A chain of `ta` carried over to `tb` by a map that keeps each triangle.
proof fn lemma_connected_moved(ta: Seq<Triangle>, tb: Seq<Triangle>, f: Seq<int>, a: int, b: int)
    requires
        f.len() == ta.len(),
        forall|i: int| 0 <= i < ta.len() ==> 0 <= #[trigger] f[i] < tb.len() && tb[f[i]] == ta[i],
        connected(ta, a, b),
    ensures
        connected(tb, f[a], f[b]),
{
    let path = choose|path: Seq<int>|
        #[trigger] is_chain(ta, path) && path[0] == a && path[path.len() - 1] == b;
    let moved = path.map_values(|i: int| f[i]);
    assert forall|k: int| 0 <= k < moved.len() implies 0 <= #[trigger] moved[k] < tb.len() by {
        assert(0 <= path[k] < ta.len());
    }
    assert forall|k: int| 0 <= k < moved.len() - 1 implies touches(
        tb[#[trigger] moved[k]],
        tb[moved[k + 1]],
    ) by {
        assert(0 <= path[k] < ta.len());
        assert(0 <= path[k + 1] < ta.len());
        assert(touches(ta[path[k]], ta[path[k + 1]]));
        assert(tb[f[path[k]]] == ta[path[k]]);
        assert(tb[f[path[k + 1]]] == ta[path[k + 1]]);
    }
    assert(is_chain(tb, moved));
}

/// Splitting a reordering of the triangles gives the same groups: with `tris2`
/// holding at position `p` the triangle of `tris1` at `perm[p]` (`inv` undoing
/// `perm`), positions `p` and `q` share a group in a split of `tris2` exactly
/// when `perm[p]` and `perm[q]` share a group in a split of `tris1`.
pub proof fn lemma_order_independent(
    tris1: Seq<Triangle>,
    tris2: Seq<Triangle>,
    perm: Seq<int>,
    inv: Seq<int>,
    groups1: Seq<Seq<usize>>,
    groups2: Seq<Seq<usize>>,
)
    requires
        tris2.len() == tris1.len(),
        perm.len() == tris1.len(),
        inv.len() == tris1.len(),
        forall|p: int| 0 <= p < perm.len() ==> 0 <= #[trigger] perm[p] < tris1.len() && inv[perm[p]] == p,
        forall|i: int| 0 <= i < inv.len() ==> 0 <= #[trigger] inv[i] < tris1.len() && perm[inv[i]] == i,
        forall|p: int| 0 <= p < tris2.len() ==> #[trigger] tris2[p] == tris1[perm[p]],
        is_partition(tris1, groups1),
        is_partition(tris2, groups2),
    ensures
        forall|p: int, q: int|
            0 <= p < tris2.len() && 0 <= q < tris2.len() ==> #[trigger] same_group(groups2, p, q)
                == same_group(groups1, perm[p], perm[q]),
{
    assert forall|i: int| 0 <= i < tris1.len() implies 0 <= #[trigger] inv[i] < tris2.len()
        && tris2[inv[i]] == tris1[i] by {
        assert(tris2[inv[i]] == tris1[perm[inv[i]]]);
    }
    assert forall|p: int, q: int| 0 <= p < tris2.len() && 0 <= q < tris2.len() implies #[trigger] same_group(
        groups2,
        p,
        q,
    ) == same_group(groups1, perm[p], perm[q]) by {
        lemma_same_group_iff_connected(tris2, groups2, p, q);
        lemma_same_group_iff_connected(tris1, groups1, perm[p], perm[q]);
        if connected(tris2, p, q) {
            lemma_connected_moved(tris2, tris1, perm, p, q);
        }
        if connected(tris1, perm[p], perm[q]) {
            lemma_connected_moved(tris1, tris2, inv, perm[p], perm[q]);
            assert(inv[perm[p]] == p && inv[perm[q]] == q);
        }
    }
}

/// Each group of `out2`, as a set of triangles, is a group of `out1`.
pub open spec fn solids_within(out1: Seq<Vec<Triangle>>, out2: Seq<Vec<Triangle>>) -> bool {
    forall|g2: int| 0 <= g2 < out2.len() ==> has_solid(out1, #[trigger] out2[g2]@.to_set())
}

/// Some group of `out`, as a set of triangles, is `solid`.
pub open spec fn has_solid(out: Seq<Vec<Triangle>>, solid: Set<Triangle>) -> bool {
    exists|g: int| 0 <= g < out.len() && #[trigger] out[g]@.to_set() == solid
}

proof fn lemma_solids_within(
    tris1: Seq<Triangle>,
    tris2: Seq<Triangle>,
    perm: Seq<int>,
    inv: Seq<int>,
    out1: Seq<Vec<Triangle>>,
    out2: Seq<Vec<Triangle>>,
)
    requires
        tris2.len() == tris1.len(),
        perm.len() == tris1.len(),
        inv.len() == tris1.len(),
        forall|p: int| 0 <= p < perm.len() ==> 0 <= #[trigger] perm[p] < tris1.len() && inv[perm[p]] == p,
        forall|i: int| 0 <= i < inv.len() ==> 0 <= #[trigger] inv[i] < tris1.len() && perm[inv[i]] == i,
        forall|p: int| 0 <= p < tris2.len() ==> #[trigger] tris2[p] == tris1[perm[p]],
        is_solid_split(tris1, out1),
        is_solid_split(tris2, out2),
    ensures
        solids_within(out1, out2),
{
    let ig1 = choose|gs: Seq<Seq<usize>>| #[trigger] is_partition(tris1, gs) && picks(tris1, gs, out1);
    let ig2 = choose|gs: Seq<Seq<usize>>| #[trigger] is_partition(tris2, gs) && picks(tris2, gs, out2);
    lemma_order_independent(tris1, tris2, perm, inv, ig1, ig2);
    assert forall|g2: int| 0 <= g2 < out2.len() implies has_solid(out1, #[trigger] out2[g2]@.to_set()) by {
        assert(ig2[g2].len() > 0);
        let p = ig2[g2][0] as int;
        assert(0 <= p < tris2.len());
        let a = perm[p];
        assert(placed(ig1, a));
        let (g1, m1) = choose|g: int, m: int|
            0 <= g < ig1.len() && 0 <= m < ig1[g].len() && #[trigger] ig1[g][m] as int == a;
        assert forall|t: Triangle| out2[g2]@.contains(t) implies out1[g1]@.contains(t) by {
            let m = choose|m: int| 0 <= m < out2[g2]@.len() && out2[g2]@[m] == t;
            let q = ig2[g2][m] as int;
            assert(out2[g2]@[m] == tris2[q]);
            assert(same_group(ig2, p, q));
            assert(same_group(ig1, perm[p], perm[q]));
            let (h, k1, k2) = choose|h: int, k1: int, k2: int|
                0 <= h < ig1.len() && 0 <= k1 < ig1[h].len() && 0 <= k2 < ig1[h].len()
                    && #[trigger] ig1[h][k1] as int == perm[p] && #[trigger] ig1[h][k2] as int
                    == perm[q];
            assert(ig1[h][k1] == ig1[g1][m1]);
            assert(out1[g1]@[k2] == tris1[ig1[g1][k2] as int]);
        }
        assert forall|t: Triangle| out1[g1]@.contains(t) implies out2[g2]@.contains(t) by {
            let m = choose|m: int| 0 <= m < out1[g1]@.len() && out1[g1]@[m] == t;
            let b = ig1[g1][m] as int;
            assert(out1[g1]@[m] == tris1[b]);
            let q = inv[b];
            assert(same_group(ig1, perm[p], perm[q]));
            assert(same_group(ig2, p, q));
            let (h, k1, k2) = choose|h: int, k1: int, k2: int|
                0 <= h < ig2.len() && 0 <= k1 < ig2[h].len() && 0 <= k2 < ig2[h].len()
                    && #[trigger] ig2[h][k1] as int == p && #[trigger] ig2[h][k2] as int == q;
            assert(ig2[h][k1] == ig2[g2][0]);
            assert(out2[g2]@[k2] == tris2[ig2[g2][k2] as int]);
            assert(tris2[q] == tris1[perm[q]]);
        }
        assert(out2[g2]@.to_set() =~= out1[g1]@.to_set());
        assert(0 <= g1 < out1.len());
    }
}

/// Splitting a reordering of the triangles gives the same solids: with `tris2`
/// holding at position `p` the triangle of `tris1` at `perm[p]` (`inv` undoing
/// `perm`), every group of one split, taken as a set of triangles, is a group of
/// the other.
pub proof fn lemma_reordered_same_solids(
    tris1: Seq<Triangle>,
    tris2: Seq<Triangle>,
    perm: Seq<int>,
    inv: Seq<int>,
    out1: Seq<Vec<Triangle>>,
    out2: Seq<Vec<Triangle>>,
)
    requires
        tris2.len() == tris1.len(),
        perm.len() == tris1.len(),
        inv.len() == tris1.len(),
        forall|p: int| 0 <= p < perm.len() ==> 0 <= #[trigger] perm[p] < tris1.len() && inv[perm[p]] == p,
        forall|i: int| 0 <= i < inv.len() ==> 0 <= #[trigger] inv[i] < tris1.len() && perm[inv[i]] == i,
        forall|p: int| 0 <= p < tris2.len() ==> #[trigger] tris2[p] == tris1[perm[p]],
        is_solid_split(tris1, out1),
        is_solid_split(tris2, out2),
    ensures
        solids_within(out1, out2),
        solids_within(out2, out1),
{
    lemma_solids_within(tris1, tris2, perm, inv, out1, out2);
    assert forall|i: int| 0 <= i < tris1.len() implies #[trigger] tris1[i] == tris2[inv[i]] by {
        assert(tris2[inv[i]] == tris1[perm[inv[i]]]);
    }
    lemma_solids_within(tris2, tris1, inv, perm, out2, out1);
}

/// Two splits of the same triangles hold the same solids: every group of one,
/// taken as a set of triangles, is a group of the other. So running the split
/// twice on one input gives the same solids.
pub proof fn lemma_split_twice_same_solids(
    tris: Seq<Triangle>,
    out1: Seq<Vec<Triangle>>,
    out2: Seq<Vec<Triangle>>,
)
    requires
        is_solid_split(tris, out1),
        is_solid_split(tris, out2),
    ensures
        solids_within(out1, out2),
        solids_within(out2, out1),
{
    let id = Seq::new(tris.len(), |i: int| i);
    lemma_reordered_same_solids(tris, tris, id, id, out1, out2);
}

} // verus!
