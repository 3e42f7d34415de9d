//! Chains of triangles that share vertices, and the connectivity they define.
use vstd::prelude::*;
use crate::mesh::{Triangle, touches};

verus! {

/// Triangles `a` and `b` are positions of `tris` and share a vertex.
pub open spec fn linked(tris: Seq<Triangle>, a: int, b: int) -> bool {
    0 <= a < tris.len() && 0 <= b < tris.len() && touches(tris[a], tris[b])
}

/// `path` is a nonempty sequence of positions of `tris`, each sharing a vertex
/// with the next.
pub open spec fn is_chain(tris: Seq<Triangle>, path: Seq<int>) -> bool {
    &&& path.len() >= 1
    &&& forall|k: int| 0 <= k < path.len() ==> 0 <= #[trigger] path[k] < tris.len()
    &&& forall|k: int|
        0 <= k < path.len() - 1 ==> touches(tris[#[trigger] path[k]], tris[path[k + 1]])
}

/// Some chain leads from position `a` to position `b`.
pub open spec fn connected(tris: Seq<Triangle>, a: int, b: int) -> bool {
    exists|path: Seq<int>|
        #[trigger] is_chain(tris, path) && path[0] == a && path[path.len() - 1] == b
}

/// Every triangle is connected to itself.
pub proof fn lemma_connected_refl(tris: Seq<Triangle>, a: int)
    requires
        0 <= a < tris.len(),
    ensures
        connected(tris, a, a),
{
    let path = seq![a];
    assert(is_chain(tris, path));
}

/// A chain extended by a triangle that shares a vertex with its end.
pub proof fn lemma_connected_step(tris: Seq<Triangle>, a: int, b: int, c: int)
    requires
        connected(tris, a, b),
        linked(tris, b, c),
    ensures
        connected(tris, a, c),
{
    let path = choose|path: Seq<int>|
        #[trigger] is_chain(tris, path) && path[0] == a && path[path.len() - 1] == b;
    let longer = path.push(c);
    assert forall|k: int| 0 <= k < longer.len() - 1 implies touches(
        tris[#[trigger] longer[k]],
        tris[longer[k + 1]],
    ) by {
        if k < path.len() - 1 {
            assert(longer[k] == path[k] && longer[k + 1] == path[k + 1]);
        }
    }
    assert(is_chain(tris, longer));
}

/// Connectivity is symmetric.
pub proof fn lemma_connected_symm(tris: Seq<Triangle>, a: int, b: int)
    requires
        connected(tris, a, b),
    ensures
        connected(tris, b, a),
{
    let path = choose|path: Seq<int>|
        #[trigger] is_chain(tris, path) && path[0] == a && path[path.len() - 1] == b;
    let n = path.len();
    let rev = Seq::new(n, |k: int| path[n - 1 - k]);
    assert forall|k: int| 0 <= k < rev.len() implies 0 <= #[trigger] rev[k] < tris.len() by {
        assert(rev[k] == path[n - 1 - k]);
    }
    assert forall|k: int| 0 <= k < rev.len() - 1 implies touches(
        tris[#[trigger] rev[k]],
        tris[rev[k + 1]],
    ) by {
        let j = n - 2 - k;
        assert(touches(tris[path[j]], tris[path[j + 1]]));
    }
    assert(is_chain(tris, rev));
}

/// Connectivity is transitive.
pub proof fn lemma_connected_trans(tris: Seq<Triangle>, a: int, b: int, c: int)
    requires
        connected(tris, a, b),
        connected(tris, b, c),
    ensures
        connected(tris, a, c),
{
    let first = choose|path: Seq<int>|
        #[trigger] is_chain(tris, path) && path[0] == a && path[path.len() - 1] == b;
    let second = choose|path: Seq<int>|
        #[trigger] is_chain(tris, path) && path[0] == b && path[path.len() - 1] == c;
    let p = first + second.drop_first();
    assert forall|k: int| 0 <= k < p.len() implies 0 <= #[trigger] p[k] < tris.len() by {
        if k >= first.len() {
            assert(p[k] == second[k - first.len() + 1]);
        }
    }
    assert forall|k: int| 0 <= k < p.len() - 1 implies touches(
        tris[#[trigger] p[k]],
        tris[p[k + 1]],
    ) by {
        if k < first.len() - 1 {
            assert(p[k] == first[k] && p[k + 1] == first[k + 1]);
        } else if k == first.len() - 1 {
            assert(p[k] == second[0] && p[k + 1] == second[1]);
        } else {
            let j = k - first.len() + 1;
            assert(p[k] == second[j] && p[k + 1] == second[j + 1]);
        }
    }
    assert(is_chain(tris, p));
}

/// A set of positions that holds every triangle linked to one of its members
/// holds every triangle connected to one of its members.
pub proof fn lemma_closed_holds_connected(
    tris: Seq<Triangle>,
    members: Set<int>,
    a: int,
    b: int,
)
    requires
        members.contains(a),
        connected(tris, a, b),
        forall|x: int, y: int| members.contains(x) && linked(tris, x, y) ==> members.contains(y),
    ensures
        members.contains(b),
{
    let path = choose|path: Seq<int>|
        #[trigger] is_chain(tris, path) && path[0] == a && path[path.len() - 1] == b;
    lemma_closed_along(tris, members, path, path.len() - 1);
}

proof fn lemma_closed_along(tris: Seq<Triangle>, members: Set<int>, path: Seq<int>, k: int)
    requires
        is_chain(tris, path),
        0 <= k < path.len(),
        members.contains(path[0]),
        forall|x: int, y: int| members.contains(x) && linked(tris, x, y) ==> members.contains(y),
    ensures
        members.contains(path[k]),
    decreases k,
{
    if k > 0 {
        lemma_closed_along(tris, members, path, k - 1);
        assert(touches(tris[path[k - 1]], tris[path[k]]));
        assert(linked(tris, path[k - 1], path[k]));
    }
}

} // verus!
