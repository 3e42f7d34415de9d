//! Partition of a triangle list into connected solids.
//!
//! An adjacency index maps each packed vertex key to the positions of the
//! triangles that have a vertex with that key. A stack-driven traversal then
//! gathers, from each position not yet assigned, every triangle connected to it.
use vstd::prelude::*;
use std::collections::HashMap;
use crate::mesh::{Triangle, has_code, touches, point_code, lemma_has_code, get_vertices};
use crate::chain::{linked, connected, lemma_connected_refl, lemma_connected_step,
    lemma_connected_symm, lemma_connected_trans, lemma_closed_holds_connected};

verus! {

broadcast use vstd::std_specs::hash::group_hash_axioms;

/// The number of positions not yet marked.
pub open spec fn unvisited_count(v: Seq<bool>) -> nat
    decreases v.len(),
{
    if v.len() == 0 {
        0
    } else {
        unvisited_count(v.drop_last()) + if v.last() {
            0nat
        } else {
            1nat
        }
    }
}

proof fn lemma_unvisited_mark(v: Seq<bool>, i: int)
    requires
        0 <= i < v.len(),
        !v[i],
    ensures
        unvisited_count(v.update(i, true)) + 1 == unvisited_count(v),
    decreases v.len(),
{
    let w = v.update(i, true);
    if i < v.len() - 1 {
        assert(w.drop_last() =~= v.drop_last().update(i, true));
        lemma_unvisited_mark(v.drop_last(), i);
    } else {
        assert(w.drop_last() =~= v.drop_last());
    }
}

proof fn lemma_unvisited_none(v: Seq<bool>)
    requires
        forall|j: int| 0 <= j < v.len() ==> v[j],
    ensures
        unvisited_count(v) == 0,
    decreases v.len(),
{
    if v.len() > 0 {
        lemma_unvisited_none(v.drop_last());
    }
}

proof fn lemma_unvisited_all(v: Seq<bool>)
    requires
        forall|j: int| 0 <= j < v.len() ==> !v[j],
    ensures
        unvisited_count(v) == v.len(),
    decreases v.len(),
{
    if v.len() > 0 {
        lemma_unvisited_all(v.drop_last());
    }
}

/// Every list of the index holds positions of triangles that have its key.
pub open spec fn index_sound(tris: Seq<Triangle>, m: Map<u128, Vec<usize>>) -> bool {
    forall|c: u128, k: int|
        m.contains_key(c) && 0 <= k < m[c]@.len() ==> #[trigger] m[c]@[k] < tris.len()
            && has_code(tris[m[c]@[k] as int], c)
}

/// Every triangle before position `upto` stands in the list of each of its keys.
pub open spec fn index_complete(tris: Seq<Triangle>, m: Map<u128, Vec<usize>>, upto: int) -> bool {
    forall|j: int, c: u128|
        0 <= j < upto && #[trigger] has_code(tris[j], c) ==> m.contains_key(c) && m[c]@.contains(
            j as usize,
        )
}

pub open spec fn index_ok(tris: Seq<Triangle>, m: Map<u128, Vec<usize>>) -> bool {
    index_sound(tris, m) && index_complete(tris, m, tris.len() as int)
}

fn index_push(tris: &Vec<Triangle>, m: &mut HashMap<u128, Vec<usize>>, c: u128, j: usize)
    requires
        j < tris@.len(),
        has_code(tris@[j as int], c),
        index_sound(tris@, old(m)@),
    ensures
        index_sound(tris@, final(m)@),
        final(m)@.contains_key(c),
        final(m)@[c]@.contains(j),
        forall|d: u128, x: usize|
            old(m)@.contains_key(d) && old(m)@[d]@.contains(x) ==> final(m)@.contains_key(d)
                && final(m)@[d]@.contains(x),
{
    let ghost m0 = m@;
    let mut list = match m.remove(&c) {
        Some(l) => l,
        None => Vec::new(),
    };
    let ghost l0 = list@;
    list.push(j);
    assert(list@[l0.len() as int] == j);
    m.insert(c, list);
    assert forall|d: u128, x: usize|
        m0.contains_key(d) && m0[d]@.contains(x) implies m@.contains_key(d) && m@[d]@.contains(
            x,
        ) by {
        if d == c {
            let k = choose|k: int| 0 <= k < m0[d]@.len() && m0[d]@[k] == x;
            assert(m@[d]@[k] == x);
        }
    }
    assert forall|d: u128, k: int|
        m@.contains_key(d) && 0 <= k < m@[d]@.len() implies #[trigger] m@[d]@[k] < tris@.len()
            && has_code(tris@[m@[d]@[k] as int], d) by {
        if d == c && k < l0.len() {
            assert(m0[d]@[k] == m@[d]@[k]);
        }
    }
}

/// Builds the adjacency index of a triangle list.
pub fn build_index(tris: &Vec<Triangle>) -> (m: HashMap<u128, Vec<usize>>)
    ensures
        index_ok(tris@, m@),
{
    let mut m: HashMap<u128, Vec<usize>> = HashMap::new();
    let mut j: usize = 0;
    while j < tris.len()
        invariant
            j <= tris@.len(),
            index_sound(tris@, m@),
            index_complete(tris@, m@, j as int),
        decreases tris@.len() - j,
    {
        let ks = get_vertices(&tris[j]);
        let ghost m0 = m@;
        index_push(tris, &mut m, ks[0], j);
        index_push(tris, &mut m, ks[1], j);
        index_push(tris, &mut m, ks[2], j);
        assert forall|i: int, c: u128|
            0 <= i < j + 1 && #[trigger] has_code(tris@[i], c) implies m@.contains_key(c)
                && m@[c]@.contains(i as usize) by {
            if i < j {
                assert(m0.contains_key(c) && m0[c]@.contains(i as usize));
            }
        }
        j = j + 1;
    }
    m
}

/// No marked position is linked to an unmarked one.
pub open spec fn closed(tris: Seq<Triangle>, v: Seq<bool>) -> bool {
    forall|x: int, y: int| #[trigger] linked(tris, x, y) && v[x] ==> v[y]
}

proof fn lemma_push_keeps(s: Seq<usize>, a: usize, x: usize)
    requires
        s.contains(x),
    ensures
        s.push(a).contains(x),
{
    let k = choose|k: int| 0 <= k < s.len() && s[k] == x;
    assert(s.push(a)[k] == x);
}

proof fn lemma_prefix_keeps(s: Seq<usize>, t: Seq<usize>, x: usize)
    requires
        s.contains(x),
        s.len() <= t.len(),
        t.subrange(0, s.len() as int) == s,
    ensures
        t.contains(x),
{
    let k = choose|k: int| 0 <= k < s.len() && s[k] == x;
    assert(t.subrange(0, s.len() as int)[k] == t[k]);
}

/// Pushes onto `stack` every unmarked position of the list under key `c`.
fn push_adjacent(
    tris: &Vec<Triangle>,
    index: &HashMap<u128, Vec<usize>>,
    visited: &Vec<bool>,
    stack: &mut Vec<usize>,
    c: u128,
)
    requires
        index_ok(tris@, index@),
        visited@.len() == tris@.len(),
    ensures
        final(stack)@.len() >= old(stack)@.len(),
        final(stack)@.subrange(0, old(stack)@.len() as int) == old(stack)@,
        forall|k: int|
            old(stack)@.len() <= k < final(stack)@.len() ==> #[trigger] final(stack)@[k]
                < tris@.len() && has_code(tris@[final(stack)@[k] as int], c),
        forall|y: int|
            0 <= y < tris@.len() && #[trigger] has_code(tris@[y], c) ==> visited@[y] || final(stack)@.contains(
                y as usize,
            ),
{
    let ghost s0 = stack@;
    let n = tris.len();
    match index.get(&c) {
        Some(list) => {
            let mut k: usize = 0;
            while k < list.len()
                invariant
                    index_ok(tris@, index@),
                    index@.contains_key(c),
                    index@[c] == *list,
                    visited@.len() == tris@.len(),
                    n == tris@.len(),
                    k <= list@.len(),
                    stack@.len() >= s0.len(),
                    stack@.subrange(0, s0.len() as int) == s0,
                    forall|q: int|
                        s0.len() <= q < stack@.len() ==> #[trigger] stack@[q] < tris@.len()
                            && has_code(tris@[stack@[q] as int], c),
                    forall|q: int|
                        0 <= q < k ==> visited@[#[trigger] list@[q] as int] || stack@.contains(
                            list@[q],
                        ),
                decreases list@.len() - k,
            {
                let e = list[k];
                assert(e < tris@.len() && has_code(tris@[e as int], c));
                if !visited[e] {
                    let ghost s1 = stack@;
                    stack.push(e);
                    assert(stack@.subrange(0, s0.len() as int) =~= s1.subrange(0, s0.len() as int));
                    assert forall|q: int| 0 <= q < k implies visited@[#[trigger] list@[q] as int]
                        || stack@.contains(list@[q]) by {
                        if !visited@[list@[q] as int] {
                            lemma_push_keeps(s1, e, list@[q]);
                        }
                    }
                    assert(stack@[s1.len() as int] == e);
                }
                k = k + 1;
            }
            assert forall|y: int|
                0 <= y < tris@.len() && #[trigger] has_code(tris@[y], c) implies visited@[y]
                    || stack@.contains(y as usize) by {
                assert(index_complete(tris@, index@, tris@.len() as int));
                assert(index@[c]@.contains(y as usize));
                assert(list@.contains(y as usize));
                let q = choose|q: int| 0 <= q < list@.len() && list@[q] == y as usize;
                assert(visited@[list@[q] as int] || stack@.contains(list@[q]));
                assert(list@[q] as int == y);
            }
        },
        None => {
            assert(stack@.subrange(0, s0.len() as int) =~= s0);
        },
    }
}

proof fn lemma_linked_symm(tris: Seq<Triangle>, x: int, y: int)
    requires
        linked(tris, x, y),
    ensures
        linked(tris, y, x),
{
}

/// A triangle linked to `t` has a vertex under one of the keys of `t`.
proof fn lemma_linked_codes(t: Triangle, u: Triangle)
    ensures
        touches(t, u) == (has_code(u, point_code(t.v1)) || has_code(u, point_code(t.v2))
            || has_code(u, point_code(t.v3))),
{
    lemma_has_code(u, t.v1);
    lemma_has_code(u, t.v2);
    lemma_has_code(u, t.v3);
}

/// Marks and returns every unmarked triangle connected to `seed`.
fn collect_component(
    tris: &Vec<Triangle>,
    index: &HashMap<u128, Vec<usize>>,
    visited: &mut Vec<bool>,
    seed: usize,
) -> (comp: Vec<usize>)
    requires
        index_ok(tris@, index@),
        old(visited)@.len() == tris@.len(),
        seed < tris@.len(),
        !old(visited)@[seed as int],
        closed(tris@, old(visited)@),
    ensures
        final(visited)@.len() == tris@.len(),
        comp@.contains(seed),
        comp@.no_duplicates(),
        forall|k: int|
            0 <= k < comp@.len() ==> #[trigger] comp@[k] < tris@.len() && !old(visited)@[comp@[k] as int]
                && connected(tris@, seed as int, comp@[k] as int),
        forall|j: int|
            0 <= j < tris@.len() ==> #[trigger] final(visited)@[j] == (old(visited)@[j]
                || comp@.contains(j as usize)),
        forall|k: int, y: int|
            0 <= k < comp@.len() && #[trigger] linked(tris@, comp@[k] as int, y) ==> comp@.contains(
                y as usize,
            ),
        closed(tris@, final(visited)@),
        comp@.len() + unvisited_count(final(visited)@) == unvisited_count(old(visited)@),
{
    let ghost v0 = visited@;
    let n = tris.len();
    let mut stack: Vec<usize> = Vec::new();
    stack.push(seed);
    let mut comp: Vec<usize> = Vec::new();
    proof {
        lemma_connected_refl(tris@, seed as int);
        assert(stack@[0] == seed);
    }
    while stack.len() > 0
        invariant
            n == tris@.len(),
            visited@.len() == n,
            index_ok(tris@, index@),
            closed(tris@, v0),
            seed < n,
            !v0[seed as int],
            visited@[seed as int] || stack@.contains(seed),
            forall|k: int|
                0 <= k < stack@.len() ==> #[trigger] stack@[k] < n && connected(
                    tris@,
                    seed as int,
                    stack@[k] as int,
                ),
            comp@.no_duplicates(),
            forall|k: int|
                0 <= k < comp@.len() ==> #[trigger] comp@[k] < n && !v0[comp@[k] as int]
                    && connected(tris@, seed as int, comp@[k] as int),
            forall|j: int|
                0 <= j < n ==> #[trigger] visited@[j] == (v0[j] || comp@.contains(j as usize)),
            forall|k: int, y: int|
                0 <= k < comp@.len() && #[trigger] linked(tris@, comp@[k] as int, y)
                    ==> visited@[y] || stack@.contains(y as usize),
            comp@.len() + unvisited_count(visited@) == unvisited_count(v0),
        decreases unvisited_count(visited@), stack@.len(),
    {
        let ghost s0 = stack@;
        let cur = stack.pop().unwrap();
        assert(s0[s0.len() - 1] == cur);
        assert(stack@ =~= s0.drop_last());
        // Whatever the old stack held is now either `cur` or still on the stack.
        assert forall|x: usize| s0.contains(x) implies x == cur || stack@.contains(x) by {
            let k = choose|k: int| 0 <= k < s0.len() && s0[k] == x;
            if k < s0.len() - 1 {
                assert(stack@[k] == x);
            }
        }
        if !visited[cur] {
            let ghost vb = visited@;
            let ghost cb = comp@;
            proof {
                lemma_unvisited_mark(visited@, cur as int);
            }
            visited[cur] = true;
            comp.push(cur);
            assert(!cb.contains(cur));
            assert forall|x: usize| cb.contains(x) implies comp@.contains(x) by {
                lemma_push_keeps(cb, cur, x);
            }
            assert(comp@[cb.len() as int] == cur);
            let ks = get_vertices(&tris[cur]);
            let ghost s1 = stack@;
            push_adjacent(tris, index, visited, &mut stack, ks[0]);
            let ghost s2 = stack@;
            push_adjacent(tris, index, visited, &mut stack, ks[1]);
            let ghost s3 = stack@;
            push_adjacent(tris, index, visited, &mut stack, ks[2]);
            let ghost t = tris@[cur as int];
            assert(stack@.subrange(0, s1.len() as int) =~= s1) by {
                assert(stack@.subrange(0, s3.len() as int).subrange(0, s1.len() as int)
                    =~= stack@.subrange(0, s1.len() as int));
                assert(s3.subrange(0, s2.len() as int).subrange(0, s1.len() as int)
                    =~= s3.subrange(0, s1.len() as int));
            }
            assert(stack@.subrange(0, s2.len() as int) =~= s2) by {
                assert(stack@.subrange(0, s3.len() as int).subrange(0, s2.len() as int)
                    =~= stack@.subrange(0, s2.len() as int));
            }
            assert forall|k: int| 0 <= k < stack@.len() implies #[trigger] stack@[k] < n
                && connected(tris@, seed as int, stack@[k] as int) by {
                if k < s1.len() {
                    assert(stack@.subrange(0, s1.len() as int)[k] == stack@[k]);
                } else {
                    let e = stack@[k] as int;
                    if k < s2.len() {
                        assert(stack@.subrange(0, s3.len() as int)[k] == stack@[k]);
                        assert(s3.subrange(0, s2.len() as int)[k] == s3[k]);
                        assert(has_code(tris@[e], point_code(t.v1)));
                    } else if k < s3.len() {
                        assert(stack@.subrange(0, s3.len() as int)[k] == stack@[k]);
                        assert(has_code(tris@[e], point_code(t.v2)));
                    } else {
                        assert(has_code(tris@[e], point_code(t.v3)));
                    }
                    lemma_linked_codes(t, tris@[e]);
                    assert(linked(tris@, cur as int, e));
                    lemma_connected_step(tris@, seed as int, cur as int, e);
                }
            }
            assert forall|j: int| 0 <= j < n implies #[trigger] visited@[j] == (v0[j]
                || comp@.contains(j as usize)) by {
                if j == cur as int {
                } else {
                    assert(visited@[j] == vb[j]);
                    if comp@.contains(j as usize) {
                        let k = choose|k: int| 0 <= k < comp@.len() && comp@[k] == j as usize;
                        if k < cb.len() {
                            assert(cb[k] == j as usize);
                        }
                    }
                }
            }
            assert forall|k: int, y: int|
                0 <= k < comp@.len() && #[trigger] linked(tris@, comp@[k] as int, y)
                    implies visited@[y] || stack@.contains(y as usize) by {
                if k < cb.len() {
                    assert(comp@[k] == cb[k]);
                    if !vb[y] {
                        assert(s0.contains(y as usize));
                        if y as usize != cur {
                            lemma_prefix_keeps(s1, stack@, y as usize);
                        }
                    }
                } else {
                    lemma_linked_codes(t, tris@[y]);
                    if !visited@[y] {
                        if has_code(tris@[y], point_code(t.v1)) {
                            lemma_prefix_keeps(s2, stack@, y as usize);
                        } else if has_code(tris@[y], point_code(t.v2)) {
                            lemma_prefix_keeps(s3, stack@, y as usize);
                        }
                    }
                }
            }
            assert(visited@[seed as int] || stack@.contains(seed)) by {
                if !visited@[seed as int] {
                    lemma_prefix_keeps(s1, stack@, seed);
                }
            }
        }
    }
    proof {
        assert forall|k: int, y: int|
            0 <= k < comp@.len() && #[trigger] linked(tris@, comp@[k] as int, y) implies comp@.contains(
            y as usize,
        ) by {
            if v0[y] {
                lemma_linked_symm(tris@, comp@[k] as int, y);
                assert(linked(tris@, y, comp@[k] as int) && v0[y]);
            }
        }
        assert forall|x: int, y: int| #[trigger] linked(tris@, x, y) && visited@[x] implies visited@[y] by {
            if !v0[x] {
                let k = choose|k: int| 0 <= k < comp@.len() && comp@[k] == x as usize;
                assert(linked(tris@, comp@[k] as int, y));
            }
        }
    }
    comp
}

/// The number of positions over all groups.
pub open spec fn total_len(groups: Seq<Seq<usize>>) -> nat
    decreases groups.len(),
{
    if groups.len() == 0 {
        0
    } else {
        total_len(groups.drop_last()) + groups.last().len()
    }
}

/// The positions held by each group of a result.
pub open spec fn index_groups(r: Seq<Vec<usize>>) -> Seq<Seq<usize>> {
    r.map_values(|g: Vec<usize>| g@)
}

/// Position `a` stands somewhere in `groups`.
pub open spec fn placed(groups: Seq<Seq<usize>>, a: int) -> bool {
    exists|g: int, m: int|
        0 <= g < groups.len() && 0 <= m < groups[g].len() && #[trigger] groups[g][m] as int == a
}

/// `groups` splits the positions of `tris` into its connected solids: no group is
/// empty, each position of `tris` stands in exactly one group at exactly one
/// place, the group sizes add up to the number of triangles, and two positions
/// share a group exactly when a chain of triangles sharing vertices links them.
pub open spec fn is_partition(tris: Seq<Triangle>, groups: Seq<Seq<usize>>) -> bool {
    &&& forall|g: int| 0 <= g < groups.len() ==> #[trigger] groups[g].len() > 0
    &&& forall|g: int, m: int|
        0 <= g < groups.len() && 0 <= m < groups[g].len() ==> #[trigger] groups[g][m]
            < tris.len()
    &&& forall|a: int| 0 <= a < tris.len() ==> #[trigger] placed(groups, a)
    &&& forall|g1: int, m1: int, g2: int, m2: int|
        0 <= g1 < groups.len() && 0 <= m1 < groups[g1].len() && 0 <= g2 < groups.len() && 0
            <= m2 < groups[g2].len() && #[trigger] groups[g1][m1] == #[trigger] groups[g2][m2]
            ==> g1 == g2 && m1 == m2
    &&& forall|g1: int, m1: int, g2: int, m2: int|
        0 <= g1 < groups.len() && 0 <= m1 < groups[g1].len() && 0 <= g2 < groups.len() && 0
            <= m2 < groups[g2].len() ==> ((g1 == g2) == connected(
            tris,
            #[trigger] groups[g1][m1] as int,
            #[trigger] groups[g2][m2] as int,
        ))
    &&& total_len(groups) == tris.len()
}

/// What holds of the groups found so far while scanning positions.
pub open spec fn scan_ok(tris: Seq<Triangle>, groups: Seq<Seq<usize>>, v: Seq<bool>) -> bool {
    &&& forall|g: int| 0 <= g < groups.len() ==> #[trigger] groups[g].len() > 0
    &&& forall|g: int, m: int|
        0 <= g < groups.len() && 0 <= m < groups[g].len() ==> #[trigger] groups[g][m]
            < tris.len() && v[groups[g][m] as int]
    &&& forall|a: int| 0 <= a < tris.len() && #[trigger] v[a] ==> placed(groups, a)
    &&& forall|g1: int, m1: int, g2: int, m2: int|
        0 <= g1 < groups.len() && 0 <= m1 < groups[g1].len() && 0 <= g2 < groups.len() && 0
            <= m2 < groups[g2].len() && #[trigger] groups[g1][m1] == #[trigger] groups[g2][m2]
            ==> g1 == g2 && m1 == m2
    &&& forall|g: int, m1: int, m2: int|
        0 <= g < groups.len() && 0 <= m1 < groups[g].len() && 0 <= m2 < groups[g].len()
            ==> connected(tris, #[trigger] groups[g][m1] as int, #[trigger] groups[g][m2] as int)
    &&& forall|g: int, m: int, y: int|
        0 <= g < groups.len() && 0 <= m < groups[g].len() && #[trigger] linked(
            tris,
            groups[g][m] as int,
            y,
        ) ==> groups[g].contains(y as usize)
}

proof fn lemma_scan_push(
    tris: Seq<Triangle>,
    groups: Seq<Seq<usize>>,
    v0: Seq<bool>,
    v1: Seq<bool>,
    comp: Seq<usize>,
    seed: usize,
)
    requires
        scan_ok(tris, groups, v0),
        tris.len() <= usize::MAX,
        v0.len() == tris.len(),
        v1.len() == tris.len(),
        comp.contains(seed),
        comp.no_duplicates(),
        forall|k: int|
            0 <= k < comp.len() ==> #[trigger] comp[k] < tris.len() && !v0[comp[k] as int]
                && connected(tris, seed as int, comp[k] as int),
        forall|j: int| 0 <= j < tris.len() ==> #[trigger] v1[j] == (v0[j] || comp.contains(j as usize)),
        forall|k: int, y: int|
            0 <= k < comp.len() && #[trigger] linked(tris, comp[k] as int, y) ==> comp.contains(
                y as usize,
            ),
    ensures
        scan_ok(tris, groups.push(comp), v1),
        total_len(groups.push(comp)) == total_len(groups) + comp.len(),
{
    let gs = groups.push(comp);
    let last = groups.len() as int;
    assert(gs.drop_last() =~= groups);
    assert(gs[last] == comp);
    assert forall|g: int| 0 <= g < gs.len() implies #[trigger] gs[g].len() > 0 by {
        if g == last {
            assert(comp.len() > 0);
        } else {
            assert(gs[g] == groups[g]);
        }
    }
    assert forall|g: int, m: int|
        0 <= g < gs.len() && 0 <= m < gs[g].len() implies #[trigger] gs[g][m] < tris.len()
            && v1[gs[g][m] as int] by {
        if g == last {
            assert(comp[m] < tris.len());
            assert(comp.contains(comp[m]));
        } else {
            assert(gs[g] == groups[g]);
            assert(groups[g][m] < tris.len() && v0[groups[g][m] as int]);
        }
    }
    assert forall|a: int| 0 <= a < tris.len() && #[trigger] v1[a] implies placed(gs, a) by {
        if v0[a] {
            assert(placed(groups, a));
            let (g, m) = choose|g: int, m: int|
                0 <= g < groups.len() && 0 <= m < groups[g].len() && #[trigger] groups[g][m]
                    as int == a;
            assert(gs[g] == groups[g]);
            assert(gs[g][m] as int == a);
        } else {
            let m = choose|m: int| 0 <= m < comp.len() && comp[m] == a as usize;
            assert(gs[last][m] as int == a);
        }
    }
    assert forall|g1: int, m1: int, g2: int, m2: int|
        0 <= g1 < gs.len() && 0 <= m1 < gs[g1].len() && 0 <= g2 < gs.len() && 0 <= m2
            < gs[g2].len() && #[trigger] gs[g1][m1] == #[trigger] gs[g2][m2] implies g1 == g2
            && m1 == m2 by {
        if g1 == last && g2 == last {
        } else if g1 == last {
            assert(gs[g2] == groups[g2]);
            assert(v0[groups[g2][m2] as int]);
            assert(!v0[comp[m1] as int]);
        } else if g2 == last {
            assert(gs[g1] == groups[g1]);
            assert(v0[groups[g1][m1] as int]);
            assert(!v0[comp[m2] as int]);
        } else {
            assert(gs[g1] == groups[g1]);
            assert(gs[g2] == groups[g2]);
        }
    }
    assert forall|g: int, m1: int, m2: int|
        0 <= g < gs.len() && 0 <= m1 < gs[g].len() && 0 <= m2 < gs[g].len() implies connected(
        tris,
        #[trigger] gs[g][m1] as int,
        #[trigger] gs[g][m2] as int,
    ) by {
        if g == last {
            assert(connected(tris, seed as int, comp[m1] as int));
            assert(connected(tris, seed as int, comp[m2] as int));
            lemma_connected_symm(tris, seed as int, comp[m1] as int);
            lemma_connected_trans(tris, comp[m1] as int, seed as int, comp[m2] as int);
        } else {
            assert(gs[g] == groups[g]);
            assert(connected(tris, groups[g][m1] as int, groups[g][m2] as int));
        }
    }
    assert forall|g: int, m: int, y: int|
        0 <= g < gs.len() && 0 <= m < gs[g].len() && #[trigger] linked(tris, gs[g][m] as int, y)
            implies gs[g].contains(y as usize) by {
        if g == last {
            assert(linked(tris, comp[m] as int, y));
        } else {
            assert(gs[g] == groups[g]);
            assert(linked(tris, groups[g][m] as int, y));
        }
    }
}

/// The positions of `tris` grouped into connected solids.
pub fn connected_index_sets(tris: &Vec<Triangle>) -> (r: Vec<Vec<usize>>)
    ensures
        is_partition(tris@, index_groups(r@)),
{
    let index = build_index(tris);
    let n = tris.len();
    let mut visited: Vec<bool> = Vec::new();
    while visited.len() < n
        invariant
            visited@.len() <= n,
            forall|j: int| 0 <= j < visited@.len() ==> !visited@[j],
        decreases n - visited@.len(),
    {
        visited.push(false);
    }
    proof {
        lemma_unvisited_all(visited@);
    }
    let mut groups: Vec<Vec<usize>> = Vec::new();
    let mut i: usize = 0;
    while i < n
        invariant
            n == tris@.len(),
            i <= n,
            visited@.len() == n,
            index_ok(tris@, index@),
            closed(tris@, visited@),
            forall|j: int| 0 <= j < i ==> visited@[j],
            scan_ok(tris@, index_groups(groups@), visited@),
            total_len(index_groups(groups@)) + unvisited_count(visited@) == n,
        decreases n - i,
    {
        if !visited[i] {
            let ghost v0 = visited@;
            let ghost g0 = index_groups(groups@);
            let comp = collect_component(tris, &index, &mut visited, i);
            proof {
                lemma_scan_push(tris@, g0, v0, visited@, comp@, i);
            }
            groups.push(comp);
            assert(index_groups(groups@) =~= g0.push(comp@));
        }
        i = i + 1;
    }
    proof {
        lemma_unvisited_none(visited@);
        let gs = index_groups(groups@);
        assert forall|g1: int, m1: int, g2: int, m2: int|
            0 <= g1 < gs.len() && 0 <= m1 < gs[g1].len() && 0 <= g2 < gs.len() && 0 <= m2
                < gs[g2].len() implies ((g1 == g2) == connected(
            tris@,
            #[trigger] gs[g1][m1] as int,
            #[trigger] gs[g2][m2] as int,
        )) by {
            if g1 != g2 && connected(tris@, gs[g1][m1] as int, gs[g2][m2] as int) {
                let members = Set::new(|x: int| 0 <= x && gs[g1].contains(x as usize));
                assert forall|x: int, y: int|
                    members.contains(x) && linked(tris@, x, y) implies members.contains(y) by {
                    let m = choose|m: int| 0 <= m < gs[g1].len() && gs[g1][m] == x as usize;
                    assert(linked(tris@, gs[g1][m] as int, y));
                }
                assert(members.contains(gs[g1][m1] as int));
                lemma_closed_holds_connected(
                    tris@,
                    members,
                    gs[g1][m1] as int,
                    gs[g2][m2] as int,
                );
                let m = choose|m: int| 0 <= m < gs[g1].len() && gs[g1][m] == gs[g2][m2];
                assert(gs[g1][m] == gs[g2][m2]);
            }
        }
        assert forall|a: int| 0 <= a < tris@.len() implies #[trigger] placed(gs, a) by {
            assert(visited@[a]);
        }
        assert(total_len(gs) == tris@.len());
    }
    groups
}

/// `out` holds, group by group and place by place, the triangles at the
/// positions of `groups`.
pub open spec fn picks(tris: Seq<Triangle>, groups: Seq<Seq<usize>>, out: Seq<Vec<Triangle>>) -> bool {
    &&& out.len() == groups.len()
    &&& forall|g: int| 0 <= g < groups.len() ==> #[trigger] out[g]@.len() == groups[g].len()
    &&& forall|g: int, m: int|
        0 <= g < groups.len() && 0 <= m < groups[g].len() ==> #[trigger] out[g]@[m]
            == tris[groups[g][m] as int]
}

/// The number of triangles over all groups of `out`.
pub open spec fn triangle_total(out: Seq<Vec<Triangle>>) -> nat
    decreases out.len(),
{
    if out.len() == 0 {
        0
    } else {
        triangle_total(out.drop_last()) + out.last()@.len()
    }
}

/// `out` is a split of `tris` into its connected solids, in some order.
pub open spec fn is_solid_split(tris: Seq<Triangle>, out: Seq<Vec<Triangle>>) -> bool {
    exists|groups: Seq<Seq<usize>>| #[trigger] is_partition(tris, groups) && picks(tris, groups, out)
}

proof fn lemma_picks_total(tris: Seq<Triangle>, groups: Seq<Seq<usize>>, out: Seq<Vec<Triangle>>)
    requires
        picks(tris, groups, out),
    ensures
        triangle_total(out) == total_len(groups),
    decreases groups.len(),
{
    if groups.len() > 0 {
        let last = groups.len() - 1;
        assert(out[last]@.len() == groups[last].len());
        let g2 = groups.drop_last();
        let o2 = out.drop_last();
        assert forall|g: int| 0 <= g < g2.len() implies #[trigger] o2[g]@.len() == g2[g].len() by {
            assert(out[g]@.len() == groups[g].len());
        }
        assert forall|g: int, m: int| 0 <= g < g2.len() && 0 <= m < g2[g].len() implies #[trigger] o2[g]@[m]
            == tris[g2[g][m] as int] by {
            assert(out[g]@[m] == tris[groups[g][m] as int]);
        }
        lemma_picks_total(tris, g2, o2);
    }
}

/// The triangles at the positions of each group, copied in the order of the group.
pub fn collect_triangles(tris: &Vec<Triangle>, groups: &Vec<Vec<usize>>) -> (out: Vec<Vec<Triangle>>)
    requires
        forall|g: int, m: int|
            0 <= g < groups@.len() && 0 <= m < groups@[g]@.len() ==> #[trigger] groups@[g]@[m]
                < tris@.len(),
    ensures
        picks(tris@, index_groups(groups@), out@),
{
    let ghost gs = index_groups(groups@);
    let mut out: Vec<Vec<Triangle>> = Vec::new();
    let mut g: usize = 0;
    while g < groups.len()
        invariant
            g <= groups@.len(),
            gs == index_groups(groups@),
            forall|a: int, m: int|
                0 <= a < groups@.len() && 0 <= m < groups@[a]@.len() ==> #[trigger] groups@[a]@[m]
                    < tris@.len(),
            out@.len() == g,
            forall|a: int| 0 <= a < g ==> #[trigger] out@[a]@.len() == gs[a].len(),
            forall|a: int, m: int|
                0 <= a < g && 0 <= m < gs[a].len() ==> #[trigger] out@[a]@[m] == tris@[gs[a][m] as int],
        decreases groups@.len() - g,
    {
        let group = &groups[g];
        let mut solid: Vec<Triangle> = Vec::new();
        let mut m: usize = 0;
        while m < group.len()
            invariant
                g < groups@.len(),
                *group == groups@[g as int],
                forall|a: int, k: int|
                    0 <= a < groups@.len() && 0 <= k < groups@[a]@.len() ==> #[trigger] groups@[a]@[k]
                        < tris@.len(),
                m <= group@.len(),
                solid@.len() == m,
                forall|k: int| 0 <= k < m ==> #[trigger] solid@[k] == tris@[group@[k] as int],
            decreases group@.len() - m,
        {
            assert(groups@[g as int]@[m as int] < tris@.len());
            solid.push(tris[group[m]]);
            m = m + 1;
        }
        out.push(solid);
        g = g + 1;
    }
    out
}

/// Splits a triangle list into its connected solids. Each group holds copies of
/// the triangles of one solid; every triangle lands in exactly one group, and the
/// group sizes add up to the length of the list.
pub fn find_connected_sets(tris: &Vec<Triangle>) -> (r: Vec<Vec<Triangle>>)
    ensures
        is_solid_split(tris@, r@),
        triangle_total(r@) == tris@.len(),
{
    let groups = connected_index_sets(tris);
    let ghost gs = index_groups(groups@);
    assert forall|g: int, m: int|
        0 <= g < groups@.len() && 0 <= m < groups@[g]@.len() implies #[trigger] groups@[g]@[m]
            < tris@.len() by {
        assert(gs[g][m] == groups@[g]@[m]);
    }
    let r = collect_triangles(tris, &groups);
    proof {
        lemma_picks_total(tris@, gs, r@);
        assert(is_partition(tris@, gs));
    }
    r
}

} // verus!
