//! Union-find forests whose parents rise in a ghost level: the root of a
//! node's class, and how path shortening and linking move roots.
use vstd::prelude::*;

verus! {

/// Parents are in range, every non-root sits strictly below its parent in
/// `level`, and `top` bounds every level.
pub open spec fn forest_ok(parent: Seq<usize>, level: Seq<nat>, top: nat) -> bool {
    &&& level.len() == parent.len()
    &&& forall|i: int| 0 <= i < parent.len() ==> parent[i] < parent.len()
    &&& forall|i: int| 0 <= i < parent.len() && parent[i] != i ==> level[parent[i] as int] > level[i]
    &&& forall|i: int| 0 <= i < parent.len() ==> level[i] <= top
}

/// The root of `x`'s class: follow parents until a node is its own parent.
pub open spec fn root_at(parent: Seq<usize>, level: Seq<nat>, top: nat, x: int) -> int
    decreases top - level[x],
    when forest_ok(parent, level, top) && 0 <= x < parent.len()
{
    if parent[x] == x {
        x
    } else {
        root_at(parent, level, top, parent[x] as int)
    }
}

/// A root is in range, is its own parent, and is its own root.
pub proof fn lemma_root_is_root(parent: Seq<usize>, level: Seq<nat>, top: nat, x: int)
    requires
        forest_ok(parent, level, top),
        0 <= x < parent.len(),
    ensures
        0 <= root_at(parent, level, top, x) < parent.len(),
        parent[root_at(parent, level, top, x)] == root_at(parent, level, top, x),
        level[root_at(parent, level, top, x)] >= level[x],
    decreases top - level[x],
{
    if parent[x] != x {
        lemma_root_is_root(parent, level, top, parent[x] as int);
    }
}

/// Re-pointing `x` at a higher node `t` of its own class moves no root.
pub proof fn lemma_reparent_keeps_roots(parent: Seq<usize>, level: Seq<nat>, top: nat, x: int, t: usize, y: int)
    requires
        forest_ok(parent, level, top),
        0 <= x < parent.len(),
        t < parent.len(),
        level[t as int] > level[x],
        root_at(parent, level, top, t as int) == root_at(parent, level, top, x),
        0 <= y < parent.len(),
    ensures
        forest_ok(parent.update(x, t), level, top),
        root_at(parent.update(x, t), level, top, y) == root_at(parent, level, top, y),
    decreases top - level[y],
{
    let p2 = parent.update(x, t);
    assert(forest_ok(p2, level, top));
    if y == x {
        assert(p2[x] != x);
        lemma_reparent_keeps_roots(parent, level, top, x, t, t as int);
    } else if parent[y] != y {
        lemma_reparent_keeps_roots(parent, level, top, x, t, parent[y] as int);
    }
}

/// Linking root `ra` under root `rb` (raising `rb`'s level to `lv`) sends
/// the class of `ra` to `rb` and leaves every other class.
pub proof fn lemma_link_roots(parent: Seq<usize>, level: Seq<nat>, top: nat, ra: int, rb: int, lv: nat, y: int)
    requires
        forest_ok(parent, level, top),
        0 <= ra < parent.len(),
        0 <= rb < parent.len(),
        ra != rb,
        parent[ra] == ra,
        parent[rb] == rb,
        lv > level[ra],
        lv >= level[rb],
        0 <= y < parent.len(),
    ensures
        forest_ok(parent.update(ra, rb as usize), level.update(rb, lv), if lv > top { lv } else { top }),
        root_at(parent.update(ra, rb as usize), level.update(rb, lv), if lv > top { lv } else { top }, y) == if root_at(
            parent,
            level,
            top,
            y,
        ) == ra {
            rb
        } else {
            root_at(parent, level, top, y)
        },
    decreases top - level[y],
{
    let p2 = parent.update(ra, rb as usize);
    let l2 = level.update(rb, lv);
    let t2 = if lv > top { lv } else { top };
    assert(forest_ok(p2, l2, t2)) by {
        assert forall|i: int| 0 <= i < p2.len() && p2[i] != i implies l2[p2[i] as int] > l2[i] by {
            if i != ra {
                assert(parent[i] != i);
                assert(i != rb);
            }
        }
    }
    if y == ra {
        assert(root_at(p2, l2, t2, rb) == rb);
    } else if parent[y] != y {
        lemma_link_roots(parent, level, top, ra, rb, lv, parent[y] as int);
    }
}

/// Appending a fresh node that is its own parent moves no root of the old
/// nodes.
pub proof fn lemma_push_keeps_roots(parent: Seq<usize>, level: Seq<nat>, top: nat, y: int)
    requires
        forest_ok(parent, level, top),
        0 <= y < parent.len(),
        parent.len() <= usize::MAX,
    ensures
        forest_ok(parent.push(parent.len() as usize), level.push(0), top),
        root_at(parent.push(parent.len() as usize), level.push(0), top, y) == root_at(parent, level, top, y),
    decreases top - level[y],
{
    let p2 = parent.push(parent.len() as usize);
    let l2 = level.push(0);
    assert(forest_ok(p2, l2, top)) by {
        assert forall|i: int| 0 <= i < p2.len() && p2[i] != i implies l2[p2[i] as int] > l2[i] by {
            if i == parent.len() {
                assert(p2[i] == i);
            } else {
                assert(p2[i] == parent[i] && l2[i] == level[i]);
                assert(l2[p2[i] as int] == level[parent[i] as int]);
            }
        }
    }
    assert(p2[y] == parent[y]);
    if parent[y] != y {
        lemma_push_keeps_roots(parent, level, top, parent[y] as int);
    }
}

} // verus!
