//! Connected-component labelling of a row-major boolean grid
//! (4-connectivity), by a raster pass with label equivalences and a
//! union-find resolution.
use vstd::prelude::*;
use vstd::arithmetic::div_mod::lemma_fundamental_div_mod_converse;

verus! {

// ---------------------------------------------------------------------------
// Grid geometry
// ---------------------------------------------------------------------------

/// `q` is the left neighbour (same row) or the upper neighbour of `p`
/// in a grid with rows of `sw` cells.
pub open spec fn linked(sw: int, p: int, q: int) -> bool {
    (q + 1 == p && p % sw != 0) || q + sw == p
}

/// `p` and `q` share an edge.
pub open spec fn adjacent(sw: int, p: int, q: int) -> bool {
    linked(sw, p, q) || linked(sw, q, p)
}

/// Step `i` of `path` moves to an edge neighbour.
pub open spec fn path_step(sw: int, path: Seq<int>, i: int) -> bool {
    adjacent(sw, path[i], path[i + 1])
}

/// `path` is a non-empty walk through set cells of `mask`, each step
/// crossing an edge.
pub open spec fn is_path(mask: Seq<bool>, sw: int, path: Seq<int>) -> bool {
    &&& path.len() >= 1
    &&& forall|i: int| 0 <= i < path.len() ==> 0 <= #[trigger] path[i] < mask.len() && mask[path[i]]
    &&& forall|i: int| 0 <= i < path.len() - 1 ==> #[trigger] path_step(sw, path, i)
}

/// Cells `p` and `q` lie in the same 4-connected component of set cells.
pub open spec fn connected(mask: Seq<bool>, sw: int, p: int, q: int) -> bool {
    exists|path: Seq<int>| #[trigger] is_path(mask, sw, path) && path[0] == p && path.last() == q
}

/// Largest value among the first `n` entries (0 when `n` is 0).
pub open spec fn prefix_max(s: Seq<int>, n: int) -> int
    decreases n,
{
    if n <= 0 {
        0
    } else {
        let m = prefix_max(s, n - 1);
        if s[n - 1] > m {
            s[n - 1]
        } else {
            m
        }
    }
}

/// `lab` numbers the components of `mask`: background cells get 0, two set
/// cells get the same number exactly when they are connected, and the
/// numbers 1, 2, ... are handed out in raster order of each component's
/// first cell (a cell never exceeds one more than every number before it).
pub open spec fn is_component_labeling(mask: Seq<bool>, sw: int, lab: Seq<int>) -> bool {
    &&& lab.len() == mask.len()
    &&& forall|p: int| 0 <= p < lab.len() ==> (#[trigger] lab[p] == 0 <==> !mask[p]) && lab[p] >= 0
    &&& forall|p: int, q: int|
        0 <= p < lab.len() && 0 <= q < lab.len() && mask[p] && mask[q] ==> (#[trigger] lab[p]
            == #[trigger] lab[q] <==> connected(mask, sw, p, q))
    &&& forall|p: int| 0 <= p < lab.len() && mask[p] ==> #[trigger] lab[p] <= prefix_max(lab, p) + 1
}

// ---------------------------------------------------------------------------
// Paths
// ---------------------------------------------------------------------------

pub proof fn lemma_connected_refl(mask: Seq<bool>, sw: int, p: int)
    requires
        0 <= p < mask.len(),
        mask[p],
    ensures
        connected(mask, sw, p, p),
{
    let path = seq![p];
    assert(is_path(mask, sw, path));
}

pub proof fn lemma_connected_adjacent(mask: Seq<bool>, sw: int, p: int, q: int)
    requires
        0 <= p < mask.len(),
        0 <= q < mask.len(),
        mask[p],
        mask[q],
        adjacent(sw, p, q),
    ensures
        connected(mask, sw, p, q),
{
    let path = seq![p, q];
    assert(path_step(sw, path, 0));
    assert(is_path(mask, sw, path));
}

pub proof fn lemma_connected_symmetric(mask: Seq<bool>, sw: int, p: int, q: int)
    requires
        connected(mask, sw, p, q),
    ensures
        connected(mask, sw, q, p),
{
    let path = choose|path: Seq<int>| #[trigger] is_path(mask, sw, path) && path[0] == p && path.last() == q;
    let rev = path.reverse();
    assert forall|i: int| 0 <= i < rev.len() - 1 implies #[trigger] path_step(sw, rev, i) by {
        let j = path.len() - 2 - i;
        assert(path_step(sw, path, j));
    }
    assert forall|i: int| 0 <= i < rev.len() implies 0 <= #[trigger] rev[i] < mask.len() && mask[rev[i]] by {
        assert(rev[i] == path[path.len() - 1 - i]);
    }
    assert(is_path(mask, sw, rev));
}

pub proof fn lemma_connected_transitive(mask: Seq<bool>, sw: int, p: int, q: int, r: int)
    requires
        connected(mask, sw, p, q),
        connected(mask, sw, q, r),
    ensures
        connected(mask, sw, p, r),
{
    let a = choose|path: Seq<int>| #[trigger] is_path(mask, sw, path) && path[0] == p && path.last() == q;
    let b = choose|path: Seq<int>| #[trigger] is_path(mask, sw, path) && path[0] == q && path.last() == r;
    let c = a + b.drop_first();
    assert forall|i: int| 0 <= i < c.len() implies 0 <= #[trigger] c[i] < mask.len() && mask[c[i]] by {
        if i < a.len() {
            assert(c[i] == a[i]);
        } else {
            assert(c[i] == b[i - a.len() + 1]);
        }
    }
    assert forall|i: int| 0 <= i < c.len() - 1 implies #[trigger] path_step(sw, c, i) by {
        if i < a.len() - 1 {
            assert(path_step(sw, a, i));
        } else if i == a.len() - 1 {
            assert(c[i] == a.last());
            assert(c[i + 1] == b[1]);
            assert(path_step(sw, b, 0));
        } else {
            let j = i - a.len() + 1;
            assert(path_step(sw, b, j));
            assert(c[i] == b[j]);
            assert(c[i + 1] == b[j + 1]);
        }
    }
    assert(is_path(mask, sw, c));
    assert(c.last() == b.last());
}

// ---------------------------------------------------------------------------
// Row/column arithmetic
// ---------------------------------------------------------------------------

/// Moving from cell `p` = (x, y) to `p + 1` in raster order.
pub proof fn lemma_next_cell(sw: int, p: int, x: int, y: int)
    requires
        sw > 0,
        0 <= x < sw,
        y >= 0,
        p == y * sw + x,
    ensures
        p % sw == x,
        p / sw == y,
        x + 1 < sw ==> (p + 1) % sw == x + 1 && (p + 1) / sw == y,
        x + 1 == sw ==> (p + 1) % sw == 0 && (p + 1) / sw == y + 1 && p + 1 == (y + 1) * sw,
        y >= 1 ==> p >= sw + x,
{
    lemma_fundamental_div_mod_converse(p, sw, y, x);
    if x + 1 < sw {
        lemma_fundamental_div_mod_converse(p + 1, sw, y, x + 1);
    } else {
        assert((y + 1) * sw == y * sw + sw) by (nonlinear_arith);
        lemma_fundamental_div_mod_converse(p + 1, sw, y + 1, 0);
    }
    if y >= 1 {
        assert(y * sw >= sw) by (nonlinear_arith)
            requires
                y >= 1,
                sw > 0,
        ;
    }
}


// ---------------------------------------------------------------------------
// Union-find forests
// ---------------------------------------------------------------------------

/// Parent links never point to a larger index, so every chain of links
/// ends at a root.
pub open spec fn forest(par: Seq<u32>) -> bool {
    forall|i: int| 0 <= i < par.len() ==> #[trigger] par[i] <= i
}

/// Root reached by following parent links from `i`.
pub open spec fn root_of(par: Seq<u32>, i: int) -> int
    decreases i,
{
    if 0 <= i < par.len() && par[i] < i {
        root_of(par, par[i] as int)
    } else {
        i
    }
}

pub proof fn lemma_root_of(par: Seq<u32>, i: int)
    requires
        forest(par),
        0 <= i < par.len(),
    ensures
        0 <= root_of(par, i) <= i,
        par[root_of(par, i)] == root_of(par, i),
        root_of(par, root_of(par, i)) == root_of(par, i),
    decreases i,
{
    if par[i] < i {
        lemma_root_of(par, par[i] as int);
    } else {
        assert(par[i] <= i);
    }
}

/// Pointing `x` straight at its root leaves every root unchanged.
pub proof fn lemma_set_to_root(par: Seq<u32>, x: int, r: int, i: int)
    requires
        forest(par),
        0 <= x < par.len(),
        r == root_of(par, x),
        0 <= i < par.len(),
    ensures
        forest(par.update(x, r as u32)),
        root_of(par.update(x, r as u32), i) == root_of(par, i),
    decreases i,
{
    lemma_root_of(par, x);
    let q = par.update(x, r as u32);
    assert forall|j: int| 0 <= j < q.len() implies #[trigger] q[j] <= j by {
        if j != x {
            assert(par[j] <= j);
        }
    }
    if i == x {
        if r < x {
            lemma_set_to_root(par, x, r, r);
            lemma_root_of(par, r);
        }
    } else {
        if par[i] < i {
            lemma_set_to_root(par, x, r, par[i] as int);
        }
    }
}

/// Hanging root `rb` under the smaller root `ra` moves exactly the
/// elements of `rb`'s tree to `ra`.
pub proof fn lemma_link(par: Seq<u32>, ra: int, rb: int, i: int)
    requires
        forest(par),
        0 <= ra < rb < par.len(),
        par[ra] == ra,
        par[rb] == rb,
        0 <= i < par.len(),
    ensures
        forest(par.update(rb, ra as u32)),
        root_of(par.update(rb, ra as u32), i) == (if root_of(par, i) == rb { ra } else { root_of(par, i) }),
    decreases i,
{
    let q = par.update(rb, ra as u32);
    assert forall|j: int| 0 <= j < q.len() implies #[trigger] q[j] <= j by {
        if j != rb {
            assert(par[j] <= j);
        }
    }
    if i == rb {
        assert(root_of(q, ra) == ra);
    } else if par[i] < i {
        lemma_link(par, ra, rb, par[i] as int);
    }
}

/// Finds the root of `x`, pointing every link on the way straight at it.
fn resolve(parent: &mut Vec<u32>, x: u32) -> (r: u32)
    requires
        x < old(parent).len(),
        forest(old(parent)@),
    ensures
        r as int == root_of(old(parent)@, x as int),
        final(parent).len() == old(parent).len(),
        forest(final(parent)@),
        forall|i: int|
            0 <= i < old(parent).len() ==> #[trigger] root_of(final(parent)@, i) == root_of(
                old(parent)@,
                i,
            ),
        forall|i: int|
            0 <= i < old(parent).len() ==> #[trigger] final(parent)@[i] == old(parent)@[i]
                || final(parent)@[i] == root_of(old(parent)@, i),
    decreases x,
{
    let ghost p0 = parent@;
    let xi = x as usize;
    let px = parent[xi];
    if px != x {
        assert(p0[xi as int] < x);
        let r = resolve(parent, px);
        let ghost p1 = parent@;
        proof {
            lemma_root_of(p0, x as int);
            assert(root_of(p1, x as int) == root_of(p0, x as int));
            assert(root_of(p0, x as int) == root_of(p0, px as int));
            assert forall|i: int| 0 <= i < p1.len() implies root_of(p1.update(xi as int, r), i) == root_of(p1, i) by {
                lemma_set_to_root(p1, xi as int, r as int, i);
            }
            lemma_set_to_root(p1, xi as int, r as int, 0);
        }
        parent.set(xi, r);
        proof {
            assert(parent@ == p1.update(xi as int, r));
            assert forall|i: int| 0 <= i < p0.len() implies #[trigger] root_of(parent@, i) == root_of(p0, i) by {
                assert(root_of(p1, i) == root_of(p0, i));
            }
        }
        r
    } else {
        x
    }
}


// ---------------------------------------------------------------------------
// First pass: provisional labels and their equivalences
// ---------------------------------------------------------------------------

/// Provisional label `a` of a cell agrees with label `b` of its left or upper
/// neighbour, either directly or through a recorded equivalence `(a, b)`.
pub open spec fn related(eqs: Seq<(u32, u32)>, a: int, b: int) -> bool {
    a == b || exists|k: int| 0 <= k < eqs.len() && #[trigger] eqs[k] == (a as u32, b as u32)
}

/// State of the raster pass after its first `p` cells: `seed[a]` is the cell
/// where provisional label `a` was created.
pub open spec fn provisional_ok(
    mask: Seq<bool>,
    sw: int,
    labels: Seq<u32>,
    next: int,
    eqs: Seq<(u32, u32)>,
    seed: Seq<int>,
    p: int,
) -> bool {
    &&& labels.len() == mask.len()
    &&& seed.len() == next >= 1
    &&& forall|q: int|
        0 <= q < labels.len() ==> #[trigger] labels[q] < next && (q >= p ==> labels[q] == 0) && (q
            < p ==> (labels[q] != 0 <==> mask[q]))
    &&& forall|a: int|
        1 <= a < next ==> 0 <= #[trigger] seed[a] < p && seed[a] < mask.len() && mask[seed[a]]
            && labels[seed[a]] == a
    &&& forall|a: int, b: int| 1 <= a < b < next ==> #[trigger] seed[a] < #[trigger] seed[b]
    &&& forall|q: int|
        0 <= q < p && mask[q] ==> seed[#[trigger] labels[q] as int] <= q && connected(
            mask,
            sw,
            q,
            seed[labels[q] as int],
        )
    &&& forall|k: int|
        0 <= k < eqs.len() ==> 1 <= (#[trigger] eqs[k]).0 < eqs[k].1 < next && connected(
            mask,
            sw,
            seed[eqs[k].0 as int],
            seed[eqs[k].1 as int],
        )
    &&& forall|q: int, r: int|
        0 <= r < q < p && mask[q] && mask[r] && #[trigger] linked(sw, q, r) ==> related(
            eqs,
            labels[q] as int,
            labels[r] as int,
        )
}

fn zeros(n: usize) -> (v: Vec<u32>)
    ensures
        v.len() == n,
        forall|i: int| 0 <= i < n ==> v@[i] == 0,
{
    let mut v: Vec<u32> = Vec::new();
    while v.len() < n
        invariant
            v.len() <= n,
            forall|i: int| 0 <= i < v.len() ==> v@[i] == 0,
        decreases n - v.len(),
    {
        v.push(0);
    }
    v
}

/// Raster pass: each set cell takes the label of its left or upper
/// neighbour, a fresh label when both are unset, and records an
/// equivalence when they carry different labels.
fn provisional_labels(mask: &Vec<bool>, sw: usize, sh: usize) -> (res: (
    Vec<u32>,
    u32,
    Vec<(u32, u32)>,
    Ghost<Seq<int>>,
))
    requires
        sw > 0,
        mask.len() == sw * sh,
        mask.len() < u32::MAX,
    ensures
        provisional_ok(mask@, sw as int, res.0@, res.1 as int, res.2@, res.3@, mask.len() as int),
        res.1 <= mask.len() + 1,
{
    let n = mask.len();
    let mut labels = zeros(n);
    let mut next: u32 = 1;
    let mut eqs: Vec<(u32, u32)> = Vec::new();
    let ghost mut seed: Seq<int> = seq![0int];
    let mut p: usize = 0;
    let mut x: usize = 0;
    let mut y: usize = 0;
    while p < n
        invariant
            provisional_ok(mask@, sw as int, labels@, next as int, eqs@, seed, p as int),
            p <= n,
            x < sw,
            p == y * sw + x,
            next <= p + 1,
            n == mask.len(),
            n < u32::MAX,
            sw > 0,
        decreases n - p,
    {
        proof {
            lemma_next_cell(sw as int, p as int, x as int, y as int);
        }
        let ghost m = mask@;
        let ghost swi = sw as int;
        let ghost pi = p as int;
        let ghost l0 = labels@;
        let ghost e0 = eqs@;
        let ghost s0 = seed;
        if mask[p] {
            let l: u32 = if x > 0 {
                labels[p - 1]
            } else {
                0
            };
            let u: u32 = if y > 0 {
                labels[p - sw]
            } else {
                0
            };
            proof {
                // the only earlier cells linked to p
                assert forall|r: int| 0 <= r < pi && #[trigger] linked(swi, pi, r) implies (r == pi - 1
                    && x > 0) || (r == pi - swi && y > 0) by {}
                if x > 0 {
                    assert(linked(swi, pi, pi - 1));
                    assert(l0[pi - 1] < next);
                    assert((l != 0) == m[pi - 1]);
                }
                if y > 0 {
                    assert(linked(swi, pi, pi - swi));
                    assert(l0[pi - swi] < next);
                    assert((u != 0) == m[pi - swi]);
                }
            }
            if l == 0 && u == 0 {
                labels.set(p, next);
                proof {
                    seed = seed.push(pi);
                    lemma_connected_refl(m, swi, pi);
                    assert(seed[next as int] == pi);
                    assert forall|q: int, r: int|
                        0 <= r < q < pi + 1 && m[q] && m[r] && #[trigger] linked(swi, q, r) implies related(
                        eqs@,
                        labels@[q] as int,
                        labels@[r] as int,
                    ) by {
                        if q < pi {
                            assert(related(e0, l0[q] as int, l0[r] as int));
                        }
                    }
                }
                next = next + 1;
            } else if l != 0 && u != 0 && l != u {
                let a = if l < u {
                    l
                } else {
                    u
                };
                let b = if l < u {
                    u
                } else {
                    l
                };
                labels.set(p, a);
                eqs.push((a, b));
                proof {
                    let left = pi - 1;
                    let up = pi - swi;
                    lemma_connected_adjacent(m, swi, pi, left);
                    lemma_connected_adjacent(m, swi, pi, up);
                    assert(connected(m, swi, left, s0[l as int]));
                    assert(connected(m, swi, up, s0[u as int]));
                    lemma_connected_transitive(m, swi, pi, left, s0[l as int]);
                    lemma_connected_transitive(m, swi, pi, up, s0[u as int]);
                    lemma_connected_symmetric(m, swi, pi, s0[a as int]);
                    lemma_connected_transitive(m, swi, s0[a as int], pi, s0[b as int]);
                    assert(eqs@[e0.len() as int] == (a, b));
                    assert forall|k: int| 0 <= k < eqs@.len() implies 1 <= (#[trigger] eqs@[k]).0 < eqs@[k].1
                        < next && connected(m, swi, s0[eqs@[k].0 as int], s0[eqs@[k].1 as int]) by {
                        if k < e0.len() {
                            assert(eqs@[k] == e0[k]);
                        }
                    }
                    assert forall|q: int, r: int|
                        0 <= r < q < pi + 1 && m[q] && m[r] && #[trigger] linked(swi, q, r) implies related(
                        eqs@,
                        labels@[q] as int,
                        labels@[r] as int,
                    ) by {
                        if q < pi {
                            assert(related(e0, l0[q] as int, l0[r] as int));
                            if l0[q] != l0[r] {
                                let k = choose|k: int| 0 <= k < e0.len() && #[trigger] e0[k] == (l0[q], l0[r]);
                                assert(eqs@[k] == e0[k]);
                            }
                        } else {
                            if labels@[r] != a {
                                assert(eqs@[e0.len() as int] == (labels@[q], labels@[r]));
                            }
                        }
                    }
                    assert forall|q: int| 0 <= q < pi + 1 && m[q] implies s0[#[trigger] labels@[q] as int] <= q
                        && connected(m, swi, q, s0[labels@[q] as int]) by {
                        if q < pi {
                            assert(labels@[q] == l0[q]);
                        }
                    }
                }
            } else {
                let v = if l != 0 {
                    l
                } else {
                    u
                };
                labels.set(p, v);
                proof {
                    let r0 = if l != 0 { pi - 1 } else { pi - swi };
                    lemma_connected_adjacent(m, swi, pi, r0);
                    assert(connected(m, swi, r0, s0[v as int]));
                    lemma_connected_transitive(m, swi, pi, r0, s0[v as int]);
                    assert forall|q: int, r: int|
                        0 <= r < q < pi + 1 && m[q] && m[r] && #[trigger] linked(swi, q, r) implies related(
                        eqs@,
                        labels@[q] as int,
                        labels@[r] as int,
                    ) by {
                        if q < pi {
                            assert(related(e0, l0[q] as int, l0[r] as int));
                        }
                    }
                    assert forall|q: int| 0 <= q < pi + 1 && m[q] implies s0[#[trigger] labels@[q] as int] <= q
                        && connected(m, swi, q, s0[labels@[q] as int]) by {
                        if q < pi {
                            assert(labels@[q] == l0[q]);
                        }
                    }
                }
            }
        } else {
            proof {
                assert forall|q: int, r: int|
                    0 <= r < q < pi + 1 && m[q] && m[r] && #[trigger] linked(swi, q, r) implies related(
                    eqs@,
                    labels@[q] as int,
                    labels@[r] as int,
                ) by {
                    if q < pi {
                        assert(related(e0, l0[q] as int, l0[r] as int));
                    }
                }
            }
        }
        p = p + 1;
        x = x + 1;
        if x == sw {
            x = 0;
            y = y + 1;
        }
    }
    (labels, next, eqs, Ghost(seed))
}


// ---------------------------------------------------------------------------
// Second pass: merging equivalent labels
// ---------------------------------------------------------------------------

/// `flat[i]` is the representative of provisional label `i`: a root that is
/// its own representative, at most `i`, shared by every recorded
/// equivalence, and whose seed cell is connected to the seed of `i`.
pub open spec fn classes_ok(
    mask: Seq<bool>,
    sw: int,
    next: int,
    eqs: Seq<(u32, u32)>,
    seed: Seq<int>,
    flat: Seq<u32>,
) -> bool {
    &&& flat.len() == next
    &&& forall|i: int|
        0 <= i < next ==> #[trigger] flat[i] <= i && flat[flat[i] as int] == flat[i] && (i >= 1
            ==> flat[i] >= 1 && connected(mask, sw, seed[i], seed[flat[i] as int]))
    &&& forall|k: int| 0 <= k < eqs.len() ==> flat[(#[trigger] eqs[k]).0 as int] == flat[eqs[k].1 as int]
}

fn resolve_classes(
    eqs: &Vec<(u32, u32)>,
    next: u32,
    Ghost(mask): Ghost<Seq<bool>>,
    Ghost(sw): Ghost<int>,
    Ghost(labels): Ghost<Seq<u32>>,
    Ghost(seed): Ghost<Seq<int>>,
) -> (flat: Vec<u32>)
    requires
        provisional_ok(mask, sw, labels, next as int, eqs@, seed, mask.len() as int),
    ensures
        classes_ok(mask, sw, next as int, eqs@, seed, flat@),
{
    let total = next as usize;
    let mut parent: Vec<u32> = Vec::new();
    while parent.len() < total
        invariant
            parent.len() <= total,
            total == next,
            forall|i: int| 0 <= i < parent.len() ==> parent@[i] == i,
        decreases total - parent.len(),
    {
        let i = parent.len() as u32;
        parent.push(i);
    }
    proof {
        assert forall|i: int| 1 <= i < total implies #[trigger] root_of(parent@, i) >= 1 && connected(
            mask,
            sw,
            seed[i],
            seed[root_of(parent@, i)],
        ) by {
            lemma_connected_refl(mask, sw, seed[i]);
        }
    }
    let mut k: usize = 0;
    while k < eqs.len()
        invariant
            provisional_ok(mask, sw, labels, next as int, eqs@, seed, mask.len() as int),
            total == next,
            parent.len() == total,
            forest(parent@),
            k <= eqs.len(),
            forall|j: int|
                0 <= j < k ==> root_of(parent@, (#[trigger] eqs@[j]).0 as int) == root_of(
                    parent@,
                    eqs@[j].1 as int,
                ),
            forall|i: int|
                1 <= i < total ==> #[trigger] root_of(parent@, i) >= 1 && connected(
                    mask,
                    sw,
                    seed[i],
                    seed[root_of(parent@, i)],
                ),
        decreases eqs.len() - k,
    {
        let (a, b) = eqs[k];
        let ghost p0 = parent@;
        let ra = resolve(&mut parent, a);
        let rb = resolve(&mut parent, b);
        let ghost p1 = parent@;
        proof {
            assert(eqs@[k as int] == (a, b));
            lemma_root_of(p0, a as int);
            lemma_root_of(p0, b as int);
            assert forall|i: int| 0 <= i < total implies #[trigger] root_of(p1, i) == root_of(p0, i) by {
            }
        }
        if ra != rb {
            let (lo, hi) = if ra < rb {
                (ra, rb)
            } else {
                (rb, ra)
            };
            proof {
                let m = mask;
                // seed[hi] ~ seed[lo]
                assert(connected(m, sw, seed[a as int], seed[b as int]));
                assert(connected(m, sw, seed[a as int], seed[ra as int]));
                assert(connected(m, sw, seed[b as int], seed[rb as int]));
                lemma_connected_symmetric(m, sw, seed[a as int], seed[ra as int]);
                lemma_connected_symmetric(m, sw, seed[b as int], seed[rb as int]);
                lemma_connected_symmetric(m, sw, seed[a as int], seed[b as int]);
                lemma_connected_transitive(m, sw, seed[ra as int], seed[a as int], seed[b as int]);
                lemma_connected_transitive(m, sw, seed[ra as int], seed[b as int], seed[rb as int]);
                lemma_connected_symmetric(m, sw, seed[ra as int], seed[rb as int]);
                assert(connected(m, sw, seed[hi as int], seed[lo as int]));
                assert forall|i: int| 0 <= i < total implies #[trigger] root_of(p1.update(hi as int, lo), i) == (
                if root_of(p1, i) == hi {
                    lo as int
                } else {
                    root_of(p1, i)
                }) by {
                    lemma_link(p1, lo as int, hi as int, i);
                }
                lemma_link(p1, lo as int, hi as int, 0);
                assert forall|i: int| 1 <= i < total implies #[trigger] root_of(p1.update(hi as int, lo), i) >= 1
                    && connected(mask, sw, seed[i], seed[root_of(p1.update(hi as int, lo), i)]) by {
                    if root_of(p1, i) == hi {
                        lemma_connected_transitive(m, sw, seed[i], seed[hi as int], seed[lo as int]);
                    }
                }
            }
            parent.set(hi as usize, lo);
        }
        proof {
            assert forall|j: int| 0 <= j < k + 1 implies root_of(parent@, (#[trigger] eqs@[j]).0 as int)
                == root_of(parent@, eqs@[j].1 as int) by {
                if j < k {
                    assert(root_of(p0, eqs@[j].0 as int) == root_of(p0, eqs@[j].1 as int));
                }
            }
        }
        k = k + 1;
    }
    let ghost pf = parent@;
    let mut i: usize = 0;
    while i < total
        invariant
            total == next,
            parent.len() == total,
            forest(parent@),
            forest(pf),
            pf.len() == total,
            i <= total,
            forall|j: int| 0 <= j < total ==> #[trigger] root_of(parent@, j) == root_of(pf, j),
            forall|j: int| 0 <= j < i ==> #[trigger] parent@[j] == root_of(pf, j),
        decreases total - i,
    {
        let ghost p0 = parent@;
        let pi = parent[i];
        let r = resolve(&mut parent, pi);
        let ghost p1 = parent@;
        proof {
            lemma_root_of(p0, i as int);
            assert(root_of(p0, i as int) == root_of(p0, pi as int));
            assert forall|j: int| 0 <= j < total implies root_of(p1.update(i as int, r), j) == root_of(p1, j) by {
                lemma_set_to_root(p1, i as int, r as int, j);
            }
            lemma_set_to_root(p1, i as int, r as int, 0);
            assert forall|j: int| 0 <= j < i implies #[trigger] p1[j] == root_of(pf, j) by {
                assert(p1[j] == p0[j] || p1[j] == root_of(p0, j));
            }
        }
        parent.set(i, r);
        proof {
            assert forall|j: int| 0 <= j < total implies #[trigger] root_of(parent@, j) == root_of(pf, j) by {
                assert(root_of(p1, j) == root_of(p0, j));
            }
        }
        i = i + 1;
    }
    proof {
        assert forall|i: int| 0 <= i < next implies #[trigger] parent@[i] <= i && parent@[parent@[i] as int]
            == parent@[i] by {
            lemma_root_of(pf, i);
        }
    }
    parent
}


// ---------------------------------------------------------------------------
// Final numbering
// ---------------------------------------------------------------------------

/// Number of roots among the representatives `1 .. m`.
pub open spec fn roots_below(flat: Seq<u32>, m: int) -> int
    decreases m,
{
    if m <= 1 {
        0
    } else {
        roots_below(flat, m - 1) + if flat[m - 1] == m - 1 {
            1int
        } else {
            0int
        }
    }
}

/// The entries of `s` read as integers.
pub open spec fn as_ints(s: Seq<u32>) -> Seq<int> {
    s.map_values(|v: u32| v as int)
}

proof fn lemma_roots_below_mono(flat: Seq<u32>, a: int, b: int)
    requires
        a <= b,
    ensures
        roots_below(flat, a) <= roots_below(flat, b),
    decreases b - a,
{
    if a < b {
        lemma_roots_below_mono(flat, a, b - 1);
    }
}

proof fn lemma_roots_below_strict(flat: Seq<u32>, r1: int, r2: int)
    requires
        1 <= r1 < r2,
        flat[r1] == r1,
    ensures
        roots_below(flat, r1) < roots_below(flat, r2),
{
    lemma_roots_below_mono(flat, r1 + 1, r2);
}

proof fn lemma_previous_root(flat: Seq<u32>, m: int)
    requires
        roots_below(flat, m) > 0,
    ensures
        exists|r: int|
            1 <= r < m && flat[r] == r && #[trigger] roots_below(flat, r) == roots_below(flat, m) - 1,
    decreases m,
{
    if flat[m - 1] == m - 1 && roots_below(flat, m - 1) == roots_below(flat, m) - 1 {
        assert(roots_below(flat, m - 1) == roots_below(flat, m) - 1);
    } else {
        lemma_previous_root(flat, m - 1);
    }
}

pub proof fn lemma_prefix_max_ge(s: Seq<int>, n: int, j: int)
    requires
        0 <= j < n,
    ensures
        s[j] <= prefix_max(s, n),
    decreases n,
{
    if j < n - 1 {
        lemma_prefix_max_ge(s, n - 1, j);
    }
}

pub proof fn lemma_prefix_max_le(s: Seq<int>, n: int, b: int)
    requires
        b >= 0,
        forall|j: int| 0 <= j < n ==> s[j] <= b,
    ensures
        prefix_max(s, n) <= b,
    decreases n,
{
    if n > 0 {
        lemma_prefix_max_le(s, n - 1, b);
    }
}

pub proof fn lemma_prefix_max_nonneg(s: Seq<int>, n: int)
    ensures
        prefix_max(s, n) >= 0,
    decreases n,
{
    if n > 0 {
        lemma_prefix_max_nonneg(s, n - 1);
    }
}

/// Consecutive cells of a path share a representative.
proof fn lemma_path_same_class(
    mask: Seq<bool>,
    sw: int,
    labels: Seq<u32>,
    next: int,
    eqs: Seq<(u32, u32)>,
    seed: Seq<int>,
    flat: Seq<u32>,
    path: Seq<int>,
)
    requires
        sw > 0,
        provisional_ok(mask, sw, labels, next, eqs, seed, mask.len() as int),
        classes_ok(mask, sw, next, eqs, seed, flat),
        is_path(mask, sw, path),
    ensures
        flat[labels[path[0]] as int] == flat[labels[path.last()] as int],
    decreases path.len(),
{
    let len = path.len() as int;
    if len > 1 {
        let pre = path.drop_last();
        assert forall|i: int| 0 <= i < pre.len() - 1 implies #[trigger] path_step(sw, pre, i) by {
            assert(path_step(sw, path, i));
        }
        assert forall|i: int| 0 <= i < pre.len() implies 0 <= #[trigger] pre[i] < mask.len() && mask[pre[i]] by {
            assert(pre[i] == path[i]);
        }
        assert(is_path(mask, sw, pre));
        lemma_path_same_class(mask, sw, labels, next, eqs, seed, flat, pre);
        assert(path_step(sw, path, len - 2));
        let q = path[len - 2];
        let r = path[len - 1];
        assert(0 <= q < mask.len() && mask[q]);
        assert(0 <= r < mask.len() && mask[r]);
        let (hi, lo) = if linked(sw, q, r) {
            (q, r)
        } else {
            (r, q)
        };
        assert(linked(sw, hi, lo));
        assert(related(eqs, labels[hi] as int, labels[lo] as int));
        if labels[hi] != labels[lo] {
            let k = choose|k: int| 0 <= k < eqs.len() && #[trigger] eqs[k] == (labels[hi], labels[lo]);
            assert(flat[eqs[k].0 as int] == flat[eqs[k].1 as int]);
        }
    }
}

/// Labels the 4-connected components of the set cells of a grid with rows
/// of `sw` cells. Returns the per-cell labels (0 on unset cells, components
/// numbered from 1 in raster order of their first cell) and the number of
/// components.
pub fn label_components(mask: &Vec<bool>, sw: usize, sh: usize) -> (res: (Vec<u32>, u32))
    requires
        sw > 0,
        mask.len() == sw * sh,
        mask.len() < u32::MAX,
    ensures
        as_ints(res.0@) == component_labels(mask@, sw as int),
        is_component_labeling(mask@, sw as int, component_labels(mask@, sw as int)),
        res.1 as int == prefix_max(component_labels(mask@, sw as int), mask.len() as int),
{
    let n = mask.len();
    let (labels, next, eqs, Ghost(seed)) = provisional_labels(mask, sw, sh);
    let ghost m = mask@;
    let ghost swi = sw as int;
    let flat = resolve_classes(&eqs, next, Ghost(m), Ghost(swi), Ghost(labels@), Ghost(seed));
    let ghost fl = flat@;
    let total = next as usize;
    let mut label_map = zeros(total);
    let mut unique: u32 = 0;
    let mut i: usize = 1;
    while i < total
        invariant
            classes_ok(m, swi, next as int, eqs@, seed, fl),
            flat@ == fl,
            total == next,
            next <= n + 1,
            n < u32::MAX,
            1 <= i <= total || total == 1 && i == 1,
            label_map.len() == total,
            unique == roots_below(fl, i as int),
            unique <= i,
            forall|j: int|
                0 <= j < total ==> #[trigger] label_map@[j] == (if 1 <= j < i && fl[j] == j {
                    roots_below(fl, j) + 1
                } else {
                    0
                }),
        decreases total - i,
    {
        let r = flat[i] as usize;
        proof {
            assert(fl[i as int] <= i && fl[fl[i as int] as int] == fl[i as int]);
            if r < i {
                assert(fl[r as int] == r);
                assert(r >= 1);
            }
        }
        let ghost lm0 = label_map@;
        if label_map[r] == 0 {
            proof {
                if r < i {
                    assert(lm0[r as int] == roots_below(fl, r as int) + 1);
                    lemma_roots_below_mono(fl, 0, r as int);
                    assert(false);
                }
            }
            unique = unique + 1;
            label_map.set(r, unique);
        }
        proof {
            assert(roots_below(fl, i as int + 1) == roots_below(fl, i as int) + if fl[i as int] == i {
                1int
            } else {
                0int
            });
            assert forall|j: int| 0 <= j < total implies #[trigger] label_map@[j] == (if 1 <= j < i + 1 && fl[j] == j {
                roots_below(fl, j) + 1
            } else {
                0
            }) by {
                if j != i as int && j != r as int {
                    assert(label_map@[j] == lm0[j]);
                }
            }
        }
        i = i + 1;
    }
    let ghost lm = label_map@;
    proof {
        assert forall|j: int| 0 <= j < n implies #[trigger] labels@[j] < next by {}
        assert forall|j: int| 0 <= j < total implies #[trigger] fl[j] <= j by {}
    }
    let mut out: Vec<u32> = Vec::new();
    let mut q: usize = 0;
    while q < n
        invariant
            n == mask.len(),
            q <= n,
            label_map@ == lm,
            flat@ == fl,
            total == next,
            provisional_ok(m, swi, labels@, next as int, eqs@, seed, n as int),
            classes_ok(m, swi, next as int, eqs@, seed, fl),
            lm.len() == total,
            labels.len() == n,
            flat.len() == total,
            forall|j: int| 0 <= j < n ==> #[trigger] labels@[j] < next,
            forall|j: int| 0 <= j < total ==> #[trigger] fl[j] <= j,
            out.len() == q,
            forall|j: int| 0 <= j < q ==> #[trigger] out@[j] == lm[fl[labels@[j] as int] as int],
        decreases n - q,
    {
        let lq = labels[q] as usize;
        assert(labels@[q as int] < next);
        let rq = flat[lq] as usize;
        assert(fl[lq as int] <= lq);
        out.push(label_map[rq]);
        q = q + 1;
    }
    let ghost outi = as_ints(out@);
    proof {
        let lab = labels@;
        // label_map in closed form
        assert forall|j: int| 0 <= j < total implies #[trigger] lm[j] == (if 1 <= j && fl[j] == j {
            roots_below(fl, j) + 1
        } else {
            0
        }) by {
            if total == 1 {
                assert(j == 0);
            }
        }
        assert forall|p: int| 0 <= p < n implies outi[p] == lm[fl[lab[p] as int] as int] by {
            assert(out@[p] == lm[fl[lab[p] as int] as int]);
        }
        // background and foreground
        assert forall|p: int| 0 <= p < n implies (#[trigger] outi[p] == 0 <==> !m[p]) && outi[p] >= 0 by {
            let lp = lab[p] as int;
            assert(lab[p] < next);
            assert(outi[p] == lm[fl[lp] as int]);
            if m[p] {
                assert(lab[p] != 0);
                assert(fl[lp] >= 1);
                assert(fl[fl[lp] as int] == fl[lp]);
                lemma_roots_below_mono(fl, 0, fl[lp] as int);
            } else {
                assert(lp == 0);
                assert(fl[0] <= 0);
            }
        }
        // same label exactly when connected
        assert forall|p: int, r: int|
            0 <= p < n && 0 <= r < n && m[p] && m[r] implies (#[trigger] outi[p] == #[trigger] outi[r]
            <==> connected(m, swi, p, r)) by {
            let lp = lab[p] as int;
            let lr = lab[r] as int;
            let rp = fl[lp] as int;
            let rr = fl[lr] as int;
            assert(lab[p] < next && lab[r] < next);
            assert(rp >= 1 && fl[rp] == rp);
            assert(rr >= 1 && fl[rr] == rr);
            if connected(m, swi, p, r) {
                let path = choose|path: Seq<int>| #[trigger] is_path(m, swi, path) && path[0] == p && path.last() == r;
                lemma_path_same_class(m, swi, lab, next as int, eqs@, seed, fl, path);
            }
            if outi[p] == outi[r] {
                if rp < rr {
                    lemma_roots_below_strict(fl, rp, rr);
                } else if rr < rp {
                    lemma_roots_below_strict(fl, rr, rp);
                }
                assert(rp == rr);
                assert(connected(m, swi, p, seed[lp]));
                assert(connected(m, swi, r, seed[lr]));
                assert(connected(m, swi, seed[lp], seed[rp]));
                assert(connected(m, swi, seed[lr], seed[rr]));
                lemma_connected_transitive(m, swi, p, seed[lp], seed[rp]);
                lemma_connected_transitive(m, swi, r, seed[lr], seed[rr]);
                lemma_connected_symmetric(m, swi, r, seed[rr]);
                lemma_connected_transitive(m, swi, p, seed[rp], r);
            }
        }
        // numbering in raster order
        assert forall|p: int| 0 <= p < n && m[p] implies #[trigger] outi[p] <= prefix_max(outi, p) + 1 by {
            let lp = lab[p] as int;
            assert(lab[p] < next);
            let rp = fl[lp] as int;
            assert(rp >= 1 && fl[rp] == rp && rp <= lp);
            lemma_prefix_max_nonneg(outi, p);
            if roots_below(fl, rp) > 0 {
                lemma_previous_root(fl, rp);
                let r2 = choose|r2: int| 1 <= r2 < rp && fl[r2] == r2 && #[trigger] roots_below(fl, r2) == roots_below(fl, rp) - 1;
                assert(seed[lp] <= p);
                if rp < lp {
                    assert(seed[rp] < seed[lp]);
                }
                assert(seed[r2] < seed[rp]);
                let c = seed[r2];
                assert(0 <= c < n && lab[c] == r2);
                assert(outi[c] == lm[fl[r2] as int]);
                lemma_prefix_max_ge(outi, p, c);
            }
        }
        assert(is_component_labeling(m, swi, outi));
        lemma_component_labels_is(m, swi, outi);
        // number of components
        assert forall|p: int| 0 <= p < n implies outi[p] <= unique by {
            let lp = lab[p] as int;
            assert(lab[p] < next);
            let rp = fl[lp] as int;
            if rp >= 1 && fl[rp] == rp {
                lemma_roots_below_strict(fl, rp, total as int);
            }
        }
        lemma_prefix_max_le(outi, n as int, unique as int);
        if unique > 0 {
            lemma_previous_root(fl, total as int);
            let r2 = choose|r2: int| 1 <= r2 < total && fl[r2] == r2 && #[trigger] roots_below(fl, r2) == roots_below(fl, total as int) - 1;
            let c = seed[r2];
            assert(0 <= c < n && lab[c] == r2);
            lemma_prefix_max_ge(outi, n as int, c);
        } else {
            lemma_prefix_max_nonneg(outi, n as int);
        }
    }
    (out, unique)
}


// ---------------------------------------------------------------------------
// Uniqueness of the component numbering
// ---------------------------------------------------------------------------

/// The component numbering of a grid (well defined: see
/// `lemma_component_labeling_unique`).
pub open spec fn component_labels(mask: Seq<bool>, sw: int) -> Seq<int> {
    choose|lab: Seq<int>| is_component_labeling(mask, sw, lab)
}

proof fn lemma_labels_consecutive(mask: Seq<bool>, sw: int, lab: Seq<int>, k: int, v: int)
    requires
        is_component_labeling(mask, sw, lab),
        0 <= k <= lab.len(),
        1 <= v <= prefix_max(lab, k),
    ensures
        exists|q: int| 0 <= q < k && #[trigger] lab[q] == v,
    decreases k,
{
    if k > 0 {
        if v <= prefix_max(lab, k - 1) {
            lemma_labels_consecutive(mask, sw, lab, k - 1, v);
            let q = choose|q: int| 0 <= q < k - 1 && #[trigger] lab[q] == v;
            assert(lab[q] == v);
        } else {
            assert(lab[k - 1] == v) by {
                if !mask[k - 1] {
                    assert(lab[k - 1] == 0);
                    lemma_prefix_max_nonneg(lab, k - 1);
                } else {
                    assert(lab[k - 1] <= prefix_max(lab, k - 1) + 1);
                }
            }
        }
    }
}

proof fn lemma_prefix_max_agree(s1: Seq<int>, s2: Seq<int>, n: int)
    requires
        forall|j: int| 0 <= j < n ==> s1[j] == s2[j],
    ensures
        prefix_max(s1, n) == prefix_max(s2, n),
    decreases n,
{
    if n > 0 {
        lemma_prefix_max_agree(s1, s2, n - 1);
    }
}

proof fn lemma_first_cell_label(mask: Seq<bool>, sw: int, lab: Seq<int>, p: int)
    requires
        is_component_labeling(mask, sw, lab),
        0 <= p < lab.len(),
        mask[p],
        forall|q: int| 0 <= q < p && mask[q] ==> !connected(mask, sw, p, q),
    ensures
        lab[p] == prefix_max(lab, p) + 1,
{
    if lab[p] <= prefix_max(lab, p) {
        assert(lab[p] != 0);
        lemma_labels_consecutive(mask, sw, lab, p, lab[p]);
        let q = choose|q: int| 0 <= q < p && #[trigger] lab[q] == lab[p];
        assert(mask[q]);
        assert(lab[p] == lab[q]);
    }
}

proof fn lemma_labelings_agree_below(mask: Seq<bool>, sw: int, lab1: Seq<int>, lab2: Seq<int>, k: int)
    requires
        is_component_labeling(mask, sw, lab1),
        is_component_labeling(mask, sw, lab2),
        0 <= k <= mask.len(),
    ensures
        forall|j: int| 0 <= j < k ==> lab1[j] == lab2[j],
    decreases k,
{
    if k > 0 {
        let p = k - 1;
        lemma_labelings_agree_below(mask, sw, lab1, lab2, p);
        if mask[p] {
            if exists|q: int| 0 <= q < p && mask[q] && connected(mask, sw, p, q) {
                let q = choose|q: int| 0 <= q < p && mask[q] && connected(mask, sw, p, q);
                assert(lab1[p] == lab1[q]);
                assert(lab2[p] == lab2[q]);
            } else {
                lemma_first_cell_label(mask, sw, lab1, p);
                lemma_first_cell_label(mask, sw, lab2, p);
                lemma_prefix_max_agree(lab1, lab2, p);
            }
        } else {
            assert(lab1[p] == 0 && lab2[p] == 0);
        }
    }
}

/// Two numberings of the components of the same grid agree everywhere:
/// the numbering is determined by the set cells alone.
pub proof fn lemma_component_labeling_unique(mask: Seq<bool>, sw: int, lab1: Seq<int>, lab2: Seq<int>)
    requires
        is_component_labeling(mask, sw, lab1),
        is_component_labeling(mask, sw, lab2),
    ensures
        lab1 == lab2,
{
    lemma_labelings_agree_below(mask, sw, lab1, lab2, mask.len() as int);
    assert(lab1 =~= lab2);
}

/// Any numbering of the components is the one `component_labels` names.
pub proof fn lemma_component_labels_is(mask: Seq<bool>, sw: int, lab: Seq<int>)
    requires
        is_component_labeling(mask, sw, lab),
    ensures
        component_labels(mask, sw) == lab,
        is_component_labeling(mask, sw, component_labels(mask, sw)),
{
    lemma_component_labeling_unique(mask, sw, component_labels(mask, sw), lab);
}

} // verus!
