//! The graph of activated bonds and what it means for two sites to be
//! connected.
//!
//! Sites are numbered row by row.  Every site owns up to four bonds, each to
//! a site that comes no later in that order: to its left neighbour, to the
//! neighbour above, and, on the last row and the last column, the two bonds
//! that close the lattice periodically.

use vstd::prelude::*;

verus! {

/// The bonds that one site activates towards sites visited before it.
#[derive(Clone, Copy, Debug, PartialEq, Eq, Structural)]
pub struct SiteBonds {
    /// Bond to the site on the left, in the same row.
    pub left: bool,
    /// Bond to the site above, in the same column.
    pub above: bool,
    /// Bond from the last row to the first row of the same column.
    pub wrap_down: bool,
    /// Bond from the last column to the first column of the same row.
    pub wrap_right: bool,
}

impl SiteBonds {
    /// No bond at all.
    pub open spec fn none() -> SiteBonds {
        SiteBonds { left: false, above: false, wrap_down: false, wrap_right: false }
    }

    /// No bond is active.
    pub open spec fn is_none(self) -> bool {
        !self.left && !self.above && !self.wrap_down && !self.wrap_right
    }

    /// Every bond active in `self` is active in `other`.
    pub open spec fn within(self, other: SiteBonds) -> bool {
        &&& self.left ==> other.left
        &&& self.above ==> other.above
        &&& self.wrap_down ==> other.wrap_down
        &&& self.wrap_right ==> other.wrap_right
    }

    /// The bonds exist on a lattice of `rows` by `cols` sites at the site in
    /// row `y` and column `x`: only the last row and column wrap, and the
    /// first row and column have no neighbour above or to the left.
    pub open spec fn fits(self, rows: int, cols: int, y: int, x: int) -> bool {
        &&& self.left ==> x > 0
        &&& self.above ==> y > 0
        &&& self.wrap_down ==> y == rows - 1
        &&& self.wrap_right ==> x == cols - 1
    }

    /// A site without any active bond.
    pub fn inactive() -> (bonds: Self)
        ensures
            bonds == Self::none(),
    {
        SiteBonds { left: false, above: false, wrap_down: false, wrap_right: false }
    }
}

/// Site `a` has an active bond to site `p`, under the bonds of the sites
/// visited so far on a lattice with `cols` columns.
pub open spec fn links(cols: int, bonds: Seq<SiteBonds>, a: int, p: int) -> bool {
    &&& 0 <= p <= a < bonds.len()
    &&& {
        ||| bonds[a].left && p == a - 1
        ||| bonds[a].above && p == a - cols
        ||| bonds[a].wrap_down && p == a % cols
        ||| bonds[a].wrap_right && p == a - a % cols
    }
}

/// An active bond joins the two sites, in either direction.
pub open spec fn bonded(cols: int, bonds: Seq<SiteBonds>, a: int, b: int) -> bool {
    links(cols, bonds, a, b) || links(cols, bonds, b, a)
}

/// A chain of visited sites in which each is bonded to the next.
pub open spec fn is_path(cols: int, bonds: Seq<SiteBonds>, path: Seq<int>) -> bool {
    &&& path.len() > 0
    &&& forall|i: int| 0 <= i < path.len() ==> 0 <= #[trigger] path[i] < bonds.len()
    &&& forall|i: int|
        0 <= i < path.len() - 1 ==> bonded(cols, bonds, #[trigger] path[i], path[i + 1])
}

/// The sites `a` and `b` are joined by a chain of active bonds.
pub open spec fn connected(cols: int, bonds: Seq<SiteBonds>, a: int, b: int) -> bool {
    exists|path: Seq<int>|
        #[trigger] is_path(cols, bonds, path) && path[0] == a && path[path.len() - 1] == b
}

/// The cluster identifiers `ids` describe the connected components of the
/// bond graph: two visited sites carry the same identifier exactly when a
/// chain of active bonds joins them.
pub open spec fn partition_matches(ids: Seq<int>, cols: int, bonds: Seq<SiteBonds>) -> bool {
    &&& ids.len() == bonds.len()
    &&& forall|a: int, b: int|
        0 <= a < ids.len() && 0 <= b < ids.len() ==> (ids[a] == ids[b] <==> #[trigger] connected(
            cols,
            bonds,
            a,
            b,
        ))
}

/// Every bond of `smaller` is a bond of `larger`.
pub open spec fn bonds_grow(cols: int, smaller: Seq<SiteBonds>, larger: Seq<SiteBonds>) -> bool {
    &&& smaller.len() <= larger.len()
    &&& forall|a: int, p: int| #[trigger]
        links(cols, smaller, a, p) ==> links(cols, larger, a, p)
}

/// A visited site is connected to itself.
pub proof fn lemma_connected_refl(cols: int, bonds: Seq<SiteBonds>, a: int)
    requires
        0 <= a < bonds.len(),
    ensures
        connected(cols, bonds, a, a),
{
    let path = seq![a];
    assert(is_path(cols, bonds, path));
}

/// A bond connects its two ends, in both directions.
pub proof fn lemma_bonded_connected(cols: int, bonds: Seq<SiteBonds>, a: int, b: int)
    requires
        bonded(cols, bonds, a, b),
    ensures
        connected(cols, bonds, a, b),
        connected(cols, bonds, b, a),
{
    let forth = seq![a, b];
    assert(is_path(cols, bonds, forth));
    let back = seq![b, a];
    assert(is_path(cols, bonds, back));
}

/// Connection is transitive.
pub proof fn lemma_connected_trans(cols: int, bonds: Seq<SiteBonds>, a: int, b: int, c: int)
    requires
        connected(cols, bonds, a, b),
        connected(cols, bonds, b, c),
    ensures
        connected(cols, bonds, a, c),
{
    let first = choose|path: Seq<int>|
        #[trigger] is_path(cols, bonds, path) && path[0] == a && path[path.len() - 1] == b;
    let second = choose|path: Seq<int>|
        #[trigger] is_path(cols, bonds, path) && path[0] == b && path[path.len() - 1] == c;
    let joined = first + second.subrange(1, second.len() as int);
    assert(is_path(cols, bonds, joined));
}

/// Adding bonds or sites keeps connected sites connected.
pub proof fn lemma_connected_grows(
    cols: int,
    smaller: Seq<SiteBonds>,
    larger: Seq<SiteBonds>,
    a: int,
    b: int,
)
    requires
        bonds_grow(cols, smaller, larger),
        connected(cols, smaller, a, b),
    ensures
        connected(cols, larger, a, b),
{
    let path = choose|path: Seq<int>|
        #[trigger] is_path(cols, smaller, path) && path[0] == a && path[path.len() - 1] == b;
    assert(is_path(cols, larger, path));
}

/// Identifiers that agree across every bond agree along every chain.
proof fn lemma_path_keeps_id(cols: int, bonds: Seq<SiteBonds>, ids: Seq<int>, path: Seq<int>)
    requires
        ids.len() == bonds.len(),
        forall|u: int, v: int| #[trigger] links(cols, bonds, u, v) ==> ids[u] == ids[v],
        is_path(cols, bonds, path),
    ensures
        ids[path[0]] == ids[path[path.len() - 1]],
    decreases path.len(),
{
    if path.len() > 1 {
        let shorter = path.subrange(0, path.len() - 1);
        lemma_path_keeps_id(cols, bonds, ids, shorter);
    }
}

/// Identifiers that agree across every bond agree on connected sites: no
/// chain of bonds leaves a set of sites that the bonds do not leave.
pub proof fn lemma_connected_keeps_id(
    cols: int,
    bonds: Seq<SiteBonds>,
    ids: Seq<int>,
    a: int,
    b: int,
)
    requires
        ids.len() == bonds.len(),
        forall|u: int, v: int| #[trigger] links(cols, bonds, u, v) ==> ids[u] == ids[v],
        connected(cols, bonds, a, b),
    ensures
        ids[a] == ids[b],
{
    let path = choose|path: Seq<int>|
        #[trigger] is_path(cols, bonds, path) && path[0] == a && path[path.len() - 1] == b;
    lemma_path_keeps_id(cols, bonds, ids, path);
}

/// Under a matching partition the two ends of every bond carry the same
/// identifier.
pub proof fn lemma_partition_respects_links(cols: int, bonds: Seq<SiteBonds>, ids: Seq<int>)
    requires
        partition_matches(ids, cols, bonds),
    ensures
        forall|u: int, v: int| #[trigger] links(cols, bonds, u, v) ==> ids[u] == ids[v],
{
    assert forall|u: int, v: int| #[trigger] links(cols, bonds, u, v) implies ids[u] == ids[v] by {
        lemma_bonded_connected(cols, bonds, u, v);
    }
}

/// Visiting a site without activating any of its bonds adds a cluster of
/// its own, under an identifier that no earlier site carries.
pub proof fn lemma_add_isolated_site(cols: int, bonds: Seq<SiteBonds>, ids: Seq<int>, id: int)
    requires
        partition_matches(ids, cols, bonds),
        forall|a: int| 0 <= a < ids.len() ==> ids[a] != id,
    ensures
        partition_matches(ids.push(id), cols, bonds.push(SiteBonds::none())),
        bonds_grow(cols, bonds, bonds.push(SiteBonds::none())),
{
    let more = bonds.push(SiteBonds::none());
    let more_ids = ids.push(id);
    let last = bonds.len() as int;
    assert forall|u: int, v: int| #[trigger] links(cols, more, u, v) implies links(
        cols,
        bonds,
        u,
        v,
    ) by {}
    lemma_partition_respects_links(cols, bonds, ids);
    assert forall|a: int, b: int| 0 <= a < more_ids.len() && 0 <= b < more_ids.len() implies (
    more_ids[a] == more_ids[b] <==> #[trigger] connected(cols, more, a, b)) by {
        if connected(cols, more, a, b) {
            lemma_connected_keeps_id(cols, more, more_ids, a, b);
        }
        if more_ids[a] == more_ids[b] {
            if a == last || b == last {
                lemma_connected_refl(cols, more, a);
            } else {
                lemma_connected_grows(cols, bonds, more, a, b);
            }
        }
    }
}

/// Visiting a site that activates bonds to the single earlier site `v` puts
/// it into the cluster of `v` and leaves every cluster otherwise as it was.
pub proof fn lemma_add_bonded_site(
    cols: int,
    bonds: Seq<SiteBonds>,
    ids: Seq<int>,
    site_bonds: SiteBonds,
    v: int,
)
    requires
        partition_matches(ids, cols, bonds),
        0 <= v < bonds.len(),
        forall|p: int| #[trigger]
            links(cols, bonds.push(site_bonds), bonds.len() as int, p) <==> p == v,
    ensures
        partition_matches(ids.push(ids[v]), cols, bonds.push(site_bonds)),
        bonds_grow(cols, bonds, bonds.push(site_bonds)),
{
    let more = bonds.push(site_bonds);
    let more_ids = ids.push(ids[v]);
    let last = bonds.len() as int;
    lemma_partition_respects_links(cols, bonds, ids);
    assert forall|a: int, p: int| #[trigger] links(cols, more, a, p) implies more_ids[a]
        == more_ids[p] by {
        if a != last {
            assert(links(cols, bonds, a, p));
        }
    }
    lemma_bonded_connected(cols, more, last, v);
    assert forall|a: int, b: int| 0 <= a < more_ids.len() && 0 <= b < more_ids.len() implies (
    more_ids[a] == more_ids[b] <==> #[trigger] connected(cols, more, a, b)) by {
        if connected(cols, more, a, b) {
            lemma_connected_keeps_id(cols, more, more_ids, a, b);
        }
        if more_ids[a] == more_ids[b] {
            let near_a = if a == last { v } else { a };
            let near_b = if b == last { v } else { b };
            lemma_connected_grows(cols, bonds, more, near_a, near_b);
            if a == last {
                lemma_connected_trans(cols, more, a, near_a, near_b);
            }
            if b == last {
                lemma_connected_trans(cols, more, a, near_b, b);
            }
        }
    }
}

/// Activating one more bond, from site `u` to site `v`, merges the clusters
/// of its two ends under the identifier `id` of one of them and leaves every
/// other cluster as it was.
pub proof fn lemma_add_bond(
    cols: int,
    bonds: Seq<SiteBonds>,
    ids: Seq<int>,
    more: Seq<SiteBonds>,
    more_ids: Seq<int>,
    u: int,
    v: int,
    id: int,
)
    requires
        partition_matches(ids, cols, bonds),
        more.len() == bonds.len(),
        more_ids.len() == ids.len(),
        0 <= v <= u < bonds.len(),
        forall|a: int, p: int| #[trigger]
            links(cols, more, a, p) <==> links(cols, bonds, a, p) || (a == u && p == v),
        id == ids[u] || id == ids[v],
        forall|a: int|
            0 <= a < ids.len() ==> #[trigger] more_ids[a] == if ids[a] == ids[u] || ids[a]
                == ids[v] {
                id
            } else {
                ids[a]
            },
    ensures
        partition_matches(more_ids, cols, more),
        bonds_grow(cols, bonds, more),
{
    lemma_partition_respects_links(cols, bonds, ids);
    lemma_bonded_connected(cols, more, u, v);
    assert forall|a: int, b: int| 0 <= a < more_ids.len() && 0 <= b < more_ids.len() implies (
    more_ids[a] == more_ids[b] <==> #[trigger] connected(cols, more, a, b)) by {
        if connected(cols, more, a, b) {
            lemma_connected_keeps_id(cols, more, more_ids, a, b);
        }
        if more_ids[a] == more_ids[b] {
            if ids[a] == ids[b] {
                lemma_connected_grows(cols, bonds, more, a, b);
            } else {
                // The two sites were in the two clusters that the bond joins.
                let (near_a, near_b) = if ids[a] == ids[u] {
                    (u, v)
                } else {
                    (v, u)
                };
                lemma_connected_grows(cols, bonds, more, a, near_a);
                lemma_connected_grows(cols, bonds, more, near_b, b);
                lemma_connected_trans(cols, more, a, near_a, near_b);
                lemma_connected_trans(cols, more, a, near_b, b);
            }
        }
    }
}

} // verus!
