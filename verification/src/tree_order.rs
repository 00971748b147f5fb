//! The order of fusion trees is a strict total order.

use vstd::prelude::*;

use crate::geometry::{sectors_distinct, trees_distinct, Geometry, Span};
use crate::input::{regions_canonical, trees_ordered};
use crate::sector::{
    flag_numbers, label_numbers, lexicographic, sector_numbers, tree_less, SectorId, Tree,
};

verus! {

proof fn lemma_lexicographic_irreflexive(a: Seq<int>)
    ensures
        !lexicographic(a, a),
    decreases a.len(),
{
    if a.len() > 0 {
        lemma_lexicographic_irreflexive(a.drop_first());
    }
}

proof fn lemma_lexicographic_total(a: Seq<int>, b: Seq<int>)
    ensures
        a == b || lexicographic(a, b) || lexicographic(b, a),
    decreases a.len(),
{
    if a.len() == 0 || b.len() == 0 {
        if a.len() == b.len() {
            assert(a =~= b);
        }
    } else if a[0] == b[0] {
        lemma_lexicographic_total(a.drop_first(), b.drop_first());
        if a.drop_first() == b.drop_first() {
            assert forall|k: int| 0 <= k < a.len() implies a[k] == b[k] by {
                if k > 0 {
                    assert(a.drop_first()[k - 1] == b.drop_first()[k - 1]);
                }
            }
            assert(a.len() == a.drop_first().len() + 1);
            assert(b.len() == b.drop_first().len() + 1);
            assert(a =~= b);
        }
    }
}

proof fn lemma_lexicographic_transitive(a: Seq<int>, b: Seq<int>, c: Seq<int>)
    requires
        lexicographic(a, b),
        lexicographic(b, c),
    ensures
        lexicographic(a, c),
    decreases a.len(),
{
    if a.len() > 0 && b.len() > 0 && c.len() > 0 && a[0] == b[0] && b[0] == c[0] {
        lemma_lexicographic_transitive(a.drop_first(), b.drop_first(), c.drop_first());
    }
}

proof fn lemma_sector_numbers_injective(a: Seq<SectorId>, b: Seq<SectorId>)
    requires
        sector_numbers(a) == sector_numbers(b),
    ensures
        a == b,
{
    assert(a.len() == sector_numbers(a).len());
    assert(b.len() == sector_numbers(b).len());
    assert forall|k: int| 0 <= k < a.len() implies a[k] == b[k] by {
        assert(sector_numbers(a)[k] == a[k].id);
        assert(sector_numbers(b)[k] == b[k].id);
    }
    assert(a =~= b);
}

proof fn lemma_flag_numbers_injective(a: Seq<bool>, b: Seq<bool>)
    requires
        flag_numbers(a) == flag_numbers(b),
    ensures
        a == b,
{
    assert(a.len() == flag_numbers(a).len());
    assert(b.len() == flag_numbers(b).len());
    assert forall|k: int| 0 <= k < a.len() implies a[k] == b[k] by {
        assert(flag_numbers(a)[k] == (if a[k] { 1int } else { 0int }));
        assert(flag_numbers(b)[k] == (if b[k] { 1int } else { 0int }));
    }
    assert(a =~= b);
}

proof fn lemma_label_numbers_injective(a: Seq<usize>, b: Seq<usize>)
    requires
        label_numbers(a) == label_numbers(b),
    ensures
        a == b,
{
    assert(a.len() == label_numbers(a).len());
    assert(b.len() == label_numbers(b).len());
    assert forall|k: int| 0 <= k < a.len() implies a[k] == b[k] by {
        assert(label_numbers(a)[k] == a[k]);
        assert(label_numbers(b)[k] == b[k]);
    }
    assert(a =~= b);
}

/// No tree comes before itself.
pub proof fn lemma_tree_less_irreflexive(a: Tree)
    ensures
        !tree_less(a, a),
{
    lemma_lexicographic_irreflexive(label_numbers(a.vertices));
}

/// Of two different trees one comes before the other.
pub proof fn lemma_tree_less_total(a: Tree, b: Tree)
    ensures
        a == b || tree_less(a, b) || tree_less(b, a),
{
    lemma_lexicographic_total(sector_numbers(a.uncoupled), sector_numbers(b.uncoupled));
    lemma_lexicographic_total(flag_numbers(a.is_dual), flag_numbers(b.is_dual));
    lemma_lexicographic_total(sector_numbers(a.innerlines), sector_numbers(b.innerlines));
    lemma_lexicographic_total(label_numbers(a.vertices), label_numbers(b.vertices));
    if sector_numbers(a.uncoupled) == sector_numbers(b.uncoupled) {
        lemma_sector_numbers_injective(a.uncoupled, b.uncoupled);
    }
    if flag_numbers(a.is_dual) == flag_numbers(b.is_dual) {
        lemma_flag_numbers_injective(a.is_dual, b.is_dual);
    }
    if sector_numbers(a.innerlines) == sector_numbers(b.innerlines) {
        lemma_sector_numbers_injective(a.innerlines, b.innerlines);
    }
    if label_numbers(a.vertices) == label_numbers(b.vertices) {
        lemma_label_numbers_injective(a.vertices, b.vertices);
    }
}

/// A tree before a second one that is before a third one is before the third.
pub proof fn lemma_tree_less_transitive(a: Tree, b: Tree, c: Tree)
    requires
        tree_less(a, b),
        tree_less(b, c),
    ensures
        tree_less(a, c),
{
    if a.uncoupled != b.uncoupled && b.uncoupled != c.uncoupled {
        lemma_lexicographic_transitive(
            sector_numbers(a.uncoupled),
            sector_numbers(b.uncoupled),
            sector_numbers(c.uncoupled),
        );
        lemma_lexicographic_irreflexive(sector_numbers(a.uncoupled));
    } else if a.uncoupled == b.uncoupled && b.uncoupled == c.uncoupled {
        if a.coupled == b.coupled && b.coupled == c.coupled {
            if a.is_dual != b.is_dual && b.is_dual != c.is_dual {
                lemma_lexicographic_transitive(
                    flag_numbers(a.is_dual),
                    flag_numbers(b.is_dual),
                    flag_numbers(c.is_dual),
                );
                lemma_lexicographic_irreflexive(flag_numbers(a.is_dual));
            } else if a.is_dual == b.is_dual && b.is_dual == c.is_dual {
                if a.innerlines != b.innerlines && b.innerlines != c.innerlines {
                    lemma_lexicographic_transitive(
                        sector_numbers(a.innerlines),
                        sector_numbers(b.innerlines),
                        sector_numbers(c.innerlines),
                    );
                    lemma_lexicographic_irreflexive(sector_numbers(a.innerlines));
                } else if a.innerlines == b.innerlines && b.innerlines == c.innerlines {
                    lemma_lexicographic_transitive(
                        label_numbers(a.vertices),
                        label_numbers(b.vertices),
                        label_numbers(c.vertices),
                    );
                }
            }
        }
    }
}

proof fn lemma_ascending_steps(trees: Seq<Span>, j: int, k: int)
    requires
        trees_ordered(trees),
        0 <= j < k < trees.len(),
    ensures
        tree_less(trees[j].tree, trees[k].tree),
    decreases k - j,
{
    assert(tree_less(trees[k - 1].tree, trees[k - 1 + 1].tree));
    if j < k - 1 {
        lemma_ascending_steps(trees, j, k - 1);
        lemma_tree_less_transitive(trees[j].tree, trees[k - 1].tree, trees[k].tree);
    }
}

/// A basis in ascending order has no tree twice.
pub proof fn lemma_ascending_trees_distinct(trees: Seq<Span>)
    requires
        trees_ordered(trees),
    ensures
        trees_distinct(trees),
{
    assert forall|j: int, k: int| 0 <= j < k < trees.len() implies (#[trigger] trees[j]).tree != (
    #[trigger] trees[k]).tree by {
        lemma_ascending_steps(trees, j, k);
        lemma_tree_less_irreflexive(trees[j].tree);
    }
}

proof fn lemma_sectors_ascend(regions: Seq<Geometry>, j: int, k: int)
    requires
        regions_canonical(regions),
        0 <= j < k < regions.len(),
    ensures
        regions[j].sector.id < regions[k].sector.id,
    decreases k - j,
{
    assert(regions[k - 1].sector.id < regions[k - 1 + 1].sector.id);
    if j < k - 1 {
        lemma_sectors_ascend(regions, j, k - 1);
    }
}

/// Canonical regions name every sector once, and every tree of a sector once
/// on each side.
pub proof fn lemma_canonical_regions_distinct(regions: Seq<Geometry>)
    requires
        regions_canonical(regions),
    ensures
        sectors_distinct(regions),
        forall|k: int|
            0 <= k < regions.len() ==> trees_distinct((#[trigger] regions[k]).row_trees)
                && trees_distinct(regions[k].col_trees),
{
    assert forall|j: int, k: int| 0 <= j < k < regions.len() implies (#[trigger] regions[j]).sector
        != (#[trigger] regions[k]).sector by {
        lemma_sectors_ascend(regions, j, k);
    }
    assert forall|k: int| 0 <= k < regions.len() implies trees_distinct(
        (#[trigger] regions[k]).row_trees,
    ) && trees_distinct(regions[k].col_trees) by {
        lemma_ascending_trees_distinct(regions[k].row_trees);
        lemma_ascending_trees_distinct(regions[k].col_trees);
    }
}

} // verus!
