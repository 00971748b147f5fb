//! What LQs, and factorizations whose labels were checked, are in every sector, with
//! exact backends.

use vstd::prelude::*;

use crate::bond::bond_of_pairs;
use crate::canonical::pair_ranks;
use crate::compact_drive::{
    are_svd_pairs, are_svd_spectra, input_geometries, labelled_factors_published, pairs_found,
    svds_published,
};
use crate::completion::QrStage;
use crate::completion_laws::factors_exactly;
use crate::direct::RouteFactors;
use crate::driver_laws::{holds_factor, is_output, is_source, lemma_geometry_count};
use crate::eigen_drive::{are_vector_factors, eigenvectors_scattered};
use crate::eigen_full::EigenStage;
use crate::eigen_laws::is_eigensystem;
use crate::equivalence::lemma_canonical_pair_is_scatter;
use crate::error::OperationError;
use crate::exact::conjugates_in;
use crate::factor::{FactorPair, FactorPlacement};
use crate::full_drive::published_on_bond;
use crate::geometry::{trees_distinct, Geometry};
use crate::index_laws::{index_position, indexes};
use crate::input::InputMatricizations;
use crate::layout::FactorSide;
use crate::lq_drive::{
    adjoint_extent, full_lqs_published, labelled_lqs_published, lq_pairs_found, lqs_published,
};
use crate::pair::{pair_canonical, published_pair, scatter_one_side, SectorFactor};
use crate::pair_drive::{labels_published, own_labels, right_labels_published};
use crate::product_laws::{lemma_input_shape, lemma_svd_pairs_decompose, splits_exactly};
use crate::publication_laws::{
    lemma_found_pairs, lemma_pairs_published, pair_multiplies, pairs_multiply, sector_multiplies,
};
use crate::ring::{matrix, Matrix, Ring};
use crate::scatter_laws::{
    cell_of, has_tree_at, lemma_scattered_factor_by_index, lemma_scattered_pair_by_index,
};
use crate::sides::{lays_out, sides_published, DriveError, FactorsOnSpaces, Publication};
use crate::space::{MapSpace, SectorLeg};
use crate::spectrum::SectorSpectrum;
use crate::stages::{factored_until, input_holds, sector_input, BondExtent};
use crate::structure::BlockStructure;
use crate::svd_laws::is_svd_of;
use crate::svd_stage::SvdStage;
use crate::tensor_laws::{as_scalars, decomposes_exactly};
use crate::vector_laws::{diagonalizes_exactly, lemma_lq_pairs_multiply};

verus! {

/// LQs that an exact backend gave multiply to the sectors.
proof fn lemma_found_lqs<
    D,
    C: Fn(D) -> D,
    F: Fn(&[D], usize, usize) -> Result<QrStage<D>, OperationError>,
>(
    ring: Ring<D>,
    pairs: Seq<FactorPair<D>>,
    input: InputMatricizations<'_, D>,
    bond: BondExtent,
    conjugate: C,
    qr: F,
)
    requires
        ring.is_ring(),
        conjugates_in(ring, conjugate),
        factors_exactly(ring, qr, adjoint_extent(bond)),
        input_holds(input),
        lq_pairs_found(pairs, input, bond, conjugate, qr),
    ensures
        pairs_multiply(ring, pairs, input),
{
    let stages = choose|stages: Seq<RouteFactors<D>>|
        {
            &&& #[trigger] crate::lq_drive::lqs_until(stages, None, input, bond, conjugate, qr)
            &&& pairs.len() == stages.len()
        };
    assert(pairs.len() == input.spec_len());
    assert forall|k: int| 0 <= k < pairs.len() implies pair_multiplies(
        ring,
        #[trigger] pairs[k],
        input,
        k,
    ) by {
        lemma_lq_pairs_multiply(ring, pairs, input, bond, conjugate, qr, k);
    }
}

/// The published compact LQ of a tensor multiplies to it in every sector.
pub proof fn lemma_published_lq_multiplies<
    D,
    X,
    C: Fn(D) -> D,
    F: Fn(&[D], usize, usize) -> Result<QrStage<D>, OperationError>,
    G: Fn(&SectorLeg) -> Result<MapSpace, X>,
    H: Fn(&SectorLeg) -> Result<MapSpace, X>,
>(
    ring: Ring<D>,
    found: FactorsOnSpaces<D>,
    input: InputMatricizations<'_, D>,
    conjugate: C,
    qr: F,
    left_layout: G,
    right_layout: H,
    one: D,
    k: int,
)
    requires
        ring.is_ring(),
        conjugates_in(ring, conjugate),
        factors_exactly(ring, qr, BondExtent::Compact),
        input_holds(input),
        lqs_published(
            Ok::<FactorsOnSpaces<D>, DriveError<X>>(found),
            input,
            conjugate,
            qr,
            left_layout,
            right_layout,
            ring.zero,
            one,
        ),
        is_output(found.left_space.structure, FactorSide::Left),
        is_output(found.right_space.structure, FactorSide::Right),
        is_source(input_geometries(input), FactorSide::Left),
        is_source(input_geometries(input), FactorSide::Right),
        0 <= k < input.spec_len(),
    ensures
        sector_multiplies(ring, found, input, k),
{
    let all = input_geometries(input);
    let pairs = choose|pairs: Seq<FactorPair<D>>|
        {
            &&& #[trigger] lq_pairs_found(pairs, input, BondExtent::Compact, conjugate, qr)
            &&& sides_published(
                Ok::<FactorsOnSpaces<D>, DriveError<X>>(found),
                left_layout,
                right_layout,
                all,
                pairs,
                bond_of_pairs(pairs),
                bond_of_pairs(pairs),
                Publication::Plain(FactorPlacement::Direct),
                ring.zero,
                one,
            )
        };
    lemma_found_lqs(ring, pairs, input, BondExtent::Compact, conjugate, qr);
    lemma_pairs_published(
        ring,
        found,
        input,
        pairs,
        bond_of_pairs(pairs),
        left_layout,
        right_layout,
        one,
        k,
    );
}

/// The published full LQ of a tensor multiplies to it in every sector.
pub proof fn lemma_published_full_lq_multiplies<
    D,
    X,
    C: Fn(D) -> D,
    F: Fn(&[D], usize, usize) -> Result<QrStage<D>, OperationError>,
    B: Fn() -> Result<crate::bond::BondDimensions, X>,
    G: Fn(&SectorLeg) -> Result<MapSpace, X>,
    H: Fn(&SectorLeg) -> Result<MapSpace, X>,
>(
    ring: Ring<D>,
    found: FactorsOnSpaces<D>,
    input: InputMatricizations<'_, D>,
    conjugate: C,
    qr: F,
    dimensions: B,
    left_layout: G,
    right_layout: H,
    one: D,
    k: int,
)
    requires
        ring.is_ring(),
        conjugates_in(ring, conjugate),
        factors_exactly(ring, qr, BondExtent::Rows),
        input_holds(input),
        full_lqs_published(
            Ok::<FactorsOnSpaces<D>, DriveError<X>>(found),
            input,
            conjugate,
            qr,
            dimensions,
            left_layout,
            right_layout,
            ring.zero,
            one,
        ),
        is_output(found.left_space.structure, FactorSide::Left),
        is_output(found.right_space.structure, FactorSide::Right),
        is_source(input_geometries(input), FactorSide::Left),
        is_source(input_geometries(input), FactorSide::Right),
        0 <= k < input.spec_len(),
    ensures
        sector_multiplies(ring, found, input, k),
{
    let all = input_geometries(input);
    let result = Ok::<FactorsOnSpaces<D>, DriveError<X>>(found);
    let pairs = choose|pairs: Seq<FactorPair<D>>|
        {
            &&& #[trigger] lq_pairs_found(pairs, input, BondExtent::Cols, conjugate, qr)
            &&& published_on_bond(
                result,
                all,
                pairs,
                dimensions,
                left_layout,
                right_layout,
                ring.zero,
                one,
            )
        };
    let answer = choose|answer: Result<crate::bond::BondDimensions, X>|
        {
            &&& #[trigger] call_ensures(dimensions, (), answer)
            &&& match answer {
                Err(error) => result == Err::<FactorsOnSpaces<D>, DriveError<X>>(
                    DriveError::Layout(error),
                ),
                Ok(given) => sides_published(
                    result,
                    left_layout,
                    right_layout,
                    all,
                    pairs,
                    given@,
                    given@,
                    Publication::Plain(FactorPlacement::Direct),
                    ring.zero,
                    one,
                ),
            }
        };
    lemma_found_lqs(ring, pairs, input, BondExtent::Cols, conjugate, qr);
    lemma_pairs_published(
        ring,
        found,
        input,
        pairs,
        answer->Ok_0@,
        left_layout,
        right_layout,
        one,
        k,
    );
}

/// Pairs that were published after their labels were checked: both spaces were
/// given for the ranks of the pairs, and hold both factors of every pair.
pub proof fn lemma_labelled_pairs_hold<
    D,
    X,
    G: Fn(&SectorLeg) -> Result<MapSpace, X>,
    H: Fn(&SectorLeg) -> Result<MapSpace, X>,
>(
    found: FactorsOnSpaces<D>,
    left_layout: G,
    right_layout: H,
    geometries: Seq<Geometry>,
    pairs: Seq<FactorPair<D>>,
    zero: D,
    at: int,
    cols: int,
)
    requires
        labels_published(
            Ok::<FactorsOnSpaces<D>, DriveError<X>>(found),
            left_layout,
            right_layout,
            geometries,
            pairs,
            zero,
        ),
        is_output(found.left_space.structure, FactorSide::Left),
        is_output(found.right_space.structure, FactorSide::Right),
        is_source(geometries, FactorSide::Left),
        is_source(geometries, FactorSide::Right),
        pairs.len() <= geometries.len(),
        0 <= at < pairs.len(),
    ensures
        lays_out(left_layout, pair_ranks(pairs), Ok::<MapSpace, X>(found.left_space)),
        lays_out(right_layout, pair_ranks(pairs), Ok::<MapSpace, X>(found.right_space)),
        holds_factor(
            found.left@,
            found.left_space.structure,
            geometries,
            FactorSide::Left,
            at,
            matrix(pairs[at].left_rows as int, pairs[at].kept as int, pairs[at].left@),
        ),
        holds_factor(
            found.right@,
            found.right_space.structure,
            geometries,
            FactorSide::Right,
            at,
            matrix(pairs[at].right_leading as int, cols, pairs[at].right@),
        ),
{
    let result = Ok::<FactorsOnSpaces<D>, DriveError<X>>(found);
    let left_answer = choose|answer: Result<MapSpace, X>|
        {
            &&& #[trigger] lays_out(left_layout, pair_ranks(pairs), answer)
            &&& match answer {
                Err(error) => result == Err::<FactorsOnSpaces<D>, DriveError<X>>(
                    DriveError::Layout(error),
                ),
                Ok(left) => match crate::keys::first_refusal(
                    geometries,
                    FactorSide::Left,
                    own_labels(left.structure),
                    0,
                ) {
                    Some(error) => result == Err::<FactorsOnSpaces<D>, DriveError<X>>(
                        DriveError::Operation(error),
                    ),
                    None => right_labels_published(
                        result,
                        left,
                        right_layout,
                        geometries,
                        pairs,
                        zero,
                    ),
                },
            }
        };
    let left = left_answer->Ok_0;
    let right_answer = choose|answer: Result<MapSpace, X>|
        {
            &&& #[trigger] lays_out(right_layout, pair_ranks(pairs), answer)
            &&& match answer {
                Err(error) => result == Err::<FactorsOnSpaces<D>, DriveError<X>>(
                    DriveError::Layout(error),
                ),
                Ok(right) => match published_pair(
                    left.structure,
                    own_labels(left.structure),
                    right.structure,
                    own_labels(right.structure),
                    false,
                    geometries,
                    pairs,
                    zero,
                ) {
                    Err(error) => result == Err::<FactorsOnSpaces<D>, DriveError<X>>(
                        DriveError::Operation(error),
                    ),
                    Ok(data) => {
                        &&& result is Ok
                        &&& result->Ok_0.left_space == left
                        &&& result->Ok_0.left@ == data.left
                        &&& result->Ok_0.right_space == right
                        &&& result->Ok_0.right@ == data.right
                    },
                },
            }
        };
    let (ls, rs) = (found.left_space.structure, found.right_space.structure);
    if pair_canonical(ls, own_labels(ls), rs, own_labels(rs), false, geometries, pairs) {
        assert forall|k: int| 0 <= k < geometries.len() implies trees_distinct(
            (#[trigger] geometries[k]).row_trees,
        ) && trees_distinct(geometries[k].col_trees) by {
            assert(trees_distinct(geometries[k].trees(FactorSide::Left)));
            assert(trees_distinct(geometries[k].trees(FactorSide::Right)));
        }
        lemma_canonical_pair_is_scatter(ls, None, rs, None, geometries, pairs, zero);
    }
    lemma_scattered_pairs_hold(
        found.left@,
        found.right@,
        ls,
        rs,
        geometries,
        pairs,
        zero,
        at,
        cols,
    );
}

/// Scattered pairs hold both factors of every pair.
proof fn lemma_scattered_pairs_hold<D>(
    left: Seq<D>,
    right: Seq<D>,
    ls: BlockStructure,
    rs: BlockStructure,
    geometries: Seq<Geometry>,
    pairs: Seq<FactorPair<D>>,
    zero: D,
    at: int,
    cols: int,
)
    requires
        is_output(ls, FactorSide::Left),
        is_output(rs, FactorSide::Right),
        is_source(geometries, FactorSide::Left),
        is_source(geometries, FactorSide::Right),
        pairs.len() <= geometries.len(),
        0 <= at < pairs.len(),
        ({
            let scatter = crate::pair::scatter_pairs(
                ls.spec_blocks(),
                rs.spec_blocks(),
                geometries,
                pairs,
                pairs.len() as int,
            );
            &&& scatter is Ok
            &&& left == crate::writes::apply_writes(
                crate::publish::zeros(zero, ls.spec_len() as int),
                scatter->Ok_0.left,
            )
            &&& right == crate::writes::apply_writes(
                crate::publish::zeros(zero, rs.spec_len() as int),
                scatter->Ok_0.right,
            )
        }),
    ensures
        holds_factor(
            left,
            ls,
            geometries,
            FactorSide::Left,
            at,
            matrix(pairs[at].left_rows as int, pairs[at].kept as int, pairs[at].left@),
        ),
        holds_factor(
            right,
            rs,
            geometries,
            FactorSide::Right,
            at,
            matrix(pairs[at].right_leading as int, cols, pairs[at].right@),
        ),
{
    assert forall|b: int, t: int, index: Seq<int>|
        {
            &&& 0 <= b < ls.spec_blocks().len()
            &&& #[trigger] has_tree_at(ls.spec_blocks()[b], geometries, FactorSide::Left, at, t)
            &&& #[trigger] indexes(index, ls.spec_blocks()[b].shape@)
        } implies left[index_position(ls.spec_blocks()[b], index)] == cell_of(
        pairs[at].left@,
        pairs[at].left_rows as int,
        pairs[at].kept as int,
        FactorSide::Left,
        geometries[at].trees(FactorSide::Left)[t].offset as int,
        ls.spec_blocks()[b],
        index,
    ) by {
        assert(trees_distinct(geometries[at].trees(FactorSide::Left)));
        lemma_scattered_pair_by_index(
            ls,
            rs,
            geometries,
            pairs,
            zero,
            FactorSide::Left,
            pairs[at].kept as int,
            at,
            t,
            b,
            index,
        );
    }
    assert forall|b: int, t: int, index: Seq<int>|
        {
            &&& 0 <= b < rs.spec_blocks().len()
            &&& #[trigger] has_tree_at(rs.spec_blocks()[b], geometries, FactorSide::Right, at, t)
            &&& #[trigger] indexes(index, rs.spec_blocks()[b].shape@)
        } implies right[index_position(rs.spec_blocks()[b], index)] == cell_of(
        pairs[at].right@,
        pairs[at].right_leading as int,
        cols,
        FactorSide::Right,
        geometries[at].trees(FactorSide::Right)[t].offset as int,
        rs.spec_blocks()[b],
        index,
    ) by {
        assert(trees_distinct(geometries[at].trees(FactorSide::Right)));
        lemma_scattered_pair_by_index(
            ls,
            rs,
            geometries,
            pairs,
            zero,
            FactorSide::Right,
            cols,
            at,
            t,
            b,
            index,
        );
    }
}

/// Pairs that multiply to the sectors do so when they are published with checked
/// labels.
proof fn lemma_labelled_pairs_multiply<
    D,
    X,
    G: Fn(&SectorLeg) -> Result<MapSpace, X>,
    H: Fn(&SectorLeg) -> Result<MapSpace, X>,
>(
    ring: Ring<D>,
    found: FactorsOnSpaces<D>,
    input: InputMatricizations<'_, D>,
    pairs: Seq<FactorPair<D>>,
    left_layout: G,
    right_layout: H,
    k: int,
)
    requires
        pairs_multiply(ring, pairs, input),
        labels_published(
            Ok::<FactorsOnSpaces<D>, DriveError<X>>(found),
            left_layout,
            right_layout,
            input_geometries(input),
            pairs,
            ring.zero,
        ),
        is_output(found.left_space.structure, FactorSide::Left),
        is_output(found.right_space.structure, FactorSide::Right),
        is_source(input_geometries(input), FactorSide::Left),
        is_source(input_geometries(input), FactorSide::Right),
        0 <= k < input.spec_len(),
    ensures
        sector_multiplies(ring, found, input, k),
{
    lemma_geometry_count(input);
    let source = sector_input(input, k)->Ok_0;
    let pair = pairs[k];
    assert(pair_multiplies(ring, pairs[k], input, k));
    lemma_labelled_pairs_hold(
        found,
        left_layout,
        right_layout,
        input_geometries(input),
        pairs,
        ring.zero,
        k,
        source.cols as int,
    );
    let l = matrix(pair.left_rows as int, pair.kept as int, pair.left@);
    let r = matrix(pair.right_leading as int, source.cols as int, pair.right@);
    assert(ring.mul(l, r) == matrix(source.rows as int, source.cols as int, source.data));
}

/// A factorization whose labels were checked multiplies to the tensor in every
/// sector.
pub proof fn lemma_labelled_factors_multiply<
    D,
    X,
    F: Fn(&[D], usize, usize) -> Result<RouteFactors<D>, OperationError>,
    G: Fn(&SectorLeg) -> Result<MapSpace, X>,
    H: Fn(&SectorLeg) -> Result<MapSpace, X>,
>(
    ring: Ring<D>,
    found: FactorsOnSpaces<D>,
    input: InputMatricizations<'_, D>,
    factorize: F,
    bond: BondExtent,
    left_layout: G,
    right_layout: H,
    k: int,
)
    requires
        splits_exactly(ring, factorize, bond),
        labelled_factors_published(
            Ok::<FactorsOnSpaces<D>, DriveError<X>>(found),
            input,
            factorize,
            bond,
            left_layout,
            right_layout,
            ring.zero,
        ),
        is_output(found.left_space.structure, FactorSide::Left),
        is_output(found.right_space.structure, FactorSide::Right),
        is_source(input_geometries(input), FactorSide::Left),
        is_source(input_geometries(input), FactorSide::Right),
        0 <= k < input.spec_len(),
    ensures
        sector_multiplies(ring, found, input, k),
{
    let pairs = choose|pairs: Seq<FactorPair<D>>|
        {
            &&& #[trigger] pairs_found(pairs, input, factorize, bond)
            &&& labels_published(
                Ok::<FactorsOnSpaces<D>, DriveError<X>>(found),
                left_layout,
                right_layout,
                input_geometries(input),
                pairs,
                ring.zero,
            )
        };
    lemma_found_pairs(ring, pairs, input, factorize, bond);
    lemma_labelled_pairs_multiply(ring, found, input, pairs, left_layout, right_layout, k);
}

/// An LQ whose labels were checked multiplies to the tensor in every sector.
pub proof fn lemma_labelled_lq_multiplies<
    D,
    X,
    C: Fn(D) -> D,
    F: Fn(&[D], usize, usize) -> Result<QrStage<D>, OperationError>,
    G: Fn(&SectorLeg) -> Result<MapSpace, X>,
    H: Fn(&SectorLeg) -> Result<MapSpace, X>,
>(
    ring: Ring<D>,
    found: FactorsOnSpaces<D>,
    input: InputMatricizations<'_, D>,
    bond: BondExtent,
    conjugate: C,
    qr: F,
    left_layout: G,
    right_layout: H,
    k: int,
)
    requires
        ring.is_ring(),
        conjugates_in(ring, conjugate),
        factors_exactly(ring, qr, adjoint_extent(bond)),
        input_holds(input),
        labelled_lqs_published(
            Ok::<FactorsOnSpaces<D>, DriveError<X>>(found),
            input,
            bond,
            conjugate,
            qr,
            left_layout,
            right_layout,
            ring.zero,
        ),
        is_output(found.left_space.structure, FactorSide::Left),
        is_output(found.right_space.structure, FactorSide::Right),
        is_source(input_geometries(input), FactorSide::Left),
        is_source(input_geometries(input), FactorSide::Right),
        0 <= k < input.spec_len(),
    ensures
        sector_multiplies(ring, found, input, k),
{
    let pairs = choose|pairs: Seq<FactorPair<D>>|
        {
            &&& #[trigger] lq_pairs_found(pairs, input, bond, conjugate, qr)
            &&& labels_published(
                Ok::<FactorsOnSpaces<D>, DriveError<X>>(found),
                left_layout,
                right_layout,
                input_geometries(input),
                pairs,
                ring.zero,
            )
        };
    lemma_found_lqs(ring, pairs, input, bond, conjugate, qr);
    lemma_labelled_pairs_multiply(ring, found, input, pairs, left_layout, right_layout, k);
}

/// A compact SVD whose labels were checked: in every sector both spaces hold
/// factors that are, with the values listed for the sector, an SVD of the sector's
/// own matrix.
pub proof fn lemma_labelled_svd_decomposes<
    D,
    V,
    X,
    F: Fn(&[D], usize, usize) -> Result<SvdStage<D, V>, OperationError>,
    G: Fn(&SectorLeg) -> Result<MapSpace, X>,
    H: Fn(&SectorLeg) -> Result<MapSpace, X>,
>(
    ring: Ring<D>,
    to_scalar: spec_fn(V) -> D,
    found: FactorsOnSpaces<D>,
    values: Vec<SectorSpectrum<V>>,
    input: InputMatricizations<'_, D>,
    svd: F,
    left_layout: G,
    right_layout: H,
    k: int,
)
    requires
        decomposes_exactly(ring, svd, to_scalar),
        svds_published(
            Ok::<(FactorsOnSpaces<D>, Vec<SectorSpectrum<V>>), DriveError<X>>((found, values)),
            input,
            svd,
            left_layout,
            right_layout,
            ring.zero,
        ),
        is_output(found.left_space.structure, FactorSide::Left),
        is_output(found.right_space.structure, FactorSide::Right),
        is_source(input_geometries(input), FactorSide::Left),
        is_source(input_geometries(input), FactorSide::Right),
        0 <= k < input.spec_len(),
    ensures
        sector_input(input, k) is Ok,
        values@.len() == input.spec_len(),
        values@[k].sector == input_geometries(input)[k].sector,
        exists|u: Matrix<D>, vh: Matrix<D>|
            {
                &&& #[trigger] is_svd_of(
                    ring,
                    matrix(
                        sector_input(input, k)->Ok_0.rows as int,
                        sector_input(input, k)->Ok_0.cols as int,
                        sector_input(input, k)->Ok_0.data,
                    ),
                    u,
                    as_scalars(values@[k].values@, to_scalar),
                    vh,
                )
                &&& holds_factor(
                    found.left@,
                    found.left_space.structure,
                    input_geometries(input),
                    FactorSide::Left,
                    k,
                    u,
                )
                &&& holds_factor(
                    found.right@,
                    found.right_space.structure,
                    input_geometries(input),
                    FactorSide::Right,
                    k,
                    vh,
                )
            },
{
    let all = input_geometries(input);
    let (stages, pairs) = choose|stages: Seq<SvdStage<D, V>>, pairs: Seq<FactorPair<D>>|
        {
            &&& #[trigger] factored_until(stages, None, input, svd)
            &&& #[trigger] are_svd_pairs(pairs, all, stages)
            &&& labels_published(
                Ok::<FactorsOnSpaces<D>, DriveError<X>>(found),
                left_layout,
                right_layout,
                all,
                pairs,
                ring.zero,
            )
            &&& are_svd_spectra(values@, all, stages)
        };
    lemma_geometry_count(input);
    lemma_svd_pairs_decompose(ring, to_scalar, stages, pairs, values@, input, svd, k);
    let source = sector_input(input, k)->Ok_0;
    lemma_labelled_pairs_hold(
        found,
        left_layout,
        right_layout,
        all,
        pairs,
        ring.zero,
        k,
        source.cols as int,
    );
    let u = matrix(pairs[k].left_rows as int, pairs[k].kept as int, pairs[k].left@);
    let vh = matrix(pairs[k].right_leading as int, source.cols as int, pairs[k].right@);
    assert(is_svd_of(
        ring,
        matrix(
            sector_input(input, k)->Ok_0.rows as int,
            sector_input(input, k)->Ok_0.cols as int,
            sector_input(input, k)->Ok_0.data,
        ),
        u,
        as_scalars(values@[k].values@, to_scalar),
        vh,
    ));
}

/// The scattered eigendecomposition of a tensor: in every square sector the output
/// holds vectors that are, with the values listed for the sector, an eigensystem
/// of the sector's own matrix.
pub proof fn lemma_scattered_eigensystem<
    D,
    V,
    F: Fn(&[D], usize, usize) -> Result<EigenStage<D, V>, OperationError>,
>(
    ring: Ring<D>,
    to_scalar: spec_fn(V) -> D,
    found: (Vec<D>, Vec<SectorSpectrum<V>>),
    structure: BlockStructure,
    input: InputMatricizations<'_, D>,
    eigen: F,
    k: int,
)
    requires
        diagonalizes_exactly(ring, eigen, to_scalar),
        eigenvectors_scattered(Ok(found), structure, input, eigen, ring.zero),
        is_output(structure, FactorSide::Left),
        is_source(input_geometries(input), FactorSide::Left),
        0 <= k < input.spec_len(),
        input_geometries(input)[k].rows == input_geometries(input)[k].cols,
    ensures
        sector_input(input, k) is Ok,
        found.1@.len() == input.spec_len(),
        found.1@[k].sector == input_geometries(input)[k].sector,
        exists|v: Matrix<D>|
            {
                &&& #[trigger] is_eigensystem(
                    ring,
                    matrix(
                        sector_input(input, k)->Ok_0.rows as int,
                        sector_input(input, k)->Ok_0.cols as int,
                        sector_input(input, k)->Ok_0.data,
                    ),
                    v,
                    as_scalars(found.1@[k].values@, to_scalar),
                )
                &&& holds_factor(
                    found.0@,
                    structure,
                    input_geometries(input),
                    FactorSide::Left,
                    k,
                    v,
                )
            },
{
    let all = input_geometries(input);
    let (stages, failure, factors) = choose|
        stages: Seq<EigenStage<D, V>>,
        failure: Option<OperationError>,
        factors: Seq<SectorFactor<D>>,
    |
        {
            &&& #[trigger] factored_until(stages, failure, input, eigen)
            &&& #[trigger] are_vector_factors(factors, all, stages)
            &&& match (scatter_one_side(
                structure.spec_blocks(),
                all,
                factors,
                FactorSide::Left,
                factors.len() as int,
            ), failure) {
                (Ok(writes), None) => {
                    &&& found.0@ == crate::writes::apply_writes(
                        crate::publish::zeros(ring.zero, structure.spec_len() as int),
                        writes,
                    )
                    &&& found.1@ == crate::eigen_full::eigen_spectra(all, stages)
                },
                _ => false,
            }
        };
    lemma_geometry_count(input);
    let source = sector_input(input, k)->Ok_0;
    assert(crate::dense_calls::factors_to(
        eigen,
        source.data,
        source.rows,
        source.cols,
        Ok(stages[k]),
    ));
    lemma_input_shape(input, k);
    assert(factors[k].data == stages[k].vectors);
    let v = matrix(source.rows as int, source.rows as int, stages[k].vectors@);
    assert forall|b: int, t: int, index: Seq<int>|
        {
            &&& 0 <= b < structure.spec_blocks().len()
            &&& #[trigger] has_tree_at(
                structure.spec_blocks()[b],
                all,
                FactorSide::Left,
                k,
                t,
            )
            &&& #[trigger] indexes(index, structure.spec_blocks()[b].shape@)
        } implies found.0@[index_position(structure.spec_blocks()[b], index)] == cell_of(
        v.cells,
        v.rows,
        v.cols,
        FactorSide::Left,
        all[k].trees(FactorSide::Left)[t].offset as int,
        structure.spec_blocks()[b],
        index,
    ) by {
        assert(trees_distinct(all[k].trees(FactorSide::Left)));
        lemma_scattered_factor_by_index(
            structure,
            all,
            factors,
            ring.zero,
            FactorSide::Left,
            v.cols,
            k,
            t,
            b,
            index,
        );
    }
    assert(is_eigensystem(
        ring,
        matrix(
            sector_input(input, k)->Ok_0.rows as int,
            sector_input(input, k)->Ok_0.cols as int,
            sector_input(input, k)->Ok_0.data,
        ),
        v,
        as_scalars(found.1@[k].values@, to_scalar),
    ));
}

} // verus!
