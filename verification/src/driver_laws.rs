//! What factorizations of tensors leave in their outputs, with exact backends:
//! factors of every sector's own matrix, element by element.

use vstd::prelude::*;

use crate::compact_drive::{
    are_svd_pairs, are_svd_spectra, input_geometries, svd_scattered, CompactSvdData,
};
use crate::eigen_drive::{
    eigensystem_laid_out, eigensystem_on, eigensystem_published, order_bond, EigensystemOnSpace,
};
use crate::eigen_full::{are_eigen_pairs, eigenvectors_checked, eigenvectors_published, EigenStage};
use crate::eigen_laws::is_eigensystem;
use crate::error::OperationError;
use crate::factor::{FactorPair, SectorRank};
use crate::full::checked_data;
use crate::geometry::{sectors_distinct, trees_distinct, Geometry};
use crate::index_laws::{index_position, indexes};
use crate::input::InputMatricizations;
use crate::layout::FactorSide;
use crate::layout_laws::lemma_published_by_index;
use crate::product_laws::lemma_svd_pairs_decompose;
use crate::publish::published_data;
use crate::read_back::{elements_apart, has_bond_axis};
use crate::ring::{matrix, Matrix, Ring};
use crate::scatter_laws::{cell_of, has_tree_at, lemma_scattered_pair_by_index};
use crate::sides::{lays_out, DriveError};
use crate::space::{MapSpace, SectorLeg};
use crate::stages::{factored_until, sector_input};
use crate::structure::BlockStructure;
use crate::svd_laws::is_svd_of;
use crate::svd_stage::SvdStage;
use crate::tensor_laws::{as_scalars, decomposes_exactly};
use crate::vector_laws::{diagonalizes_exactly, lemma_eigen_pairs_diagonalize};

verus! {

/// The blocks lie apart in their buffer, and labelled ones have a bond.
pub open spec fn is_output(structure: BlockStructure, side: FactorSide) -> bool {
    &&& structure.wf()
    &&& structure.spec_blocks().len() <= usize::MAX
    &&& elements_apart(structure.spec_blocks())
    &&& forall|j: int|
        0 <= j < structure.spec_blocks().len() ==> has_bond_axis(
            #[trigger] structure.spec_blocks()[j],
            side,
        )
}

/// No sector has two matrices, and no tree two places on a side.
pub open spec fn is_source(geometries: Seq<Geometry>, side: FactorSide) -> bool {
    &&& sectors_distinct(geometries)
    &&& forall|j: int|
        0 <= j < geometries.len() ==> trees_distinct((#[trigger] geometries[j]).trees(side))
}

/// The data holds a factor of one sector: every element of a block of that sector
/// is the cell of the factor that the block's tree and the element's indices name.
pub open spec fn holds_factor<D>(
    data: Seq<D>,
    structure: BlockStructure,
    geometries: Seq<Geometry>,
    side: FactorSide,
    at: int,
    m: Matrix<D>,
) -> bool {
    forall|k: int, t: int, index: Seq<int>|
        {
            &&& 0 <= k < structure.spec_blocks().len()
            &&& #[trigger] has_tree_at(structure.spec_blocks()[k], geometries, side, at, t)
            &&& #[trigger] indexes(index, structure.spec_blocks()[k].shape@)
        } ==> data[index_position(structure.spec_blocks()[k], index)] == cell_of(
            m.cells,
            m.rows,
            m.cols,
            side,
            geometries[at].trees(side)[t].offset as int,
            structure.spec_blocks()[k],
            index,
        )
}

/// Published data holds the factor of the last pair of a sector.
pub(crate) proof fn lemma_published_holds<D>(
    elements: Seq<D>,
    structure: BlockStructure,
    geometries: Seq<Geometry>,
    pairs: Seq<FactorPair<D>>,
    dimensions: Seq<SectorRank>,
    side: FactorSide,
    zero: D,
    one: D,
    at: int,
    p: int,
    cols: int,
)
    requires
        is_output(structure, side),
        is_source(geometries, side),
        published_data(
            structure,
            geometries,
            pairs,
            dimensions,
            side,
            side,
            zero,
            one,
        ) == Ok::<Seq<D>, OperationError>(elements),
        0 <= at < geometries.len(),
        0 <= p < pairs.len(),
        pairs[p].sector == geometries[at].sector,
        forall|later: int|
            p < later < pairs.len() ==> (#[trigger] pairs[later]).sector
                != geometries[at].sector,
    ensures
        side == FactorSide::Left ==> holds_factor(
            elements,
            structure,
            geometries,
            side,
            at,
            matrix(pairs[p].left_rows as int, cols, pairs[p].left@),
        ),
        side == FactorSide::Right ==> holds_factor(
            elements,
            structure,
            geometries,
            side,
            at,
            matrix(pairs[p].right_leading as int, cols, pairs[p].right@),
        ),
{
    let m = match side {
        FactorSide::Left => matrix(pairs[p].left_rows as int, cols, pairs[p].left@),
        FactorSide::Right => matrix(pairs[p].right_leading as int, cols, pairs[p].right@),
    };
    assert forall|k: int, t: int, index: Seq<int>|
        {
            &&& 0 <= k < structure.spec_blocks().len()
            &&& #[trigger] has_tree_at(structure.spec_blocks()[k], geometries, side, at, t)
            &&& #[trigger] indexes(index, structure.spec_blocks()[k].shape@)
        } implies elements[index_position(structure.spec_blocks()[k], index)] == cell_of(
        m.cells,
        m.rows,
        m.cols,
        side,
        geometries[at].trees(side)[t].offset as int,
        structure.spec_blocks()[k],
        index,
    ) by {
        lemma_published_by_index(
            elements,
            structure,
            geometries,
            pairs,
            dimensions,
            side,
            side,
            zero,
            one,
            k,
            at,
            t,
            p,
            index,
        );
    }
}

/// The published eigendecomposition of a tensor: in every square sector the output
/// holds vectors that are, with the values listed for the sector, an eigensystem
/// of the sector's own matrix.
pub proof fn lemma_published_eigensystem<
    D,
    V,
    X,
    F: Fn(&[D], usize, usize) -> Result<EigenStage<D, V>, OperationError>,
    G: Fn(&SectorLeg) -> Result<MapSpace, X>,
>(
    ring: Ring<D>,
    to_scalar: spec_fn(V) -> D,
    found: EigensystemOnSpace<D, V>,
    input: InputMatricizations<'_, D>,
    eigen: F,
    layout: G,
    checked: bool,
    one: D,
    k: int,
)
    requires
        diagonalizes_exactly(ring, eigen, to_scalar),
        eigensystem_published(
            Ok::<EigensystemOnSpace<D, V>, DriveError<X>>(found),
            input,
            eigen,
            layout,
            checked,
            ring.zero,
            one,
        ),
        is_output(found.space.structure, FactorSide::Left),
        is_source(input_geometries(input), FactorSide::Left),
        0 <= k < input.spec_len(),
        input_geometries(input)[k].rows == input_geometries(input)[k].cols,
    ensures
        sector_input(input, k) is Ok,
        found.values@.len() == input.spec_len(),
        found.values@[k].sector == input_geometries(input)[k].sector,
        lays_out(
            layout,
            order_bond(input_geometries(input)),
            Ok::<MapSpace, X>(found.space),
        ),
        exists|v: Matrix<D>|
            {
                &&& #[trigger] is_eigensystem(
                    ring,
                    matrix(
                        sector_input(input, k)->Ok_0.rows as int,
                        sector_input(input, k)->Ok_0.cols as int,
                        sector_input(input, k)->Ok_0.data,
                    ),
                    v,
                    as_scalars(found.values@[k].values@, to_scalar),
                )
                &&& holds_factor(
                    found.vectors@,
                    found.space.structure,
                    input_geometries(input),
                    FactorSide::Left,
                    k,
                    v,
                )
            },
{
    let all = input_geometries(input);
    let result = Ok::<EigensystemOnSpace<D, V>, DriveError<X>>(found);
    let stages = choose|stages: Seq<EigenStage<D, V>>|
        {
            &&& #[trigger] factored_until(stages, None, input, eigen)
            &&& eigensystem_laid_out(result, all, stages, layout, checked, ring.zero, one)
        };
    let answer = choose|answer: Result<MapSpace, X>|
        {
            &&& #[trigger] lays_out(layout, order_bond(all), answer)
            &&& match answer {
                Err(error) => result == Err::<EigensystemOnSpace<D, V>, DriveError<X>>(
                    DriveError::Layout(error),
                ),
                Ok(space) => eigensystem_on(
                    result,
                    space,
                    all,
                    stages,
                    checked,
                    ring.zero,
                    one,
                ),
            }
        };
    let space = answer->Ok_0;
    let elements = Ok::<Seq<D>, OperationError>(found.vectors@);
    let structure = space.structure;
    let pairs = if checked {
        assert(eigenvectors_checked(elements, structure, all, stages, ring.zero, one));
        choose|pairs: Seq<FactorPair<D>>|
            {
                &&& #[trigger] are_eigen_pairs(pairs, all, stages)
                &&& elements == checked_data(
                    structure,
                    all,
                    pairs,
                    crate::bond::bond_of_pairs(pairs),
                    FactorSide::Left,
                    ring.zero,
                    one,
                )
            }
    } else {
        assert(eigenvectors_published(elements, structure, all, stages, ring.zero, one));
        choose|pairs: Seq<FactorPair<D>>|
            {
                &&& #[trigger] are_eigen_pairs(pairs, all, stages)
                &&& elements == published_data(
                    structure,
                    all,
                    pairs,
                    crate::bond::bond_of_pairs(pairs),
                    FactorSide::Left,
                    FactorSide::Left,
                    ring.zero,
                    one,
                )
            }
    };
    lemma_eigen_pairs_diagonalize(ring, to_scalar, stages, pairs, input, eigen, k);
    assert forall|later: int| k < later < pairs.len() implies (#[trigger] pairs[later]).sector
        != all[k].sector by {
        assert(all[k].sector != all[later].sector);
    }
    let n = pairs[k].kept as int;
    lemma_published_holds(
        found.vectors@,
        structure,
        all,
        pairs,
        crate::bond::bond_of_pairs(pairs),
        FactorSide::Left,
        ring.zero,
        one,
        k,
        k,
        n,
    );
    let v = matrix(pairs[k].left_rows as int, n, pairs[k].left@);
    assert(is_eigensystem(
        ring,
        matrix(
            sector_input(input, k)->Ok_0.rows as int,
            sector_input(input, k)->Ok_0.cols as int,
            sector_input(input, k)->Ok_0.data,
        ),
        v,
        as_scalars(found.values@[k].values@, to_scalar),
    ));
}

/// The scattered compact SVD of a tensor: in every sector both outputs hold factors
/// that are, with the values listed for the sector, an SVD of the sector's own
/// matrix.
pub proof fn lemma_scattered_svd<
    D,
    V,
    F: Fn(&[D], usize, usize) -> Result<SvdStage<D, V>, OperationError>,
>(
    ring: Ring<D>,
    to_scalar: spec_fn(V) -> D,
    found: CompactSvdData<D, V>,
    u_structure: BlockStructure,
    vh_structure: BlockStructure,
    input: InputMatricizations<'_, D>,
    svd: F,
    k: int,
)
    requires
        decomposes_exactly(ring, svd, to_scalar),
        svd_scattered(Ok(found), u_structure, vh_structure, input, svd, ring.zero),
        is_output(u_structure, FactorSide::Left),
        is_output(vh_structure, FactorSide::Right),
        is_source(input_geometries(input), FactorSide::Left),
        is_source(input_geometries(input), FactorSide::Right),
        0 <= k < input.spec_len(),
    ensures
        sector_input(input, k) is Ok,
        found.singular_values@.len() == input.spec_len(),
        found.singular_values@[k].sector == input_geometries(input)[k].sector,
        exists|u: Matrix<D>, vh: Matrix<D>|
            {
                &&& #[trigger] is_svd_of(
                    ring,
                    matrix(
                        sector_input(input, k)->Ok_0.rows as int,
                        sector_input(input, k)->Ok_0.cols as int,
                        sector_input(input, k)->Ok_0.data,
                    ),
                    u,
                    as_scalars(found.singular_values@[k].values@, to_scalar),
                    vh,
                )
                &&& holds_factor(
                    found.u@,
                    u_structure,
                    input_geometries(input),
                    FactorSide::Left,
                    k,
                    u,
                )
                &&& holds_factor(
                    found.vh@,
                    vh_structure,
                    input_geometries(input),
                    FactorSide::Right,
                    k,
                    vh,
                )
            },
{
    let all = input_geometries(input);
    let (stages, failure, pairs) = choose|
        stages: Seq<SvdStage<D, V>>,
        failure: Option<OperationError>,
        pairs: Seq<FactorPair<D>>,
    |
        {
            &&& #[trigger] factored_until(stages, failure, input, svd)
            &&& #[trigger] are_svd_pairs(pairs, all, stages)
            &&& match (crate::pair::scatter_pairs(
                u_structure.spec_blocks(),
                vh_structure.spec_blocks(),
                all,
                pairs,
                pairs.len() as int,
            ), failure) {
                (Err(error), _) => false,
                (Ok(_), Some(error)) => false,
                (Ok(writes), None) => {
                    &&& found.u@ == crate::writes::apply_writes(
                        crate::publish::zeros(ring.zero, u_structure.spec_len() as int),
                        writes.left,
                    )
                    &&& found.vh@ == crate::writes::apply_writes(
                        crate::publish::zeros(ring.zero, vh_structure.spec_len() as int),
                        writes.right,
                    )
                    &&& are_svd_spectra(found.singular_values@, all, stages)
                },
            }
        };
    lemma_svd_pairs_decompose(
        ring,
        to_scalar,
        stages,
        pairs,
        found.singular_values@,
        input,
        svd,
        k,
    );
    lemma_geometry_count(input);
    let source = sector_input(input, k)->Ok_0;
    let pair = pairs[k];
    let u = matrix(pair.left_rows as int, pair.kept as int, pair.left@);
    let vh = matrix(pair.right_leading as int, source.cols as int, pair.right@);
    assert forall|b: int, t: int, index: Seq<int>|
        {
            &&& 0 <= b < u_structure.spec_blocks().len()
            &&& #[trigger] has_tree_at(
                u_structure.spec_blocks()[b],
                all,
                FactorSide::Left,
                k,
                t,
            )
            &&& #[trigger] indexes(index, u_structure.spec_blocks()[b].shape@)
        } implies found.u@[index_position(u_structure.spec_blocks()[b], index)] == cell_of(
        u.cells,
        u.rows,
        u.cols,
        FactorSide::Left,
        all[k].trees(FactorSide::Left)[t].offset as int,
        u_structure.spec_blocks()[b],
        index,
    ) by {
        assert(trees_distinct(all[k].trees(FactorSide::Left)));
        lemma_scattered_pair_by_index(
            u_structure,
            vh_structure,
            all,
            pairs,
            ring.zero,
            FactorSide::Left,
            u.cols,
            k,
            t,
            b,
            index,
        );
    }
    assert forall|b: int, t: int, index: Seq<int>|
        {
            &&& 0 <= b < vh_structure.spec_blocks().len()
            &&& #[trigger] has_tree_at(
                vh_structure.spec_blocks()[b],
                all,
                FactorSide::Right,
                k,
                t,
            )
            &&& #[trigger] indexes(index, vh_structure.spec_blocks()[b].shape@)
        } implies found.vh@[index_position(vh_structure.spec_blocks()[b], index)] == cell_of(
        vh.cells,
        vh.rows,
        vh.cols,
        FactorSide::Right,
        all[k].trees(FactorSide::Right)[t].offset as int,
        vh_structure.spec_blocks()[b],
        index,
    ) by {
        assert(trees_distinct(all[k].trees(FactorSide::Right)));
        lemma_scattered_pair_by_index(
            u_structure,
            vh_structure,
            all,
            pairs,
            ring.zero,
            FactorSide::Right,
            vh.cols,
            k,
            t,
            b,
            index,
        );
    }
    assert(is_svd_of(
        ring,
        matrix(
            sector_input(input, k)->Ok_0.rows as int,
            sector_input(input, k)->Ok_0.cols as int,
            sector_input(input, k)->Ok_0.data,
        ),
        u,
        as_scalars(found.singular_values@[k].values@, to_scalar),
        vh,
    ));
}

/// An input has a geometry for each of its matrices.
pub(crate) proof fn lemma_geometry_count<D>(input: InputMatricizations<'_, D>)
    ensures
        input_geometries(input).len() == input.spec_len(),
{
}

} // verus!
