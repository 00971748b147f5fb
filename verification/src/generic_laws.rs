//! What factorizations are that choose between regions and packed sectors, with
//! exact backends.

use vstd::prelude::*;

use crate::admission_laws::{is_square, lemma_judged_matrices};
use crate::compact_drive::{svd_scattered, CompactSvdData};
use crate::completion::QrStage;
use crate::completion_laws::factors_exactly;
use crate::direct::RouteFactors;
use crate::driver_laws::{holds_factor, is_output, is_source, lemma_scattered_svd};
use crate::eigen_drive::{eigenvectors_scattered, EigensystemOnSpace};
use crate::eigen_full::EigenStage;
use crate::eigen_laws::is_eigensystem;
use crate::eigh_drive::{
    eigh_of_sectors, eigh_scattered, judges, matrices_judged, vectors_stand_on,
};
use crate::error::OperationError;
use crate::exact::conjugates_in;
use crate::factor_drive::{factors_stand_on, lq_packed, RoutedSpaces};
use crate::factor_routes::{compact_bond, factor_trees_match};
use crate::generic_drive::{
    both_are_labelled, factors_unrouted, generic_factors, generic_plan, is_generic_routed,
    svd_on_labels,
};
use crate::geometry::{geometries, sectors_distinct, CoupledSectorRegion, SectorMatricization};
use crate::input::InputMatricizations;
use crate::labelled_laws::{
    lemma_labelled_factors_multiply, lemma_published_lq_multiplies, lemma_scattered_eigensystem,
};
use crate::layout::FactorSide;
use crate::lq_drive::lqs_published;
use crate::matricize::matricized;
use crate::product_laws::{lemma_joined_factors_multiply, splits_exactly};
use crate::publication_laws::sector_multiplies;
use crate::ring::{matrix, Matrix, Ring};
use crate::route_drive::factors_joined;
use crate::routed_laws::{is_ordered, is_region_source, names_regions};
use crate::sides::{lays_out, DriveError, FactorsOnSpaces};
use crate::space::{MapSpace, SectorLeg};
use crate::spectrum::SectorSpectrum;
use crate::stages::{input_holds, sector_input, BondExtent};
use crate::svd_drive::{region_count, stands_on, SvdOnSpaces};
use crate::svd_laws::is_svd_of;
use crate::svd_stage::SvdStage;
use crate::tensor_laws::{as_scalars, decomposes_exactly, region_of};
use crate::vector_laws::diagonalizes_exactly;

verus! {

/// A region of the source has the trees of its rows on the rows of the left
/// factor's region and those of its columns on the columns of the right one's.
pub open spec fn shares_trees(
    region: CoupledSectorRegion,
    left: Seq<CoupledSectorRegion>,
    right: Seq<CoupledSectorRegion>,
) -> bool {
    exists|l: int, r: int|
        {
            &&& 0 <= l < left.len()
            &&& 0 <= r < right.len()
            &&& (#[trigger] left[l]).coupled == region.coupled
            &&& (#[trigger] right[r]).coupled == region.coupled
            &&& crate::geometry::spans(left[l].row_trees@) == crate::geometry::spans(
                region.row_trees@,
            )
            &&& crate::geometry::spans(right[r].col_trees@) == crate::geometry::spans(
                region.col_trees@,
            )
        }
}

/// Routes are taken only where both factors share the trees of every region of
/// the source.
pub proof fn lemma_routes_share_trees(
    source: Vec<CoupledSectorRegion>,
    left: Vec<CoupledSectorRegion>,
    right: Vec<CoupledSectorRegion>,
    k: int,
)
    requires
        generic_plan(Some(source), Some(left), Some(right)) is Ok,
        generic_plan(Some(source), Some(left), Some(right))->Ok_0 is Some,
        0 <= k < source@.len(),
    ensures
        shares_trees(source@[k], left@, right@),
        sectors_distinct(geometries(left@)),
        sectors_distinct(geometries(right@)),
{
    lemma_matching_trees(source@, left@, right@, k);
}

proof fn lemma_matching_trees(
    source: Seq<CoupledSectorRegion>,
    left: Seq<CoupledSectorRegion>,
    right: Seq<CoupledSectorRegion>,
    k: int,
)
    requires
        factor_trees_match(geometries(source), geometries(left), geometries(right)),
        0 <= k < source.len(),
    ensures
        shares_trees(source[k], left, right),
{
    let (from, l, r) = (geometries(source), geometries(left), geometries(right));
    assert(crate::factor_routes::region_trees_match(from[k], l, r));
    crate::geometry::lemma_sector_position(l, from[k].sector, 0);
    crate::geometry::lemma_sector_position(r, from[k].sector, 0);
    let a = crate::geometry::sector_position(l, from[k].sector, 0)->0;
    let b = crate::geometry::sector_position(r, from[k].sector, 0)->0;
    assert(l[a].sector == left[a].coupled);
    assert(r[b].sector == right[b].coupled);
    assert(left[a].coupled == source[k].coupled && right[b].coupled == source[k].coupled);
}

/// In the regions of every sector the factors multiply to the sector's matrix.
pub open spec fn regions_multiply<D>(
    ring: Ring<D>,
    found: FactorsOnSpaces<D>,
    regions: Seq<CoupledSectorRegion>,
    data: Seq<D>,
) -> bool {
    is_region_source(regions) && is_ordered(found.left_space) && is_ordered(found.right_space)
        ==> forall|k: int, i: int, j: int| #[trigger]
        names_regions(regions, found.left_space, found.right_space, k, i, j) ==> ring.mul(
            region_of(found.left@, found.left_space.regions->0@[i]),
            region_of(found.right@, found.right_space.regions->0@[j]),
        ) == region_of(data, regions[k])
}

/// Both spaces hold factors that multiply to every packed sector.
pub open spec fn packed_multiply<D>(
    ring: Ring<D>,
    found: FactorsOnSpaces<D>,
    space: MapSpace,
    data: Seq<D>,
) -> bool {
    exists|matrices: Vec<SectorMatricization<D>>|
        {
            &&& #[trigger] matricized(
                Ok(matrices),
                space.structure.spec_blocks(),
                data,
                space.nout as int,
                ring.zero,
            )
            &&& sources_multiply(ring, found, matrices)
        }
}

/// Both spaces hold factors that multiply to each of these matrices.
pub open spec fn sources_multiply<D>(
    ring: Ring<D>,
    found: FactorsOnSpaces<D>,
    matrices: Vec<SectorMatricization<D>>,
) -> bool {
    outputs_and_source(found, matrices) ==> forall|k: int|
        0 <= k < matrices@.len() ==> #[trigger] sector_multiplies(
            ring,
            found,
            InputMatricizations::Packed(matrices),
            k,
        )
}

/// Both outputs have blocks that lie apart, and the matrices have distinct sectors
/// and trees.
pub open spec fn outputs_and_source<D>(
    found: FactorsOnSpaces<D>,
    matrices: Vec<SectorMatricization<D>>,
) -> bool {
    &&& is_output(found.left_space.structure, FactorSide::Left)
    &&& is_output(found.right_space.structure, FactorSide::Right)
    &&& is_source(geometries(matrices@), FactorSide::Left)
    &&& is_source(geometries(matrices@), FactorSide::Right)
}

/// A factorization that falls back to packed sectors multiplies to each of them.
proof fn lemma_unrouted_factors_multiply<
    D,
    X,
    F: Fn(&[D], usize, usize) -> Result<RouteFactors<D>, OperationError>,
    G: Fn(&SectorLeg) -> Result<MapSpace, X>,
    H: Fn(&SectorLeg) -> Result<MapSpace, X>,
>(
    ring: Ring<D>,
    found: FactorsOnSpaces<D>,
    space: MapSpace,
    data: Seq<D>,
    left_layout: G,
    right_layout: H,
    factorize: F,
)
    requires
        splits_exactly(ring, factorize, BondExtent::Compact),
        factors_unrouted(
            Ok::<FactorsOnSpaces<D>, DriveError<X>>(found),
            space,
            data,
            left_layout,
            right_layout,
            factorize,
            ring.zero,
        ),
    ensures
        packed_multiply(ring, found, space, data),
{
    let result = Ok::<FactorsOnSpaces<D>, DriveError<X>>(found);
    let packed = choose|packed: Result<Vec<SectorMatricization<D>>, OperationError>|
        {
            &&& #[trigger] matricized(
                packed,
                space.structure.spec_blocks(),
                data,
                space.nout as int,
                ring.zero,
            )
            &&& match packed {
                Err(error) => result == Err::<FactorsOnSpaces<D>, DriveError<X>>(
                    DriveError::Operation(error),
                ),
                Ok(matrices) => crate::compact_drive::labelled_factors_published(
                    result,
                    InputMatricizations::Packed(matrices),
                    factorize,
                    BondExtent::Compact,
                    left_layout,
                    right_layout,
                    ring.zero,
                ),
            }
        };
    let matrices = packed->Ok_0;
    assert(packed == Ok::<Vec<SectorMatricization<D>>, OperationError>(matrices));
    if outputs_and_source(found, matrices) {
        assert forall|k: int| 0 <= k < matrices@.len() implies #[trigger] sector_multiplies(
            ring,
            found,
            InputMatricizations::Packed(matrices),
            k,
        ) by {
            lemma_labelled_factors_multiply(
                ring,
                found,
                InputMatricizations::Packed(matrices),
                factorize,
                BondExtent::Compact,
                left_layout,
                right_layout,
                k,
            );
        }
    }
    assert(sources_multiply(ring, found, matrices));
}

/// A factorization along routes, or of packed sectors where there are none,
/// multiplies to the tensor either way.
pub proof fn lemma_generic_factors_multiply<
    D,
    X,
    F: Fn(&[D], usize, usize) -> Result<RouteFactors<D>, OperationError>,
    G: Fn(&SectorLeg) -> Result<MapSpace, X>,
    H: Fn(&SectorLeg) -> Result<MapSpace, X>,
>(
    ring: Ring<D>,
    found: FactorsOnSpaces<D>,
    space: MapSpace,
    data: Seq<D>,
    left_layout: G,
    right_layout: H,
    factorize: F,
)
    requires
        splits_exactly(ring, factorize, BondExtent::Compact),
        generic_factors(
            Ok::<FactorsOnSpaces<D>, DriveError<X>>(found),
            space,
            data,
            left_layout,
            right_layout,
            factorize,
            ring.zero,
        ),
    ensures
        packed_multiply(ring, found, space, data) || (space.regions is Some && regions_multiply(
            ring,
            found,
            space.regions->0@,
            data,
        )),
        space.regions is None ==> packed_multiply(ring, found, space, data),
{
    let result = Ok::<FactorsOnSpaces<D>, DriveError<X>>(found);
    match space.regions {
        None => {
            lemma_unrouted_factors_multiply(
                ring,
                found,
                space,
                data,
                left_layout,
                right_layout,
                factorize,
            );
        },
        Some(regions) => {
            let routed = choose|routed: Result<Option<RoutedSpaces>, DriveError<X>>|
                {
                    &&& #[trigger] is_generic_routed(routed, regions, left_layout, right_layout)
                    &&& match routed {
                        Err(error) => result == Err::<FactorsOnSpaces<D>, DriveError<X>>(error),
                        Ok(None) => factors_unrouted(
                            result,
                            space,
                            data,
                            left_layout,
                            right_layout,
                            factorize,
                            ring.zero,
                        ),
                        Ok(Some(routed)) => exists|
                            joined: Result<(Vec<D>, Vec<D>), OperationError>,
                        |
                            {
                                &&& #[trigger] factors_joined(
                                    joined,
                                    routed.routes@,
                                    regions@,
                                    data,
                                    region_count(routed.left.regions),
                                    region_count(routed.right.regions),
                                    factorize,
                                )
                                &&& factors_stand_on(result, joined, routed.left, routed.right)
                            },
                    }
                };
            match routed->Ok_0 {
                None => {
                    lemma_unrouted_factors_multiply(
                        ring,
                        found,
                        space,
                        data,
                        left_layout,
                        right_layout,
                        factorize,
                    );
                },
                Some(spaces) => {
                    let joined = choose|joined: Result<(Vec<D>, Vec<D>), OperationError>|
                        {
                            &&& #[trigger] factors_joined(
                                joined,
                                spaces.routes@,
                                regions@,
                                data,
                                region_count(spaces.left.regions),
                                region_count(spaces.right.regions),
                                factorize,
                            )
                            &&& factors_stand_on(result, joined, spaces.left, spaces.right)
                        };
                    if is_region_source(regions@) && is_ordered(found.left_space) && is_ordered(
                        found.right_space,
                    ) {
                        assert forall|k: int, i: int, j: int| #[trigger]
                            names_regions(
                                regions@,
                                found.left_space,
                                found.right_space,
                                k,
                                i,
                                j,
                            ) implies ring.mul(
                            region_of(found.left@, found.left_space.regions->0@[i]),
                            region_of(found.right@, found.right_space.regions->0@[j]),
                        ) == region_of(data, regions@[k]) by {
                            lemma_joined_factors_multiply(
                                ring,
                                joined->Ok_0,
                                spaces.routes@,
                                regions@,
                                data,
                                spaces.left.regions->0@,
                                spaces.right.regions->0@,
                                factorize,
                                k,
                                i,
                                j,
                            );
                        }
                    }
                },
            }
        },
    }
}

/// The Hermitian eigendecomposition of packed sectors: each of them was judged
/// Hermitian, and the output holds vectors that are, with the values listed for the
/// sector, an eigensystem of it.
pub proof fn lemma_packed_eigh_diagonalizes<
    D,
    V,
    X,
    P: Fn(&[D], usize) -> bool,
    F: Fn(&[D], usize, usize) -> Result<EigenStage<D, V>, OperationError>,
    G: Fn(&SectorLeg) -> Result<MapSpace, X>,
>(
    ring: Ring<D>,
    to_scalar: spec_fn(V) -> D,
    found: EigensystemOnSpace<D, V>,
    matrices: Vec<SectorMatricization<D>>,
    left_layout: G,
    hermitian: P,
    eigen: F,
    k: int,
)
    requires
        diagonalizes_exactly(ring, eigen, to_scalar),
        eigh_of_sectors(
            Ok::<EigensystemOnSpace<D, V>, DriveError<X>>(found),
            matrices,
            left_layout,
            hermitian,
            eigen,
            ring.zero,
        ),
        is_output(found.space.structure, FactorSide::Left),
        is_source(geometries(matrices@), FactorSide::Left),
        0 <= k < matrices@.len(),
    ensures
        is_square(matrices@[k]),
        judges(hermitian, matrices@[k].data@, matrices@[k].rows, true),
        lays_out(
            left_layout,
            compact_bond(geometries(matrices@)),
            Ok::<MapSpace, X>(found.space),
        ),
        found.values@.len() == matrices@.len(),
        exists|v: Matrix<D>|
            {
                &&& #[trigger] is_eigensystem(
                    ring,
                    matrix(
                        matrices@[k].rows as int,
                        matrices@[k].cols as int,
                        matrices@[k].data@,
                    ),
                    v,
                    as_scalars(found.values@[k].values@, to_scalar),
                )
                &&& holds_factor(
                    found.vectors@,
                    found.space.structure,
                    geometries(matrices@),
                    FactorSide::Left,
                    k,
                    v,
                )
            },
{
    let result = Ok::<EigensystemOnSpace<D, V>, DriveError<X>>(found);
    let input = InputMatricizations::Packed(matrices);
    let outcome = choose|outcome: Result<(), OperationError>|
        {
            &&& #[trigger] matrices_judged(outcome, matrices@, hermitian)
            &&& match outcome {
                Err(error) => result == Err::<EigensystemOnSpace<D, V>, DriveError<X>>(
                    DriveError::Operation(error),
                ),
                Ok(()) => eigh_scattered(result, matrices, left_layout, eigen, ring.zero),
            }
        };
    lemma_judged_matrices(outcome, matrices@, hermitian);
    let answer = choose|answer: Result<MapSpace, X>|
        {
            &&& #[trigger] lays_out(left_layout, compact_bond(geometries(matrices@)), answer)
            &&& match answer {
                Err(error) => result == Err::<EigensystemOnSpace<D, V>, DriveError<X>>(
                    DriveError::Layout(error),
                ),
                Ok(space) => exists|
                    scattered: Result<(Vec<D>, Vec<SectorSpectrum<V>>), OperationError>,
                |
                    {
                        &&& #[trigger] eigenvectors_scattered(
                            scattered,
                            space.structure,
                            input,
                            eigen,
                            ring.zero,
                        )
                        &&& vectors_stand_on(result, scattered, space)
                    },
            }
        };
    let space = answer->Ok_0;
    let scattered = choose|scattered: Result<(Vec<D>, Vec<SectorSpectrum<V>>), OperationError>|
        {
            &&& #[trigger] eigenvectors_scattered(
                scattered,
                space.structure,
                input,
                eigen,
                ring.zero,
            )
            &&& vectors_stand_on(result, scattered, space)
        };
    assert(is_square(matrices@[k]));
    lemma_scattered_eigensystem(
        ring,
        to_scalar,
        scattered->Ok_0,
        space.structure,
        input,
        eigen,
        k,
    );
    let source = sector_input(input, k)->Ok_0;
    assert(source.data == matrices@[k].data@ && source.rows == matrices@[k].rows && source.cols
        == matrices@[k].cols);
    let v = choose|v: Matrix<D>|
        {
            &&& #[trigger] is_eigensystem(
                ring,
                matrix(source.rows as int, source.cols as int, source.data),
                v,
                as_scalars(found.values@[k].values@, to_scalar),
            )
            &&& holds_factor(
                found.vectors@,
                found.space.structure,
                geometries(matrices@),
                FactorSide::Left,
                k,
                v,
            )
        };
    assert(is_eigensystem(
        ring,
        matrix(matrices@[k].rows as int, matrices@[k].cols as int, matrices@[k].data@),
        v,
        as_scalars(found.values@[k].values@, to_scalar),
    ));
}

/// The outputs hold an SVD of each of these matrices, with the values listed for it.
pub open spec fn sources_decompose<D, V>(
    ring: Ring<D>,
    to_scalar: spec_fn(V) -> D,
    found: SvdOnSpaces<D, V>,
    matrices: Vec<SectorMatricization<D>>,
) -> bool {
    forall|k: int|
        0 <= k < matrices@.len() ==> #[trigger] source_decomposes(
            ring,
            to_scalar,
            found,
            matrices,
            k,
        )
}

/// The outputs hold an SVD of matrix `k`.
pub open spec fn source_decomposes<D, V>(
    ring: Ring<D>,
    to_scalar: spec_fn(V) -> D,
    found: SvdOnSpaces<D, V>,
    matrices: Vec<SectorMatricization<D>>,
    k: int,
) -> bool {
    exists|u: Matrix<D>, vh: Matrix<D>|
        {
            &&& #[trigger] is_svd_of(
                ring,
                matrix(matrices@[k].rows as int, matrices@[k].cols as int, matrices@[k].data@),
                u,
                as_scalars(found.singular_values@[k].values@, to_scalar),
                vh,
            )
            &&& holds_factor(
                found.u@,
                found.u_space.structure,
                geometries(matrices@),
                FactorSide::Left,
                k,
                u,
            )
            &&& holds_factor(
                found.vh@,
                found.vh_space.structure,
                geometries(matrices@),
                FactorSide::Right,
                k,
                vh,
            )
        }
}

/// The SVD of packed sectors on spaces whose labels were checked: both spaces were
/// given for the compact bond, every label of both has its place in the source, and
/// they hold an SVD of every sector.
pub proof fn lemma_labelled_sectors_decompose<
    D,
    V,
    X,
    F: Fn(&[D], usize, usize) -> Result<SvdStage<D, V>, OperationError>,
    G: Fn(&SectorLeg) -> Result<MapSpace, X>,
    H: Fn(&SectorLeg) -> Result<MapSpace, X>,
>(
    ring: Ring<D>,
    to_scalar: spec_fn(V) -> D,
    found: SvdOnSpaces<D, V>,
    matrices: Vec<SectorMatricization<D>>,
    left_layout: G,
    right_layout: H,
    svd: F,
)
    requires
        decomposes_exactly(ring, svd, to_scalar),
        svd_on_labels(
            Ok::<SvdOnSpaces<D, V>, DriveError<X>>(found),
            matrices,
            left_layout,
            right_layout,
            svd,
            ring.zero,
        ),
        is_output(found.u_space.structure, FactorSide::Left),
        is_output(found.vh_space.structure, FactorSide::Right),
        is_source(geometries(matrices@), FactorSide::Left),
        is_source(geometries(matrices@), FactorSide::Right),
    ensures
        lays_out(
            left_layout,
            compact_bond(geometries(matrices@)),
            Ok::<MapSpace, X>(found.u_space),
        ),
        lays_out(
            right_layout,
            compact_bond(geometries(matrices@)),
            Ok::<MapSpace, X>(found.vh_space),
        ),
        crate::keys::first_refusal(
            geometries(matrices@),
            FactorSide::Left,
            crate::pair_drive::own_labels(found.u_space.structure),
            0,
        ) is None,
        crate::keys::first_refusal(
            geometries(matrices@),
            FactorSide::Right,
            crate::pair_drive::own_labels(found.vh_space.structure),
            0,
        ) is None,
        sources_decompose(ring, to_scalar, found, matrices),
{
    let result = Ok::<SvdOnSpaces<D, V>, DriveError<X>>(found);
    let input = InputMatricizations::Packed(matrices);
    let all = geometries(matrices@);
    let spaces = choose|spaces: Result<(MapSpace, MapSpace), DriveError<X>>|
        {
            &&& #[trigger] both_are_labelled(
                spaces,
                left_layout,
                right_layout,
                compact_bond(all),
                all,
            )
            &&& match spaces {
                Err(error) => result == Err::<SvdOnSpaces<D, V>, DriveError<X>>(error),
                Ok((left, right)) => exists|
                    scattered: Result<CompactSvdData<D, V>, OperationError>,
                |
                    {
                        &&& #[trigger] svd_scattered(
                            scattered,
                            left.structure,
                            right.structure,
                            input,
                            svd,
                            ring.zero,
                        )
                        &&& stands_on(result, scattered, left, right)
                    },
            }
        };
    let (left, right) = spaces->Ok_0;
    let scattered = choose|scattered: Result<CompactSvdData<D, V>, OperationError>|
        {
            &&& #[trigger] svd_scattered(
                scattered,
                left.structure,
                right.structure,
                input,
                svd,
                ring.zero,
            )
            &&& stands_on(result, scattered, left, right)
        };
    assert forall|k: int| 0 <= k < matrices@.len() implies #[trigger] source_decomposes(
        ring,
        to_scalar,
        found,
        matrices,
        k,
    ) by {
        lemma_scattered_svd(
            ring,
            to_scalar,
            scattered->Ok_0,
            left.structure,
            right.structure,
            input,
            svd,
            k,
        );
        let source = sector_input(input, k)->Ok_0;
        assert(source.data == matrices@[k].data@ && source.rows == matrices@[k].rows
            && source.cols == matrices@[k].cols);
        let (u, vh) = choose|u: Matrix<D>, vh: Matrix<D>|
            {
                &&& #[trigger] is_svd_of(
                    ring,
                    matrix(source.rows as int, source.cols as int, source.data),
                    u,
                    as_scalars(found.singular_values@[k].values@, to_scalar),
                    vh,
                )
                &&& holds_factor(
                    found.u@,
                    found.u_space.structure,
                    all,
                    FactorSide::Left,
                    k,
                    u,
                )
                &&& holds_factor(
                    found.vh@,
                    found.vh_space.structure,
                    all,
                    FactorSide::Right,
                    k,
                    vh,
                )
            };
        assert(is_svd_of(
            ring,
            matrix(matrices@[k].rows as int, matrices@[k].cols as int, matrices@[k].data@),
            u,
            as_scalars(found.singular_values@[k].values@, to_scalar),
            vh,
        ));
    }
}

/// The LQ of a tensor without regions multiplies to each of its packed sectors.
pub proof fn lemma_packed_lq_multiplies<
    D,
    X,
    C: Fn(D) -> D,
    F: Fn(&[D], usize, usize) -> Result<QrStage<D>, OperationError>,
    G: Fn(&SectorLeg) -> Result<MapSpace, X>,
    H: Fn(&SectorLeg) -> Result<MapSpace, X>,
>(
    ring: Ring<D>,
    found: FactorsOnSpaces<D>,
    space: MapSpace,
    data: Seq<D>,
    left_layout: G,
    right_layout: H,
    conjugate: C,
    qr: F,
    one: D,
)
    requires
        ring.is_ring(),
        conjugates_in(ring, conjugate),
        factors_exactly(ring, qr, BondExtent::Compact),
        lq_packed(
            Ok::<FactorsOnSpaces<D>, DriveError<X>>(found),
            space,
            data,
            left_layout,
            right_layout,
            conjugate,
            qr,
            ring.zero,
            one,
        ),
    ensures
        packed_multiply(ring, found, space, data),
{
    let result = Ok::<FactorsOnSpaces<D>, DriveError<X>>(found);
    let blocks = space.structure.spec_blocks();
    let packed = choose|packed: Result<Vec<SectorMatricization<D>>, OperationError>|
        {
            &&& #[trigger] matricized(packed, blocks, data, space.nout as int, ring.zero)
            &&& match packed {
                Err(error) => result == Err::<FactorsOnSpaces<D>, DriveError<X>>(
                    DriveError::Operation(error),
                ),
                Ok(matrices) => lqs_published(
                    result,
                    InputMatricizations::Packed(matrices),
                    conjugate,
                    qr,
                    left_layout,
                    right_layout,
                    ring.zero,
                    one,
                ),
            }
        };
    let matrices = packed->Ok_0;
    assert(packed == Ok::<Vec<SectorMatricization<D>>, OperationError>(matrices));
    let input = InputMatricizations::Packed(matrices);
    assert(input_holds(input)) by {
        assert forall|k: int| 0 <= k < matrices@.len() implies (
        #[trigger] matrices@[k]).data@.len() == matrices@[k].rows * matrices@[k].cols by {
            let geometry = geometries(matrices@)[k];
            assert(geometry.rows == matrices@[k].rows && geometry.cols == matrices@[k].cols);
            let (a, b) = (geometry.rows as int, geometry.cols as int);
            assert(0 <= a * b) by (nonlinear_arith)
                requires
                    0 <= a,
                    0 <= b,
            ;
            crate::writes::lemma_writes_len(
                Seq::new((geometry.rows * geometry.cols) as nat, |n: int| ring.zero),
                crate::matricize::sector_writes(
                    data,
                    blocks,
                    space.nout as int,
                    geometry,
                    blocks.len() as int,
                ),
            );
        }
    }
    if outputs_and_source(found, matrices) {
        assert forall|k: int| 0 <= k < matrices@.len() implies #[trigger] sector_multiplies(
            ring,
            found,
            InputMatricizations::Packed(matrices),
            k,
        ) by {
            lemma_published_lq_multiplies(
                ring,
                found,
                InputMatricizations::Packed(matrices),
                conjugate,
                qr,
                left_layout,
                right_layout,
                one,
                k,
            );
        }
    }
    assert(sources_multiply(ring, found, matrices));
}

} // verus!
