//! What factorizations of whole tensors are, with exact backends: along regions and
//! packed.

use vstd::prelude::*;

use crate::admission_laws::{is_square_region, lemma_judged_regions};
use crate::compact_drive::{svd_scattered, CompactSvdData};
use crate::completion::QrStage;
use crate::completion_laws::factors_exactly;
use crate::direct::{LqData, RouteFactors};
use crate::driver_laws::{holds_factor, is_output, is_source, lemma_scattered_svd};
use crate::eigen_drive::EigensystemOnSpace;
use crate::eigen_full::EigenStage;
use crate::eigen_laws::is_eigensystem;
use crate::eigh_drive::{eigh_along, eigh_routed, judges, regions_judged, vectors_stand_on};
use crate::error::OperationError;
use crate::exact::conjugates_in;
use crate::factor_drive::{
    factors_packed, factors_routed, factors_stand_on, is_routed, lq_routed, RoutedSpaces,
};
use crate::factor_routes::{compact_bond, compact_plan, smaller};
use crate::geometry::{geometries, sectors_distinct, CoupledSectorRegion, SectorMatricization};
use crate::input::InputMatricizations;
use crate::layout::FactorSide;
use crate::matricize::matricized;
use crate::product_laws::{
    in_order, lemma_joined_factors_multiply, lemma_joined_svd_decomposes, splits_exactly,
};
use crate::publication_laws::{lemma_published_factors_multiply, sector_multiplies};
use crate::publish::zeros;
use crate::ring::{matrix, Matrix, Ring};
use crate::route_drive::{eigenvectors_joined, factors_joined, lqs_placed, svds_joined};
use crate::sector_drive::{region_matrix, regions_hold};
use crate::sides::{lays_out, DriveError, FactorsOnSpaces};
use crate::space::{MapSpace, SectorLeg};
use crate::spectrum::SectorSpectrum;
use crate::stages::{sector_input, BondExtent};
use crate::svd_drive::{
    lays_out_both, region_count, stands_on, svd_of_sectors, svd_routed, SvdOnSpaces,
};
use crate::svd_laws::is_svd_of;
use crate::svd_stage::SvdStage;
use crate::tensor_laws::{as_scalars, decomposes_exactly, region_of};
use crate::vector_laws::{
    diagonalizes_exactly, lemma_joined_vectors_diagonalize, lemma_placed_lq_multiplies,
};

verus! {

/// The space has regions, one behind the other from the start of its buffer to no
/// further than its end.
pub open spec fn is_ordered(space: MapSpace) -> bool {
    &&& space.regions is Some
    &&& space.regions->0@.len() <= usize::MAX
    &&& in_order(space.regions->0@)
    &&& space.regions->0@.len() > 0 ==> space.regions->0@[space.regions->0@.len() - 1].end
        <= space.structure.spec_len()
}

/// The regions of a source: each sector once, each with all its elements.
pub open spec fn is_region_source(regions: Seq<CoupledSectorRegion>) -> bool {
    &&& regions.len() <= usize::MAX
    &&& sectors_distinct(geometries(regions))
    &&& regions_hold(regions)
}

/// Region `k` of the source has elements, and `i` and `j` are the regions of its
/// sector in both spaces.
pub open spec fn names_regions(
    regions: Seq<CoupledSectorRegion>,
    left: MapSpace,
    right: MapSpace,
    k: int,
    i: int,
    j: int,
) -> bool {
    &&& 0 <= k < regions.len()
    &&& regions[k].rows != 0
    &&& regions[k].cols != 0
    &&& 0 <= i < left.regions->0@.len()
    &&& left.regions->0@[i].coupled == regions[k].coupled
    &&& 0 <= j < right.regions->0@.len()
    &&& right.regions->0@[j].coupled == regions[k].coupled
}

/// The factorization of a tensor with regions: both spaces were given for its
/// compact bond, and in the regions of every sector the factors multiply to the
/// sector's matrix.
pub proof fn lemma_routed_factors_multiply<
    D,
    X,
    F: Fn(&[D], usize, usize) -> Result<RouteFactors<D>, OperationError>,
    G: Fn(&SectorLeg) -> Result<MapSpace, X>,
    H: Fn(&SectorLeg) -> Result<MapSpace, X>,
>(
    ring: Ring<D>,
    found: FactorsOnSpaces<D>,
    regions: Vec<CoupledSectorRegion>,
    data: Seq<D>,
    left_layout: G,
    right_layout: H,
    factorize: F,
    k: int,
    i: int,
    j: int,
)
    requires
        splits_exactly(ring, factorize, BondExtent::Compact),
        factors_routed(
            Ok::<FactorsOnSpaces<D>, DriveError<X>>(found),
            regions,
            data,
            left_layout,
            right_layout,
            factorize,
        ),
        is_region_source(regions@),
        is_ordered(found.left_space),
        is_ordered(found.right_space),
        names_regions(regions@, found.left_space, found.right_space, k, i, j),
    ensures
        lays_out(
            left_layout,
            compact_bond(geometries(regions@)),
            Ok::<MapSpace, X>(found.left_space),
        ),
        lays_out(
            right_layout,
            compact_bond(geometries(regions@)),
            Ok::<MapSpace, X>(found.right_space),
        ),
        ring.mul(
            region_of(found.left@, found.left_space.regions->0@[i]),
            region_of(found.right@, found.right_space.regions->0@[j]),
        ) == region_of(data, regions@[k]),
{
    let result = Ok::<FactorsOnSpaces<D>, DriveError<X>>(found);
    let routed = choose|routed: Result<RoutedSpaces, DriveError<X>>|
        {
            &&& #[trigger] is_routed(routed, regions, left_layout, right_layout)
            &&& match routed {
                Err(error) => result == Err::<FactorsOnSpaces<D>, DriveError<X>>(error),
                Ok(routed) => exists|joined: Result<(Vec<D>, Vec<D>), OperationError>|
                    {
                        &&& #[trigger] factors_joined(
                            joined,
                            routed.routes@,
                            regions@,
                            data,
                            region_count(routed.left.regions),
                            region_count(routed.right.regions),
                            factorize,
                        )
                        &&& factors_stand_on(result, joined, routed.left, routed.right)
                    },
            }
        };
    let spaces = routed->Ok_0;
    let joined = choose|joined: Result<(Vec<D>, Vec<D>), OperationError>|
        {
            &&& #[trigger] factors_joined(
                joined,
                spaces.routes@,
                regions@,
                data,
                region_count(spaces.left.regions),
                region_count(spaces.right.regions),
                factorize,
            )
            &&& factors_stand_on(result, joined, spaces.left, spaces.right)
        };
    lemma_joined_factors_multiply(
        ring,
        joined->Ok_0,
        spaces.routes@,
        regions@,
        data,
        spaces.left.regions->0@,
        spaces.right.regions->0@,
        factorize,
        k,
        i,
        j,
    );
}

/// The LQ of a tensor with regions: in the regions of every sector it is an LQ of
/// the sector's matrix.
pub proof fn lemma_routed_lq_multiplies<
    D,
    X,
    C: Fn(D) -> D,
    F: Fn(&[D], usize, usize) -> Result<QrStage<D>, OperationError>,
    G: Fn(&SectorLeg) -> Result<MapSpace, X>,
    H: Fn(&SectorLeg) -> Result<MapSpace, X>,
>(
    ring: Ring<D>,
    found: FactorsOnSpaces<D>,
    regions: Vec<CoupledSectorRegion>,
    data: Seq<D>,
    left_layout: G,
    right_layout: H,
    conjugate: C,
    qr: F,
    k: int,
    i: int,
    j: int,
)
    requires
        ring.is_ring(),
        conjugates_in(ring, conjugate),
        factors_exactly(ring, qr, BondExtent::Compact),
        lq_routed(
            Ok::<FactorsOnSpaces<D>, DriveError<X>>(found),
            regions,
            data,
            left_layout,
            right_layout,
            conjugate,
            qr,
            ring.zero,
        ),
        is_region_source(regions@),
        is_ordered(found.left_space),
        is_ordered(found.right_space),
        names_regions(regions@, found.left_space, found.right_space, k, i, j),
    ensures
        ({
            let l = region_of(found.left@, found.left_space.regions->0@[i]);
            let q = region_of(found.right@, found.right_space.regions->0@[j]);
            &&& ring.mul(l, q) == region_of(data, regions@[k])
            &&& ring.mul(q, ring.adjoint(q)) == ring.identity(
                smaller(regions@[k].rows, regions@[k].cols) as int,
            )
        }),
{
    let result = Ok::<FactorsOnSpaces<D>, DriveError<X>>(found);
    let routed = choose|routed: Result<RoutedSpaces, DriveError<X>>|
        {
            &&& #[trigger] is_routed(routed, regions, left_layout, right_layout)
            &&& match routed {
                Err(error) => result == Err::<FactorsOnSpaces<D>, DriveError<X>>(error),
                Ok(routed) => exists|placed: Result<(Vec<D>, Vec<D>), OperationError>|
                    {
                        &&& #[trigger] lqs_placed(
                            placed,
                            routed.routes@,
                            regions@,
                            data,
                            routed.left.regions->0@,
                            routed.right.regions->0@,
                            LqData {
                                left: zeros(ring.zero, routed.left.structure.spec_len() as int),
                                right: zeros(ring.zero, routed.right.structure.spec_len() as int),
                            },
                            conjugate,
                            qr,
                        )
                        &&& factors_stand_on(result, placed, routed.left, routed.right)
                    },
            }
        };
    let spaces = routed->Ok_0;
    let empty = LqData {
        left: zeros(ring.zero, spaces.left.structure.spec_len() as int),
        right: zeros(ring.zero, spaces.right.structure.spec_len() as int),
    };
    let placed = choose|placed: Result<(Vec<D>, Vec<D>), OperationError>|
        {
            &&& #[trigger] lqs_placed(
                placed,
                spaces.routes@,
                regions@,
                data,
                spaces.left.regions->0@,
                spaces.right.regions->0@,
                empty,
                conjugate,
                qr,
            )
            &&& factors_stand_on(result, placed, spaces.left, spaces.right)
        };
    lemma_placed_lq_multiplies(
        ring,
        placed->Ok_0,
        spaces.routes@,
        regions@,
        data,
        spaces.left.regions->0@,
        spaces.right.regions->0@,
        empty,
        conjugate,
        qr,
        k,
        i,
        j,
    );
}

/// The SVD of a tensor with regions: both spaces were given for its compact bond,
/// and in the regions of every sector, with the values listed for it, it is an SVD
/// of the sector's matrix.
pub proof fn lemma_routed_svd_decomposes<
    D,
    V,
    X,
    F: Fn(&[D], usize, usize) -> Result<SvdStage<D, V>, OperationError>,
    G: Fn(&SectorLeg) -> Result<MapSpace, X>,
    H: Fn(&SectorLeg) -> Result<MapSpace, X>,
>(
    ring: Ring<D>,
    to_scalar: spec_fn(V) -> D,
    found: SvdOnSpaces<D, V>,
    regions: Vec<CoupledSectorRegion>,
    data: Seq<D>,
    left_layout: G,
    right_layout: H,
    svd: F,
    k: int,
    i: int,
    j: int,
)
    requires
        decomposes_exactly(ring, svd, to_scalar),
        svd_routed(
            Ok::<SvdOnSpaces<D, V>, DriveError<X>>(found),
            regions,
            data,
            left_layout,
            right_layout,
            svd,
        ),
        is_region_source(regions@),
        is_ordered(found.u_space),
        is_ordered(found.vh_space),
        names_regions(regions@, found.u_space, found.vh_space, k, i, j),
    ensures
        lays_out(
            left_layout,
            compact_bond(geometries(regions@)),
            Ok::<MapSpace, X>(found.u_space),
        ),
        lays_out(
            right_layout,
            compact_bond(geometries(regions@)),
            Ok::<MapSpace, X>(found.vh_space),
        ),
        found.singular_values@.len() == regions@.len(),
        found.singular_values@[k].sector == regions@[k].coupled,
        is_svd_of(
            ring,
            region_of(data, regions@[k]),
            region_of(found.u@, found.u_space.regions->0@[i]),
            as_scalars(found.singular_values@[k].values@, to_scalar),
            region_of(found.vh@, found.vh_space.regions->0@[j]),
        ),
{
    let result = Ok::<SvdOnSpaces<D, V>, DriveError<X>>(found);
    let spaces = choose|spaces: Result<(MapSpace, MapSpace), X>|
        {
            &&& #[trigger] lays_out_both(
                left_layout,
                right_layout,
                compact_bond(geometries(regions@)),
                spaces,
            )
            &&& match spaces {
                Err(error) => result == Err::<SvdOnSpaces<D, V>, DriveError<X>>(
                    DriveError::Layout(error),
                ),
                Ok((left, right)) => match compact_plan(
                    Some(regions),
                    left.regions,
                    right.regions,
                ) {
                    Ok(Some(routes)) => exists|
                        joined: Result<CompactSvdData<D, V>, OperationError>,
                    |
                        {
                            &&& #[trigger] svds_joined(
                                joined,
                                routes,
                                regions@,
                                data,
                                region_count(left.regions),
                                region_count(right.regions),
                                svd,
                            )
                            &&& stands_on(result, joined, left, right)
                        },
                    Ok(None) => false,
                    Err(error) => result == Err::<SvdOnSpaces<D, V>, DriveError<X>>(
                        DriveError::Operation(error),
                    ),
                },
            }
        };
    let (left, right) = spaces->Ok_0;
    let routes = compact_plan(Some(regions), left.regions, right.regions)->Ok_0->0;
    let joined = choose|joined: Result<CompactSvdData<D, V>, OperationError>|
        {
            &&& #[trigger] svds_joined(
                joined,
                routes,
                regions@,
                data,
                region_count(left.regions),
                region_count(right.regions),
                svd,
            )
            &&& stands_on(result, joined, left, right)
        };
    lemma_joined_svd_decomposes(
        ring,
        to_scalar,
        joined->Ok_0,
        routes,
        regions@,
        data,
        left.regions->0@,
        right.regions->0@,
        svd,
        k,
        i,
        j,
    );
}

/// The SVD of packed sectors: both spaces were given for their compact bond, and
/// hold, in every sector, an SVD of the sector's own matrix.
pub proof fn lemma_packed_svd_decomposes<
    D,
    V,
    X,
    F: Fn(&[D], usize, usize) -> Result<SvdStage<D, V>, OperationError>,
    G: Fn(&SectorLeg) -> Result<MapSpace, X>,
    H: Fn(&SectorLeg) -> Result<MapSpace, X>,
>(
    ring: Ring<D>,
    to_scalar: spec_fn(V) -> D,
    found: SvdOnSpaces<D, V>,
    matrices: Vec<SectorMatricization<D>>,
    left_layout: G,
    right_layout: H,
    svd: F,
    k: int,
)
    requires
        decomposes_exactly(ring, svd, to_scalar),
        svd_of_sectors(
            Ok::<SvdOnSpaces<D, V>, DriveError<X>>(found),
            matrices,
            left_layout,
            right_layout,
            svd,
            ring.zero,
        ),
        is_output(found.u_space.structure, FactorSide::Left),
        is_output(found.vh_space.structure, FactorSide::Right),
        is_source(geometries(matrices@), FactorSide::Left),
        is_source(geometries(matrices@), FactorSide::Right),
        0 <= k < matrices@.len(),
    ensures
        lays_out(
            left_layout,
            compact_bond(geometries(matrices@)),
            Ok::<MapSpace, X>(found.u_space),
        ),
        lays_out(
            right_layout,
            compact_bond(geometries(matrices@)),
            Ok::<MapSpace, X>(found.vh_space),
        ),
        found.singular_values@.len() == matrices@.len(),
        exists|u: Matrix<D>, vh: Matrix<D>|
            {
                &&& #[trigger] is_svd_of(
                    ring,
                    matrix(
                        matrices@[k].rows as int,
                        matrices@[k].cols as int,
                        matrices@[k].data@,
                    ),
                    u,
                    as_scalars(found.singular_values@[k].values@, to_scalar),
                    vh,
                )
                &&& holds_factor(
                    found.u@,
                    found.u_space.structure,
                    geometries(matrices@),
                    FactorSide::Left,
                    k,
                    u,
                )
                &&& holds_factor(
                    found.vh@,
                    found.vh_space.structure,
                    geometries(matrices@),
                    FactorSide::Right,
                    k,
                    vh,
                )
            },
{
    let result = Ok::<SvdOnSpaces<D, V>, DriveError<X>>(found);
    let input = InputMatricizations::Packed(matrices);
    let spaces = choose|spaces: Result<(MapSpace, MapSpace), X>|
        {
            &&& #[trigger] lays_out_both(
                left_layout,
                right_layout,
                compact_bond(geometries(matrices@)),
                spaces,
            )
            &&& match spaces {
                Err(error) => result == Err::<SvdOnSpaces<D, V>, DriveError<X>>(
                    DriveError::Layout(error),
                ),
                Ok((left, right)) => exists|
                    scattered: Result<CompactSvdData<D, V>, OperationError>,
                |
                    {
                        &&& #[trigger] svd_scattered(
                            scattered,
                            left.structure,
                            right.structure,
                            input,
                            svd,
                            ring.zero,
                        )
                        &&& stands_on(result, scattered, left, right)
                    },
            }
        };
    let (left, right) = spaces->Ok_0;
    let scattered = choose|scattered: Result<CompactSvdData<D, V>, OperationError>|
        {
            &&& #[trigger] svd_scattered(
                scattered,
                left.structure,
                right.structure,
                input,
                svd,
                ring.zero,
            )
            &&& stands_on(result, scattered, left, right)
        };
    lemma_scattered_svd(
        ring,
        to_scalar,
        scattered->Ok_0,
        left.structure,
        right.structure,
        input,
        svd,
        k,
    );
    let source = sector_input(input, k)->Ok_0;
    assert(source.data == matrices@[k].data@ && source.rows == matrices@[k].rows && source.cols
        == matrices@[k].cols);
    let (u, vh) = choose|u: Matrix<D>, vh: Matrix<D>|
        {
            &&& #[trigger] is_svd_of(
                ring,
                matrix(source.rows as int, source.cols as int, source.data),
                u,
                as_scalars(found.singular_values@[k].values@, to_scalar),
                vh,
            )
            &&& holds_factor(
                found.u@,
                found.u_space.structure,
                geometries(matrices@),
                FactorSide::Left,
                k,
                u,
            )
            &&& holds_factor(
                found.vh@,
                found.vh_space.structure,
                geometries(matrices@),
                FactorSide::Right,
                k,
                vh,
            )
        };
    assert(is_svd_of(
        ring,
        matrix(matrices@[k].rows as int, matrices@[k].cols as int, matrices@[k].data@),
        u,
        as_scalars(found.singular_values@[k].values@, to_scalar),
        vh,
    ));
}

/// The Hermitian eigendecomposition of a tensor with regions: every region was
/// judged Hermitian, and in the region of every sector the vectors are, with the
/// values listed for it, an eigensystem of the sector's matrix.
pub proof fn lemma_routed_eigh_diagonalizes<
    D,
    V,
    X,
    P: Fn(&[D], usize) -> bool,
    F: Fn(&[D], usize, usize) -> Result<EigenStage<D, V>, OperationError>,
    G: Fn(&SectorLeg) -> Result<MapSpace, X>,
    H: Fn(&SectorLeg) -> Result<MapSpace, X>,
>(
    ring: Ring<D>,
    to_scalar: spec_fn(V) -> D,
    found: EigensystemOnSpace<D, V>,
    regions: Vec<CoupledSectorRegion>,
    data: Seq<D>,
    left_layout: G,
    right_layout: H,
    hermitian: P,
    eigen: F,
    k: int,
    i: int,
)
    requires
        diagonalizes_exactly(ring, eigen, to_scalar),
        eigh_routed(
            Ok::<EigensystemOnSpace<D, V>, DriveError<X>>(found),
            regions,
            data,
            left_layout,
            right_layout,
            hermitian,
            eigen,
        ),
        is_region_source(regions@),
        is_ordered(found.space),
        forall|space: MapSpace| #[trigger]
            lays_out(
                right_layout,
                compact_bond(geometries(regions@)),
                Ok::<MapSpace, X>(space),
            ) && space.regions is Some ==> space.regions->0@.len() <= usize::MAX,
        0 <= k < regions@.len(),
        regions@[k].rows != 0,
        0 <= i < found.space.regions->0@.len(),
        found.space.regions->0@[i].coupled == regions@[k].coupled,
    ensures
        is_square_region(regions@[k], data.len() as int),
        judges(hermitian, region_matrix(data, regions@[k]), regions@[k].rows, true),
        found.values@.len() == regions@.len(),
        found.values@[k].sector == regions@[k].coupled,
        is_eigensystem(
            ring,
            region_of(data, regions@[k]),
            region_of(found.vectors@, found.space.regions->0@[i]),
            as_scalars(found.values@[k].values@, to_scalar),
        ),
{
    let result = Ok::<EigensystemOnSpace<D, V>, DriveError<X>>(found);
    let routed = choose|routed: Result<RoutedSpaces, DriveError<X>>|
        {
            &&& #[trigger] is_routed(routed, regions, left_layout, right_layout)
            &&& match routed {
                Err(error) => result == Err::<EigensystemOnSpace<D, V>, DriveError<X>>(error),
                Ok(routed) => eigh_along(result, routed, regions, data, hermitian, eigen),
            }
        };
    let spaces = routed->Ok_0;
    let outcome = choose|outcome: Result<(), OperationError>|
        {
            &&& #[trigger] regions_judged(outcome, data, regions@, hermitian)
            &&& match outcome {
                Err(error) => result == Err::<EigensystemOnSpace<D, V>, DriveError<X>>(
                    DriveError::Operation(error),
                ),
                Ok(()) => exists|
                    joined: Result<(Vec<D>, Vec<SectorSpectrum<V>>), OperationError>,
                |
                    {
                        &&& #[trigger] eigenvectors_joined(
                            joined,
                            spaces.routes@,
                            regions@,
                            data,
                            spaces.left.regions->0@.len() as int,
                            eigen,
                        )
                        &&& vectors_stand_on(result, joined, spaces.left)
                    },
            }
        };
    lemma_judged_regions(outcome, data, regions@, hermitian);
    let joined = choose|joined: Result<(Vec<D>, Vec<SectorSpectrum<V>>), OperationError>|
        {
            &&& #[trigger] eigenvectors_joined(
                joined,
                spaces.routes@,
                regions@,
                data,
                spaces.left.regions->0@.len() as int,
                eigen,
            )
            &&& vectors_stand_on(result, joined, spaces.left)
        };
    assert forall|m: int| 0 <= m < regions@.len() implies (#[trigger] regions@[m]).rows
        == regions@[m].cols by {
        assert(is_square_region(regions@[m], data.len() as int));
    }
    assert(lays_out(
        right_layout,
        compact_bond(geometries(regions@)),
        Ok::<MapSpace, X>(spaces.right),
    ));
    lemma_joined_vectors_diagonalize(
        ring,
        to_scalar,
        joined->Ok_0,
        spaces.routes@,
        regions@,
        data,
        spaces.left.regions->0@,
        spaces.right.regions->0@,
        eigen,
        k,
        i,
    );
}

/// The factorization of a tensor without regions: its packed sectors are those of
/// its blocks, and both spaces hold factors that multiply to each of them.
pub proof fn lemma_packed_factors_multiply<
    D,
    X,
    F: Fn(&[D], usize, usize) -> Result<RouteFactors<D>, OperationError>,
    G: Fn(&SectorLeg) -> Result<MapSpace, X>,
    H: Fn(&SectorLeg) -> Result<MapSpace, X>,
>(
    ring: Ring<D>,
    found: FactorsOnSpaces<D>,
    space: MapSpace,
    data: Seq<D>,
    left_layout: G,
    right_layout: H,
    factorize: F,
    one: D,
) -> (matrices: Vec<SectorMatricization<D>>)
    requires
        splits_exactly(ring, factorize, BondExtent::Compact),
        factors_packed(
            Ok::<FactorsOnSpaces<D>, DriveError<X>>(found),
            space,
            data,
            left_layout,
            right_layout,
            factorize,
            ring.zero,
            one,
        ),
        is_output(found.left_space.structure, FactorSide::Left),
        is_output(found.right_space.structure, FactorSide::Right),
    ensures
        matricized(
            Ok(matrices),
            space.structure.spec_blocks(),
            data,
            space.nout as int,
            ring.zero,
        ),
        forall|k: int|
            0 <= k < matrices@.len() && is_source(geometries(matrices@), FactorSide::Left)
                && is_source(geometries(matrices@), FactorSide::Right)
                ==> #[trigger] sector_multiplies(
                ring,
                found,
                InputMatricizations::Packed(matrices),
                k,
            ),
{
    let result = Ok::<FactorsOnSpaces<D>, DriveError<X>>(found);
    let packed = choose|packed: Result<Vec<SectorMatricization<D>>, OperationError>|
        {
            &&& #[trigger] matricized(
                packed,
                space.structure.spec_blocks(),
                data,
                space.nout as int,
                ring.zero,
            )
            &&& match packed {
                Err(error) => result == Err::<FactorsOnSpaces<D>, DriveError<X>>(
                    DriveError::Operation(error),
                ),
                Ok(matrices) => crate::compact_drive::factors_published(
                    result,
                    InputMatricizations::Packed(matrices),
                    factorize,
                    left_layout,
                    right_layout,
                    ring.zero,
                    one,
                ),
            }
        };
    let matrices = packed->Ok_0;
    assert forall|k: int|
        0 <= k < matrices@.len() && is_source(geometries(matrices@), FactorSide::Left)
            && is_source(geometries(matrices@), FactorSide::Right) implies
        #[trigger] sector_multiplies(ring, found, InputMatricizations::Packed(matrices), k) by {
        lemma_published_factors_multiply(
            ring,
            found,
            InputMatricizations::Packed(matrices),
            factorize,
            left_layout,
            right_layout,
            one,
            k,
        );
    }
    matrices
}

} // verus!
