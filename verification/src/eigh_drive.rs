//! The Hermitian eigendecomposition of an endomorphism: region by region where
//! its layout and that of the vectors allow it, sector by sector otherwise.

use vstd::prelude::*;

use crate::compact_drive::input_geometries;
use crate::direct::fills_left_regions;
use crate::eigen::{
    any_refused, first_region_refusal, first_shape_refusal, hermitian_shape_refusal,
    not_endomorphism, not_hermitian, region_refusal, require_endomorphism,
    validate_hermitian_contents, validate_hermitian_matricizations, validate_hermitian_regions,
    EndomorphismOperation,
};
use crate::eigen_drive::{
    eigenvectors_scattered, eigh_full_by_sector, square_scatter_fits, EigensystemOnSpace,
};
use crate::eigen_full::EigenStage;
use crate::error::OperationError;
use crate::factor_drive::{is_routed, route_spaces, RoutedSpaces};
use crate::factor_routes::{compact_bond, compact_bond_leg, compact_plan};
use crate::geometry::{geometries, CoupledSectorRegion, Geometry, SectorMatricization};
use crate::input::InputMatricizations;
use crate::matricize::matricized;
use crate::route_drive::{
    eigen_regions_fit, eigenvectors_joined, eigh_full_by_route, is_eigensolver, sources_named,
};
use crate::sector_drive::{region_matrix, regions_hold};
use crate::sides::{lays_out, plain_leg, takes_legs, DriveError};
use crate::space::{MapSpace, SectorLeg};
use crate::spectrum::SectorSpectrum;
use crate::svd_drive::{can_be_packed, pack_sectors, stacks_to};

verus! {

/// The test of hermiticity takes any square matrix.
pub open spec fn takes_squares<D, P: Fn(&[D], usize) -> bool>(hermitian: P) -> bool {
    forall|x: &[D], order: usize|
        x@.len() == order * order ==> #[trigger] call_requires(hermitian, (x, order))
}

/// The test may judge an `order x order` matrix in this way.
pub open spec fn judges<D, P: Fn(&[D], usize) -> bool>(
    hermitian: P,
    matrix: Seq<D>,
    order: usize,
    verdict: bool,
) -> bool {
    exists|x: &[D]| x@ == matrix && #[trigger] call_ensures(hermitian, (x, order), verdict)
}

/// Verdicts on the first regions of a buffer.
pub open spec fn are_region_verdicts<D, P: Fn(&[D], usize) -> bool>(
    verdicts: Seq<bool>,
    data: Seq<D>,
    regions: Seq<CoupledSectorRegion>,
    hermitian: P,
) -> bool {
    forall|k: int|
        0 <= k < verdicts.len() ==> judges(
            hermitian,
            region_matrix(data, regions[k]),
            regions[k].rows,
            #[trigger] verdicts[k],
        )
}

/// Verdicts on the first matrices.
pub open spec fn are_matrix_verdicts<D, P: Fn(&[D], usize) -> bool>(
    verdicts: Seq<bool>,
    matrices: Seq<SectorMatricization<D>>,
    hermitian: P,
) -> bool {
    forall|k: int|
        0 <= k < verdicts.len() ==> judges(
            hermitian,
            matrices[k].data@,
            matrices[k].rows,
            #[trigger] verdicts[k],
        )
}

/// What the test of all regions gives: the first region that does not lie in the
/// buffer or is not square is refused, and then a matrix that is not Hermitian.
pub open spec fn regions_judged<D, P: Fn(&[D], usize) -> bool>(
    outcome: Result<(), OperationError>,
    data: Seq<D>,
    regions: Seq<CoupledSectorRegion>,
    hermitian: P,
) -> bool {
    match first_region_refusal(regions, data.len() as int, 0) {
        Some(error) => outcome == Err::<(), OperationError>(error),
        None => exists|verdicts: Seq<bool>|
            {
                &&& #[trigger] are_region_verdicts(verdicts, data, regions, hermitian)
                &&& verdicts.len() == regions.len()
                &&& outcome == if any_refused(verdicts) {
                    Err::<(), OperationError>(not_hermitian())
                } else {
                    Ok(())
                }
            },
    }
}

/// What the test of all matrices gives: the first one that is not square is
/// refused, and then one that is not Hermitian.
pub open spec fn matrices_judged<D, P: Fn(&[D], usize) -> bool>(
    outcome: Result<(), OperationError>,
    matrices: Seq<SectorMatricization<D>>,
    hermitian: P,
) -> bool {
    match first_shape_refusal(matrices, 0) {
        Some(error) => outcome == Err::<(), OperationError>(error),
        None => exists|verdicts: Seq<bool>|
            {
                &&& #[trigger] are_matrix_verdicts(verdicts, matrices, hermitian)
                &&& verdicts.len() == matrices.len()
                &&& outcome == if any_refused(verdicts) {
                    Err::<(), OperationError>(not_hermitian())
                } else {
                    Ok(())
                }
            },
    }
}

proof fn lemma_no_region_refused(
    regions: Seq<CoupledSectorRegion>,
    len: int,
    from: int,
    k: int,
)
    requires
        0 <= from <= k < regions.len(),
        first_region_refusal(regions, len, from) is None,
    ensures
        region_refusal(regions[k], len) is None,
    decreases k - from,
{
    if from < k {
        lemma_no_region_refused(regions, len, from + 1, k);
    }
}

proof fn lemma_no_shape_refused<D>(matrices: Seq<SectorMatricization<D>>, from: int, k: int)
    requires
        0 <= from <= k < matrices.len(),
        first_shape_refusal(matrices, from) is None,
    ensures
        hermitian_shape_refusal(
            matrices[k].data@.len() as int,
            matrices[k].rows,
            matrices[k].cols,
        ) is None,
    decreases k - from,
{
    if from < k {
        lemma_no_shape_refused(matrices, from + 1, k);
    }
}

/// Tests all regions of a buffer, their shapes before their contents.
pub fn judge_regions<D, P: Fn(&[D], usize) -> bool>(
    data: &[D],
    regions: &[CoupledSectorRegion],
    hermitian: &P,
) -> (outcome: Result<(), OperationError>)
    requires
        takes_squares(hermitian),
    ensures
        regions_judged(outcome, data@, regions@, hermitian),
{
    let len: usize = data.len();
    let mut verdicts: Vec<bool> = Vec::with_capacity(regions.len());
    if let Err(error) = validate_hermitian_regions(len, regions, verdicts.as_slice()) {
        return Err(error);
    }
    let mut k: usize = 0;
    while k < regions.len()
        invariant
            k <= regions@.len(),
            len == data@.len(),
            takes_squares(hermitian),
            first_region_refusal(regions@, len as int, 0) is None,
            verdicts@.len() == k,
            are_region_verdicts(verdicts@, data@, regions@, hermitian),
        decreases regions.len() - k,
    {
        proof {
            lemma_no_region_refused(regions@, len as int, 0, k as int);
        }
        let region = vstd::slice::slice_subrange(data, regions[k].start, regions[k].end);
        let verdict = hermitian(region, regions[k].rows);
        assert(judges(
            hermitian,
            region_matrix(data@, regions@[k as int]),
            regions@[k as int].rows,
            verdict,
        ));
        let ghost before = verdicts@;
        verdicts.push(verdict);
        assert forall|j: int| 0 <= j < verdicts@.len() implies judges(
            hermitian,
            region_matrix(data@, regions@[j]),
            regions@[j].rows,
            #[trigger] verdicts@[j],
        ) by {
            if j < k {
                assert(verdicts@[j] == before[j]);
            }
        }
        k += 1;
    }
    validate_hermitian_contents(verdicts.as_slice())
}

/// Tests all matrices, their shapes before their contents.
pub fn judge_matrices<D, P: Fn(&[D], usize) -> bool>(
    matrices: &[SectorMatricization<D>],
    hermitian: &P,
) -> (outcome: Result<(), OperationError>)
    requires
        takes_squares(hermitian),
    ensures
        matrices_judged(outcome, matrices@, hermitian),
{
    let mut verdicts: Vec<bool> = Vec::with_capacity(matrices.len());
    if let Err(error) = validate_hermitian_matricizations(matrices, verdicts.as_slice()) {
        return Err(error);
    }
    let mut k: usize = 0;
    while k < matrices.len()
        invariant
            k <= matrices@.len(),
            takes_squares(hermitian),
            first_shape_refusal(matrices@, 0) is None,
            verdicts@.len() == k,
            are_matrix_verdicts(verdicts@, matrices@, hermitian),
        decreases matrices.len() - k,
    {
        proof {
            lemma_no_shape_refused(matrices@, 0, k as int);
        }
        let verdict = hermitian(matrices[k].data.as_slice(), matrices[k].rows);
        assert(judges(
            hermitian,
            matrices@[k as int].data@,
            matrices@[k as int].rows,
            verdict,
        ));
        let ghost before = verdicts@;
        verdicts.push(verdict);
        assert forall|j: int| 0 <= j < verdicts@.len() implies judges(
            hermitian,
            matrices@[j].data@,
            matrices@[j].rows,
            #[trigger] verdicts@[j],
        ) by {
            if j < k {
                assert(verdicts@[j] == before[j]);
            }
        }
        k += 1;
    }
    validate_hermitian_contents(verdicts.as_slice())
}

/// Eigenvectors on their space with the eigenvalues, or their failure.
pub open spec fn vectors_stand_on<D, V, X>(
    result: Result<EigensystemOnSpace<D, V>, DriveError<X>>,
    found: Result<(Vec<D>, Vec<SectorSpectrum<V>>), OperationError>,
    space: MapSpace,
) -> bool {
    match found {
        Err(error) => result == Err::<EigensystemOnSpace<D, V>, DriveError<X>>(
            DriveError::Operation(error),
        ),
        Ok((vectors, values)) => result == Ok::<EigensystemOnSpace<D, V>, DriveError<X>>(
            EigensystemOnSpace { space, vectors, values },
        ),
    }
}

fn vectors_on<D, V, X>(
    found: Result<(Vec<D>, Vec<SectorSpectrum<V>>), OperationError>,
    space: MapSpace,
) -> (result: Result<EigensystemOnSpace<D, V>, DriveError<X>>)
    ensures
        vectors_stand_on(result, found, space),
{
    match found {
        Ok((vectors, values)) => Ok(EigensystemOnSpace { space, vectors, values }),
        Err(error) => Err(DriveError::Operation(error)),
    }
}

/// The eigendecomposition of regions that were routed: the refusal of a region,
/// or the vectors that the backend gave along the routes.
pub open spec fn eigh_along<
    D,
    V,
    X,
    P: Fn(&[D], usize) -> bool,
    F: Fn(&[D], usize, usize) -> Result<EigenStage<D, V>, OperationError>,
>(
    result: Result<EigensystemOnSpace<D, V>, DriveError<X>>,
    routed: RoutedSpaces,
    regions: Vec<CoupledSectorRegion>,
    data: Seq<D>,
    hermitian: P,
    eigen: F,
) -> bool {
    exists|outcome: Result<(), OperationError>|
        {
            &&& #[trigger] regions_judged(outcome, data, regions@, hermitian)
            &&& match outcome {
                Err(error) => result == Err::<EigensystemOnSpace<D, V>, DriveError<X>>(
                    DriveError::Operation(error),
                ),
                Ok(()) => exists|found: Result<(Vec<D>, Vec<SectorSpectrum<V>>), OperationError>|
                    {
                        &&& #[trigger] eigenvectors_joined(
                            found,
                            routed.routes@,
                            regions@,
                            data,
                            routed.left.regions->0@.len() as int,
                            eigen,
                        )
                        &&& vectors_stand_on(result, found, routed.left)
                    },
            }
        }
}

/// The eigendecomposition of an endomorphism with regions: the first refusal of
/// a layout or a route, or the eigendecomposition along the routes.
pub open spec fn eigh_routed<
    D,
    V,
    X,
    P: Fn(&[D], usize) -> bool,
    F: Fn(&[D], usize, usize) -> Result<EigenStage<D, V>, OperationError>,
    G: Fn(&SectorLeg) -> Result<MapSpace, X>,
    H: Fn(&SectorLeg) -> Result<MapSpace, X>,
>(
    result: Result<EigensystemOnSpace<D, V>, DriveError<X>>,
    regions: Vec<CoupledSectorRegion>,
    data: Seq<D>,
    left_layout: G,
    right_layout: H,
    hermitian: P,
    eigen: F,
) -> bool {
    exists|routed: Result<RoutedSpaces, DriveError<X>>|
        {
            &&& #[trigger] is_routed(routed, regions, left_layout, right_layout)
            &&& match routed {
                Err(error) => result == Err::<EigensystemOnSpace<D, V>, DriveError<X>>(error),
                Ok(routed) => eigh_along(result, routed, regions, data, hermitian, eigen),
            }
        }
}

/// The eigendecomposition of packed sectors: the refusal of a matrix, or the
/// vectors that the backend gave, scattered over a space that was given for the
/// bond of the orders.
pub open spec fn eigh_of_sectors<
    D,
    V,
    X,
    P: Fn(&[D], usize) -> bool,
    F: Fn(&[D], usize, usize) -> Result<EigenStage<D, V>, OperationError>,
    G: Fn(&SectorLeg) -> Result<MapSpace, X>,
>(
    result: Result<EigensystemOnSpace<D, V>, DriveError<X>>,
    matrices: Vec<SectorMatricization<D>>,
    left_layout: G,
    hermitian: P,
    eigen: F,
    zero: D,
) -> bool {
    exists|outcome: Result<(), OperationError>|
        {
            &&& #[trigger] matrices_judged(outcome, matrices@, hermitian)
            &&& match outcome {
                Err(error) => result == Err::<EigensystemOnSpace<D, V>, DriveError<X>>(
                    DriveError::Operation(error),
                ),
                Ok(()) => eigh_scattered(result, matrices, left_layout, eigen, zero),
            }
        }
}

/// The vectors that the backend gave for packed sectors, scattered over a space
/// that was given for the bond of the orders.
pub open spec fn eigh_scattered<
    D,
    V,
    X,
    F: Fn(&[D], usize, usize) -> Result<EigenStage<D, V>, OperationError>,
    G: Fn(&SectorLeg) -> Result<MapSpace, X>,
>(
    result: Result<EigensystemOnSpace<D, V>, DriveError<X>>,
    matrices: Vec<SectorMatricization<D>>,
    left_layout: G,
    eigen: F,
    zero: D,
) -> bool {
    exists|answer: Result<MapSpace, X>|
        {
            &&& #[trigger] lays_out(left_layout, compact_bond(geometries(matrices@)), answer)
            &&& match answer {
                Err(error) => result == Err::<EigensystemOnSpace<D, V>, DriveError<X>>(
                    DriveError::Layout(error),
                ),
                Ok(space) => exists|
                    found: Result<(Vec<D>, Vec<SectorSpectrum<V>>), OperationError>,
                |
                    {
                        &&& #[trigger] eigenvectors_scattered(
                            found,
                            space.structure,
                            InputMatricizations::Packed(matrices),
                            eigen,
                            zero,
                        )
                        &&& vectors_stand_on(result, found, space)
                    },
            }
        }
}

/// The eigendecomposition of an endomorphism without regions: the refusal of a
/// block that cannot be stacked, or that of its packed sectors.
pub open spec fn eigh_packed<
    D,
    V,
    X,
    P: Fn(&[D], usize) -> bool,
    F: Fn(&[D], usize, usize) -> Result<EigenStage<D, V>, OperationError>,
    G: Fn(&SectorLeg) -> Result<MapSpace, X>,
>(
    result: Result<EigensystemOnSpace<D, V>, DriveError<X>>,
    space: MapSpace,
    data: Seq<D>,
    left_layout: G,
    hermitian: P,
    eigen: F,
    zero: D,
) -> bool {
    exists|packed: Result<Vec<SectorMatricization<D>>, OperationError>|
        {
            &&& #[trigger] matricized(
                packed,
                space.structure.spec_blocks(),
                data,
                space.nout as int,
                zero,
            )
            &&& match packed {
                Err(error) => result == Err::<EigensystemOnSpace<D, V>, DriveError<X>>(
                    DriveError::Operation(error),
                ),
                Ok(matrices) => eigh_of_sectors(
                    result,
                    matrices,
                    left_layout,
                    hermitian,
                    eigen,
                    zero,
                ),
            }
        }
}

/// The regions hold their matrices, and where there are routes between them and
/// the regions of the vectors, these take what comes along.
pub open spec fn vector_spaces_take<
    D,
    X,
    G: Fn(&SectorLeg) -> Result<MapSpace, X>,
    H: Fn(&SectorLeg) -> Result<MapSpace, X>,
>(regions: Vec<CoupledSectorRegion>, left_layout: G, right_layout: H) -> bool {
    &&& regions_hold(regions@)
    &&& forall|leg: &SectorLeg, left: MapSpace, right: MapSpace|
        {
            &&& #[trigger] call_ensures(left_layout, (leg,), Ok::<MapSpace, X>(left))
            &&& #[trigger] call_ensures(right_layout, (leg,), Ok::<MapSpace, X>(right))
            &&& leg@ == plain_leg(compact_bond(geometries(regions@)))
        } ==> match (compact_plan(Some(regions), left.regions, right.regions), left.regions) {
            (Ok(Some(routes)), Some(left_regions)) => {
                &&& sources_named(routes, regions@)
                &&& fills_left_regions(routes, left_regions@)
                &&& eigen_regions_fit::<D>(
                    routes,
                    regions@,
                    left_regions@.len() as int,
                    left.structure.spec_len() as int,
                )
            },
            _ => true,
        }
}

/// The blocks can be stacked, and on the bond of the stacked sectors the space
/// takes their vectors.
pub open spec fn packed_vectors_fit<D, X, G: Fn(&SectorLeg) -> Result<MapSpace, X>>(
    space: MapSpace,
    data: Seq<D>,
    left_layout: G,
) -> bool {
    &&& can_be_packed(space, data)
    &&& forall|leg: &SectorLeg, left: MapSpace, stacked: Seq<Geometry>|
        {
            &&& #[trigger] call_ensures(left_layout, (leg,), Ok::<MapSpace, X>(left))
            &&& leg@ == plain_leg(compact_bond(stacked))
            &&& #[trigger] stacks_to(space, stacked)
        } ==> {
            &&& left.structure.wf()
            &&& square_scatter_fits::<D>(left.structure.spec_blocks(), stacked)
        }
}

fn eigh_by_sectors<
    D: Copy,
    V,
    X,
    P: Fn(&[D], usize) -> bool,
    F: Fn(&[D], usize, usize) -> Result<EigenStage<D, V>, OperationError>,
    G: Fn(&SectorLeg) -> Result<MapSpace, X>,
>(
    space: &MapSpace,
    data: &[D],
    left_layout: &G,
    hermitian: &P,
    eigen: &F,
    zero: D,
) -> (result: Result<EigensystemOnSpace<D, V>, DriveError<X>>)
    requires
        takes_legs(left_layout),
        takes_squares(hermitian),
        is_eigensolver(eigen),
        packed_vectors_fit::<D, X, &G>(*space, data@, left_layout),
    ensures
        eigh_packed(result, *space, data@, left_layout, hermitian, eigen, zero),
{
    let packed = pack_sectors(space, data, zero);
    assert(matricized(
        packed,
        space.structure.spec_blocks(),
        data@,
        space.nout as int,
        zero,
    ));
    let matrices = match packed {
        Ok(matrices) => matrices,
        Err(error) => {
            return Err(DriveError::Operation(error));
        },
    };
    let outcome = judge_matrices(matrices.as_slice(), hermitian);
    assert(matrices_judged(outcome, matrices@, hermitian));
    if let Err(error) = outcome {
        return Err(DriveError::Operation(error));
    }
    let leg = SectorLeg::new(compact_bond_leg(matrices.as_slice()));
    let ghost stacked = geometries(matrices@);
    let answer = left_layout(&leg);
    proof {
        assert(leg@ == plain_leg(compact_bond(stacked)));
        assert(call_ensures(left_layout, (&leg,), answer));
        assert(lays_out(left_layout, compact_bond(stacked), answer));
        assert(stacks_to(*space, stacked));
    }
    let left = match answer {
        Ok(left) => left,
        Err(error) => {
            return Err(DriveError::Layout(error));
        },
    };
    assert(call_ensures(left_layout, (&leg,), Ok::<MapSpace, X>(left)));
    let input = InputMatricizations::Packed(matrices);
    assert(input_geometries(input) == stacked);
    let found = eigh_full_by_sector(&left.structure, &input, eigen, zero);
    vectors_on(found, left)
}

/// The Hermitian eigendecomposition of a tensor. A map between different spaces
/// is refused first. An endomorphism with regions is decomposed along the routes
/// between its regions and those of its vectors, any other one sector by sector;
/// what `hermitian` does not accept is refused before the backend is asked.
pub fn eigh_full_on_space<
    D: Copy,
    V,
    X,
    P: Fn(&[D], usize) -> bool,
    F: Fn(&[D], usize, usize) -> Result<EigenStage<D, V>, OperationError>,
    G: Fn(&SectorLeg) -> Result<MapSpace, X>,
    H: Fn(&SectorLeg) -> Result<MapSpace, X>,
>(
    space: &MapSpace,
    data: &[D],
    left_layout: &G,
    right_layout: &H,
    hermitian: &P,
    eigen: &F,
    zero: D,
) -> (result: Result<EigensystemOnSpace<D, V>, DriveError<X>>)
    requires
        takes_legs(left_layout),
        takes_legs(right_layout),
        takes_squares(hermitian),
        is_eigensolver(eigen),
        match space.regions {
            Some(regions) => vector_spaces_take::<D, X, &G, &H>(
                regions,
                left_layout,
                right_layout,
            ),
            None => packed_vectors_fit::<D, X, &G>(*space, data@, left_layout),
        },
    ensures
        if space.homspace@.codomain != space.homspace@.domain {
            result == Err::<EigensystemOnSpace<D, V>, DriveError<X>>(
                DriveError::Operation(not_endomorphism(EndomorphismOperation::Eigh)),
            )
        } else {
            match space.regions {
                Some(regions) => eigh_routed(
                    result,
                    regions,
                    data@,
                    left_layout,
                    right_layout,
                    hermitian,
                    eigen,
                ),
                None => eigh_packed(
                    result,
                    *space,
                    data@,
                    left_layout,
                    hermitian,
                    eigen,
                    zero,
                ),
            }
        },
{
    if let Err(error) = require_endomorphism(&space.homspace, EndomorphismOperation::Eigh) {
        return Err(DriveError::Operation(error));
    }
    let regions = match &space.regions {
        Some(regions) => regions,
        None => {
            return eigh_by_sectors(space, data, left_layout, hermitian, eigen, zero);
        },
    };
    let routed = route_spaces(&space.regions, regions, left_layout, right_layout);
    assert(is_routed(routed, *regions, left_layout, right_layout));
    let found = match routed {
        Ok(found) => found,
        Err(error) => {
            return Err(error);
        },
    };
    let outcome = judge_regions(data, regions.as_slice(), hermitian);
    assert(regions_judged(outcome, data@, regions@, hermitian));
    if let Err(error) = outcome {
        return Err(DriveError::Operation(error));
    }
    let vectors = match &found.left.regions {
        Some(left) => eigh_full_by_route(
            found.routes.as_slice(),
            regions.as_slice(),
            data,
            left.as_slice(),
            found.left.structure.required_len(),
            eigen,
        ),
        None => {
            assert(false);
            vstd::pervasive::unreached()
        },
    };
    vectors_on(vectors, found.left)
}

} // verus!
