//! The compact QR and LQ of a tensor: region by region where its layout and those
//! of both factors allow it, sector by sector otherwise.

use vstd::prelude::*;

use crate::compact_drive::{
    compact_spaces_take, factor_compact_by_sector, factors_published, is_factorizer,
};
use crate::completion::{is_qr, QrStage};
use crate::direct::{LqData, RouteFactors};
use crate::error::OperationError;
use crate::factor_routes::{
    build_compact_factor_plan, compact_bond, compact_bond_leg, compact_plan, CompactFactorRoute,
};
use crate::geometry::{geometries, CoupledSectorRegion, Geometry, SectorMatricization};
use crate::input::InputMatricizations;
use crate::lq_drive::{lq_compact_by_sector, lqs_published};
use crate::matricize::matricized;
use crate::publish::zeros;
use crate::route_drive::{
    factor_compact_by_route, factors_joined, lq_compact_by_route, lq_regions_fit, lqs_placed,
};
use crate::sector_drive::regions_hold;
use crate::sides::{plain_leg, takes_legs, DriveError, FactorsOnSpaces};
use crate::space::{MapSpace, SectorLeg};
use crate::spectrum::is_function;
use crate::stages::BondExtent;
use crate::svd_drive::{
    both_spaces, can_be_packed, lays_out_both, pack_sectors, region_count, routed_spaces_take,
    stacks_to,
};

verus! {

/// The data of two factors on their spaces, or their failure.
pub open spec fn factors_stand_on<D, X>(
    result: Result<FactorsOnSpaces<D>, DriveError<X>>,
    found: Result<(Vec<D>, Vec<D>), OperationError>,
    left_space: MapSpace,
    right_space: MapSpace,
) -> bool {
    match found {
        Err(error) => result == Err::<FactorsOnSpaces<D>, DriveError<X>>(
            DriveError::Operation(error),
        ),
        Ok((left, right)) => result == Ok::<FactorsOnSpaces<D>, DriveError<X>>(
            FactorsOnSpaces { left_space, left, right_space, right },
        ),
    }
}

pub(crate) fn factors_on<D, X>(
    found: Result<(Vec<D>, Vec<D>), OperationError>,
    left_space: MapSpace,
    right_space: MapSpace,
) -> (result: Result<FactorsOnSpaces<D>, DriveError<X>>)
    ensures
        factors_stand_on(result, found, left_space, right_space),
{
    match found {
        Ok((left, right)) => Ok(FactorsOnSpaces { left_space, left, right_space, right }),
        Err(error) => Err(DriveError::Operation(error)),
    }
}

/// The routes of a tensor with regions, and the spaces that were given for their
/// compact bond.
pub struct RoutedSpaces {
    pub left: MapSpace,
    pub right: MapSpace,
    pub routes: Vec<CompactFactorRoute>,
}

/// What is known before a tensor with regions is factored: the spaces that were
/// given for their compact bond and the routes to them, or why there are none.
pub open spec fn is_routed<
    X,
    G: Fn(&SectorLeg) -> Result<MapSpace, X>,
    H: Fn(&SectorLeg) -> Result<MapSpace, X>,
>(
    routed: Result<RoutedSpaces, DriveError<X>>,
    regions: Vec<CoupledSectorRegion>,
    left_layout: G,
    right_layout: H,
) -> bool {
    exists|spaces: Result<(MapSpace, MapSpace), X>|
        {
            &&& #[trigger] lays_out_both(
                left_layout,
                right_layout,
                compact_bond(geometries(regions@)),
                spaces,
            )
            &&& match (spaces, routed) {
                (Err(error), _) => routed == Err::<RoutedSpaces, DriveError<X>>(
                    DriveError::Layout(error),
                ),
                (Ok((left, right)), Ok(found)) => {
                    &&& found.left == left
                    &&& found.right == right
                    &&& compact_plan(Some(regions), left.regions, right.regions) == Ok::<
                        Option<Seq<CompactFactorRoute>>,
                        OperationError,
                    >(Some(found.routes@))
                },
                (Ok((left, right)), Err(error)) => {
                    &&& error is Operation
                    &&& compact_plan(Some(regions), left.regions, right.regions) == Err::<
                        Option<Seq<CompactFactorRoute>>,
                        OperationError,
                    >(error->Operation_0)
                },
            }
        }
}

/// Asks for the spaces of both factors, and finds the routes to them.
pub(crate) fn route_spaces<
    X,
    G: Fn(&SectorLeg) -> Result<MapSpace, X>,
    H: Fn(&SectorLeg) -> Result<MapSpace, X>,
>(
    source: &Option<Vec<CoupledSectorRegion>>,
    regions: &Vec<CoupledSectorRegion>,
    left_layout: &G,
    right_layout: &H,
) -> (routed: Result<RoutedSpaces, DriveError<X>>)
    requires
        *source == Some(*regions),
        takes_legs(left_layout),
        takes_legs(right_layout),
    ensures
        is_routed(routed, *regions, left_layout, right_layout),
        match routed {
            Ok(found) => exists|leg: &SectorLeg|
                {
                    &&& leg@ == plain_leg(compact_bond(geometries(regions@)))
                    &&& #[trigger] call_ensures(
                        left_layout,
                        (leg,),
                        Ok::<MapSpace, X>(found.left),
                    )
                    &&& #[trigger] call_ensures(
                        right_layout,
                        (leg,),
                        Ok::<MapSpace, X>(found.right),
                    )
                },
            Err(_) => true,
        },
{
    let leg = SectorLeg::new(compact_bond_leg(regions.as_slice()));
    let spaces = both_spaces(&leg, left_layout, right_layout);
    assert(lays_out_both(
        left_layout,
        right_layout,
        compact_bond(geometries(regions@)),
        spaces,
    ));
    let (left, right) = match spaces {
        Ok(spaces) => spaces,
        Err(error) => {
            return Err(DriveError::Layout(error));
        },
    };
    assert(leg@ == plain_leg(compact_bond(geometries(regions@))));
    match build_compact_factor_plan(source, &left.regions, &right.regions) {
        Ok(Some(routes)) => Ok(RoutedSpaces { left, right, routes }),
        Ok(None) => {
            assert(false);
            vstd::pervasive::unreached()
        },
        Err(error) => Err(DriveError::Operation(error)),
    }
}

pub(crate) fn count_regions(regions: &Option<Vec<CoupledSectorRegion>>) -> (count: usize)
    ensures
        count == region_count(*regions),
{
    match regions {
        Some(regions) => regions.len(),
        None => 0,
    }
}

/// The factors of a tensor with regions: the first refusal, or what the backend
/// gave along the routes.
pub open spec fn factors_routed<
    D,
    X,
    F: Fn(&[D], usize, usize) -> Result<RouteFactors<D>, OperationError>,
    G: Fn(&SectorLeg) -> Result<MapSpace, X>,
    H: Fn(&SectorLeg) -> Result<MapSpace, X>,
>(
    result: Result<FactorsOnSpaces<D>, DriveError<X>>,
    regions: Vec<CoupledSectorRegion>,
    data: Seq<D>,
    left_layout: G,
    right_layout: H,
    factorize: F,
) -> bool {
    exists|routed: Result<RoutedSpaces, DriveError<X>>|
        {
            &&& #[trigger] is_routed(routed, regions, left_layout, right_layout)
            &&& match routed {
                Err(error) => result == Err::<FactorsOnSpaces<D>, DriveError<X>>(error),
                Ok(routed) => exists|found: Result<(Vec<D>, Vec<D>), OperationError>|
                    {
                        &&& #[trigger] factors_joined(
                            found,
                            routed.routes@,
                            regions@,
                            data,
                            region_count(routed.left.regions),
                            region_count(routed.right.regions),
                            factorize,
                        )
                        &&& factors_stand_on(result, found, routed.left, routed.right)
                    },
            }
        }
}

/// The factors of a tensor without regions: the refusal of a block that cannot
/// be stacked, or what the backend gave for the sectors, published.
pub open spec fn factors_packed<
    D,
    X,
    F: Fn(&[D], usize, usize) -> Result<RouteFactors<D>, OperationError>,
    G: Fn(&SectorLeg) -> Result<MapSpace, X>,
    H: Fn(&SectorLeg) -> Result<MapSpace, X>,
>(
    result: Result<FactorsOnSpaces<D>, DriveError<X>>,
    space: MapSpace,
    data: Seq<D>,
    left_layout: G,
    right_layout: H,
    factorize: F,
    zero: D,
    one: D,
) -> bool {
    exists|packed: Result<Vec<SectorMatricization<D>>, OperationError>|
        {
            &&& #[trigger] matricized(
                packed,
                space.structure.spec_blocks(),
                data,
                space.nout as int,
                zero,
            )
            &&& match packed {
                Err(error) => result == Err::<FactorsOnSpaces<D>, DriveError<X>>(
                    DriveError::Operation(error),
                ),
                Ok(matrices) => factors_published(
                    result,
                    InputMatricizations::Packed(matrices),
                    factorize,
                    left_layout,
                    right_layout,
                    zero,
                    one,
                ),
            }
        }
}

/// The blocks can be stacked, and on the bond of the stacked sectors' compact
/// factors the spaces take these.
pub open spec fn stacked_spaces_take<
    D,
    X,
    G: Fn(&SectorLeg) -> Result<MapSpace, X>,
    H: Fn(&SectorLeg) -> Result<MapSpace, X>,
>(
    space: MapSpace,
    data: Seq<D>,
    left_layout: G,
    right_layout: H,
    zero: D,
    one: D,
) -> bool {
    &&& can_be_packed(space, data)
    &&& forall|stacked: Seq<Geometry>| #[trigger]
        stacks_to(space, stacked) ==> compact_spaces_take(
            left_layout,
            right_layout,
            stacked,
            zero,
            one,
        )
}

/// The two factors of a compact factorization of a tensor, such as its QR. A
/// tensor with regions is factored along the routes between its regions and
/// those of both factors, any other one sector by sector.
pub fn factor_compact_on_space<
    D: Copy,
    X,
    F: Fn(&[D], usize, usize) -> Result<RouteFactors<D>, OperationError>,
    G: Fn(&SectorLeg) -> Result<MapSpace, X>,
    H: Fn(&SectorLeg) -> Result<MapSpace, X>,
>(
    space: &MapSpace,
    data: &[D],
    left_layout: &G,
    right_layout: &H,
    factorize: &F,
    zero: D,
    one: D,
) -> (result: Result<FactorsOnSpaces<D>, DriveError<X>>)
    requires
        takes_legs(left_layout),
        takes_legs(right_layout),
        is_factorizer(factorize, BondExtent::Compact),
        match space.regions {
            Some(regions) => routed_spaces_take::<D, X, &G, &H>(
                regions,
                left_layout,
                right_layout,
            ),
            None => stacked_spaces_take::<D, X, &G, &H>(
                *space,
                data@,
                left_layout,
                right_layout,
                zero,
                one,
            ),
        },
    ensures
        match space.regions {
            Some(regions) => factors_routed(
                result,
                regions,
                data@,
                left_layout,
                right_layout,
                factorize,
            ),
            None => factors_packed(
                result,
                *space,
                data@,
                left_layout,
                right_layout,
                factorize,
                zero,
                one,
            ),
        },
{
    if let Some(regions) = &space.regions {
        let routed = route_spaces(&space.regions, regions, left_layout, right_layout);
        assert(is_routed(routed, *regions, left_layout, right_layout));
        let found = match routed {
            Ok(found) => found,
            Err(error) => {
                return Err(error);
            },
        };
        let factors = factor_compact_by_route(
            found.routes.as_slice(),
            regions.as_slice(),
            data,
            count_regions(&found.left.regions),
            count_regions(&found.right.regions),
            found.left.structure.required_len(),
            found.right.structure.required_len(),
            factorize,
        );
        return factors_on(factors, found.left, found.right);
    }
    let packed = pack_sectors(space, data, zero);
    assert(matricized(
        packed,
        space.structure.spec_blocks(),
        data@,
        space.nout as int,
        zero,
    ));
    match packed {
        Err(error) => Err(DriveError::Operation(error)),
        Ok(matrices) => {
            assert(stacks_to(*space, geometries(matrices@)));
            let input = InputMatricizations::Packed(matrices);
            factor_compact_by_sector(&input, factorize, left_layout, right_layout, zero, one)
        },
    }
}

/// The regions hold their matrices, and where there are routes between them and
/// the regions of the factors, these have room for what comes along.
pub open spec fn lq_spaces_take<
    X,
    G: Fn(&SectorLeg) -> Result<MapSpace, X>,
    H: Fn(&SectorLeg) -> Result<MapSpace, X>,
>(regions: Vec<CoupledSectorRegion>, left_layout: G, right_layout: H) -> bool {
    &&& regions_hold(regions@)
    &&& forall|leg: &SectorLeg, left: MapSpace, right: MapSpace|
        {
            &&& #[trigger] call_ensures(left_layout, (leg,), Ok::<MapSpace, X>(left))
            &&& #[trigger] call_ensures(right_layout, (leg,), Ok::<MapSpace, X>(right))
            &&& leg@ == plain_leg(compact_bond(geometries(regions@)))
        } ==> match (
            compact_plan(Some(regions), left.regions, right.regions),
            left.regions,
            right.regions,
        ) {
            (Ok(Some(routes)), Some(left_regions), Some(right_regions)) => lq_regions_fit(
                routes,
                regions@,
                left_regions@,
                right_regions@,
                left.structure.spec_len() as int,
                right.structure.spec_len() as int,
            ),
            _ => true,
        }
}

/// The LQ of a tensor with regions: the first refusal, or what the backend gave
/// for the adjoints along the routes, put in place.
pub open spec fn lq_routed<
    D,
    X,
    C: Fn(D) -> D,
    F: Fn(&[D], usize, usize) -> Result<QrStage<D>, OperationError>,
    G: Fn(&SectorLeg) -> Result<MapSpace, X>,
    H: Fn(&SectorLeg) -> Result<MapSpace, X>,
>(
    result: Result<FactorsOnSpaces<D>, DriveError<X>>,
    regions: Vec<CoupledSectorRegion>,
    data: Seq<D>,
    left_layout: G,
    right_layout: H,
    conjugate: C,
    qr: F,
    zero: D,
) -> bool {
    exists|routed: Result<RoutedSpaces, DriveError<X>>|
        {
            &&& #[trigger] is_routed(routed, regions, left_layout, right_layout)
            &&& match routed {
                Err(error) => result == Err::<FactorsOnSpaces<D>, DriveError<X>>(error),
                Ok(routed) => exists|found: Result<(Vec<D>, Vec<D>), OperationError>|
                    {
                        &&& #[trigger] lqs_placed(
                            found,
                            routed.routes@,
                            regions@,
                            data,
                            routed.left.regions->0@,
                            routed.right.regions->0@,
                            LqData {
                                left: zeros(zero, routed.left.structure.spec_len() as int),
                                right: zeros(zero, routed.right.structure.spec_len() as int),
                            },
                            conjugate,
                            qr,
                        )
                        &&& factors_stand_on(result, found, routed.left, routed.right)
                    },
            }
        }
}

/// The LQ of a tensor without regions: the refusal of a block that cannot be
/// stacked, or what the backend gave for the sectors' adjoints, published.
pub open spec fn lq_packed<
    D,
    X,
    C: Fn(D) -> D,
    F: Fn(&[D], usize, usize) -> Result<QrStage<D>, OperationError>,
    G: Fn(&SectorLeg) -> Result<MapSpace, X>,
    H: Fn(&SectorLeg) -> Result<MapSpace, X>,
>(
    result: Result<FactorsOnSpaces<D>, DriveError<X>>,
    space: MapSpace,
    data: Seq<D>,
    left_layout: G,
    right_layout: H,
    conjugate: C,
    qr: F,
    zero: D,
    one: D,
) -> bool {
    exists|packed: Result<Vec<SectorMatricization<D>>, OperationError>|
        {
            &&& #[trigger] matricized(
                packed,
                space.structure.spec_blocks(),
                data,
                space.nout as int,
                zero,
            )
            &&& match packed {
                Err(error) => result == Err::<FactorsOnSpaces<D>, DriveError<X>>(
                    DriveError::Operation(error),
                ),
                Ok(matrices) => lqs_published(
                    result,
                    InputMatricizations::Packed(matrices),
                    conjugate,
                    qr,
                    left_layout,
                    right_layout,
                    zero,
                    one,
                ),
            }
        }
}

/// The compact LQ of a tensor, through QRs of adjoints: along the routes between
/// its regions and those of both factors, or sector by sector where it has no
/// regions.
pub fn lq_compact_on_space<
    D: Copy,
    X,
    C: Fn(D) -> D,
    F: Fn(&[D], usize, usize) -> Result<QrStage<D>, OperationError>,
    G: Fn(&SectorLeg) -> Result<MapSpace, X>,
    H: Fn(&SectorLeg) -> Result<MapSpace, X>,
>(
    space: &MapSpace,
    data: &[D],
    left_layout: &G,
    right_layout: &H,
    conjugate: &C,
    qr: &F,
    zero: D,
    one: D,
) -> (result: Result<FactorsOnSpaces<D>, DriveError<X>>)
    requires
        takes_legs(left_layout),
        takes_legs(right_layout),
        is_function(conjugate),
        is_qr(qr),
        match space.regions {
            Some(regions) => lq_spaces_take::<X, &G, &H>(regions, left_layout, right_layout),
            None => stacked_spaces_take::<D, X, &G, &H>(
                *space,
                data@,
                left_layout,
                right_layout,
                zero,
                one,
            ),
        },
    ensures
        match space.regions {
            Some(regions) => lq_routed(
                result,
                regions,
                data@,
                left_layout,
                right_layout,
                conjugate,
                qr,
                zero,
            ),
            None => lq_packed(
                result,
                *space,
                data@,
                left_layout,
                right_layout,
                conjugate,
                qr,
                zero,
                one,
            ),
        },
{
    if let Some(regions) = &space.regions {
        let routed = route_spaces(&space.regions, regions, left_layout, right_layout);
        assert(is_routed(routed, *regions, left_layout, right_layout));
        let found = match routed {
            Ok(found) => found,
            Err(error) => {
                return Err(error);
            },
        };
        let factors = match (&found.left.regions, &found.right.regions) {
            (Some(left), Some(right)) => lq_compact_by_route(
                found.routes.as_slice(),
                regions.as_slice(),
                data,
                left.as_slice(),
                right.as_slice(),
                found.left.structure.required_len(),
                found.right.structure.required_len(),
                conjugate,
                qr,
                zero,
            ),
            _ => {
                assert(false);
                vstd::pervasive::unreached()
            },
        };
        return factors_on(factors, found.left, found.right);
    }
    let packed = pack_sectors(space, data, zero);
    assert(matricized(
        packed,
        space.structure.spec_blocks(),
        data@,
        space.nout as int,
        zero,
    ));
    match packed {
        Err(error) => Err(DriveError::Operation(error)),
        Ok(matrices) => {
            assert(stacks_to(*space, geometries(matrices@)));
            let input = InputMatricizations::Packed(matrices);
            lq_compact_by_sector(&input, conjugate, qr, left_layout, right_layout, zero, one)
        },
    }
}

} // verus!
