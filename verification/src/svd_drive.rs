//! The compact SVD of a tensor: region by region where its layout and those of
//! both factors allow it, sector by sector otherwise.

use vstd::prelude::*;

use crate::bond::BondDimensions;
use crate::compact_drive::{
    compact_scatter_fits, input_geometries, svd_compact_by_sector, svd_scattered, CompactSvdData,
};
use crate::error::OperationError;
use crate::factor::SectorRank;
use crate::factor_routes::{build_compact_factor_plan, compact_bond, compact_bond_leg, compact_plan};
use crate::geometry::{
    geometries, sectors_distinct, CoupledSectorRegion, Geometry, SectorGeometry,
    SectorMatricization,
};
use crate::input::InputMatricizations;
use crate::matricize::{
    lemma_stacking, matricized, sector_matricizations, sector_writes, stack_blocks, stackable,
};
use crate::direct::routes_within;
use crate::polar::{shapes_accepted, validate_polar_direction, PolarDirection};
use crate::route_drive::{compact_regions_fit, sources_named, svd_compact_by_route, svds_joined};
use crate::sector_drive::regions_hold;
use crate::sides::{lays_out, plain_leg, takes_legs, DriveError};
use crate::space::{MapSpace, SectorLeg};
use crate::spectrum::SectorSpectrum;
use crate::stages::input_holds;
use crate::svd_stage::{is_svd, SvdStage};
use crate::writes::lemma_writes_len;

verus! {

/// The two factors of a compact SVD on their spaces, with the singular values.
#[derive(Clone, Debug, PartialEq, Eq)]
pub struct SvdOnSpaces<D, V> {
    pub u_space: MapSpace,
    pub u: Vec<D>,
    pub vh_space: MapSpace,
    pub vh: Vec<D>,
    pub singular_values: Vec<SectorSpectrum<V>>,
}

/// The spaces of both factors on a leg of these sectors may be given in this
/// way, the left one before the right one.
pub open spec fn lays_out_both<
    X,
    G: Fn(&SectorLeg) -> Result<MapSpace, X>,
    H: Fn(&SectorLeg) -> Result<MapSpace, X>,
>(
    left_layout: G,
    right_layout: H,
    bond: Seq<SectorRank>,
    spaces: Result<(MapSpace, MapSpace), X>,
) -> bool {
    match spaces {
        Ok((left, right)) => {
            &&& lays_out(left_layout, bond, Ok(left))
            &&& lays_out(right_layout, bond, Ok(right))
        },
        Err(error) => {
            ||| lays_out(left_layout, bond, Err(error))
            ||| exists|left: MapSpace|
                #[trigger] lays_out(left_layout, bond, Ok(left)) && lays_out(
                    right_layout,
                    bond,
                    Err(error),
                )
        },
    }
}

/// What the test of a direction gives: with one, the dimensions of both sides
/// are asked for, and a sector of the wrong shape is refused.
pub open spec fn direction_tested<
    X,
    B: Fn() -> Result<(BondDimensions, BondDimensions), X>,
>(
    outcome: Result<(), DriveError<X>>,
    direction: Option<(PolarDirection, PolarDirection)>,
    dimensions: B,
) -> bool {
    match direction {
        None => outcome == Ok::<(), DriveError<X>>(()),
        Some((accepted, reported)) => exists|
            answer: Result<(BondDimensions, BondDimensions), X>,
        |
            {
                &&& #[trigger] call_ensures(dimensions, (), answer)
                &&& outcome == match answer {
                    Err(error) => Err::<(), DriveError<X>>(DriveError::Layout(error)),
                    Ok((rows, cols)) => if shapes_accepted(rows@, cols@, accepted) {
                        Ok(())
                    } else {
                        Err(DriveError::Operation(reported.spec_error()))
                    },
                }
            },
    }
}

/// The data of a compact SVD on its spaces, or its failure.
pub open spec fn stands_on<D, V, X>(
    result: Result<SvdOnSpaces<D, V>, DriveError<X>>,
    found: Result<CompactSvdData<D, V>, OperationError>,
    left: MapSpace,
    right: MapSpace,
) -> bool {
    match found {
        Err(error) => result == Err::<SvdOnSpaces<D, V>, DriveError<X>>(
            DriveError::Operation(error),
        ),
        Ok(data) => result == Ok::<SvdOnSpaces<D, V>, DriveError<X>>(
            SvdOnSpaces {
                u_space: left,
                u: data.u,
                vh_space: right,
                vh: data.vh,
                singular_values: data.singular_values,
            },
        ),
    }
}

/// How many regions a layout has.
pub open spec fn region_count(regions: Option<Vec<CoupledSectorRegion>>) -> int {
    match regions {
        Some(regions) => regions@.len() as int,
        None => 0,
    }
}

/// The SVD of a tensor with regions: on spaces that were given for their compact
/// bond, the first refusal of a route, or what the backend gave along the
/// routes.
pub open spec fn svd_routed<
    D,
    V,
    X,
    F: Fn(&[D], usize, usize) -> Result<SvdStage<D, V>, OperationError>,
    G: Fn(&SectorLeg) -> Result<MapSpace, X>,
    H: Fn(&SectorLeg) -> Result<MapSpace, X>,
>(
    result: Result<SvdOnSpaces<D, V>, DriveError<X>>,
    regions: Vec<CoupledSectorRegion>,
    data: Seq<D>,
    left_layout: G,
    right_layout: H,
    svd: F,
) -> bool {
    exists|spaces: Result<(MapSpace, MapSpace), X>|
        {
            &&& #[trigger] lays_out_both(
                left_layout,
                right_layout,
                compact_bond(geometries(regions@)),
                spaces,
            )
            &&& match spaces {
                Err(error) => result == Err::<SvdOnSpaces<D, V>, DriveError<X>>(
                    DriveError::Layout(error),
                ),
                Ok((left, right)) => match compact_plan(
                    Some(regions),
                    left.regions,
                    right.regions,
                ) {
                    Ok(Some(routes)) => exists|
                        found: Result<CompactSvdData<D, V>, OperationError>,
                    |
                        {
                            &&& #[trigger] svds_joined(
                                found,
                                routes,
                                regions@,
                                data,
                                region_count(left.regions),
                                region_count(right.regions),
                                svd,
                            )
                            &&& stands_on(result, found, left, right)
                        },
                    Ok(None) => false,
                    Err(error) => result == Err::<SvdOnSpaces<D, V>, DriveError<X>>(
                        DriveError::Operation(error),
                    ),
                },
            }
        }
}

/// The SVD of a tensor without regions: on spaces that were given for the
/// compact bond of its sectors, what the backend gave for them, scattered; or
/// the refusal of a block that cannot be stacked.
pub open spec fn svd_packed<
    D,
    V,
    X,
    F: Fn(&[D], usize, usize) -> Result<SvdStage<D, V>, OperationError>,
    G: Fn(&SectorLeg) -> Result<MapSpace, X>,
    H: Fn(&SectorLeg) -> Result<MapSpace, X>,
>(
    result: Result<SvdOnSpaces<D, V>, DriveError<X>>,
    space: MapSpace,
    data: Seq<D>,
    left_layout: G,
    right_layout: H,
    svd: F,
    zero: D,
) -> bool {
    exists|packed: Result<Vec<SectorMatricization<D>>, OperationError>|
        {
            &&& #[trigger] matricized(
                packed,
                space.structure.spec_blocks(),
                data,
                space.nout as int,
                zero,
            )
            &&& match packed {
                Err(error) => result == Err::<SvdOnSpaces<D, V>, DriveError<X>>(
                    DriveError::Operation(error),
                ),
                Ok(matrices) => svd_of_sectors(
                    result,
                    matrices,
                    left_layout,
                    right_layout,
                    svd,
                    zero,
                ),
            }
        }
}

/// The SVD of packed sectors, on spaces that were given for their compact bond.
pub open spec fn svd_of_sectors<
    D,
    V,
    X,
    F: Fn(&[D], usize, usize) -> Result<SvdStage<D, V>, OperationError>,
    G: Fn(&SectorLeg) -> Result<MapSpace, X>,
    H: Fn(&SectorLeg) -> Result<MapSpace, X>,
>(
    result: Result<SvdOnSpaces<D, V>, DriveError<X>>,
    matrices: Vec<SectorMatricization<D>>,
    left_layout: G,
    right_layout: H,
    svd: F,
    zero: D,
) -> bool {
    exists|spaces: Result<(MapSpace, MapSpace), X>|
        {
            &&& #[trigger] lays_out_both(
                left_layout,
                right_layout,
                compact_bond(geometries(matrices@)),
                spaces,
            )
            &&& match spaces {
                Err(error) => result == Err::<SvdOnSpaces<D, V>, DriveError<X>>(
                    DriveError::Layout(error),
                ),
                Ok((left, right)) => exists|found: Result<CompactSvdData<D, V>, OperationError>|
                    {
                        &&& #[trigger] svd_scattered(
                            found,
                            left.structure,
                            right.structure,
                            InputMatricizations::Packed(matrices),
                            svd,
                            zero,
                        )
                        &&& stands_on(result, found, left, right)
                    },
            }
        }
}

/// The regions hold their matrices, and where there are routes between them and
/// the regions of the factors, these take what comes along.
pub open spec fn routed_spaces_take<
    D,
    X,
    G: Fn(&SectorLeg) -> Result<MapSpace, X>,
    H: Fn(&SectorLeg) -> Result<MapSpace, X>,
>(regions: Vec<CoupledSectorRegion>, left_layout: G, right_layout: H) -> bool {
    &&& regions_hold(regions@)
    &&& forall|leg: &SectorLeg, left: MapSpace, right: MapSpace|
        {
            &&& #[trigger] call_ensures(left_layout, (leg,), Ok::<MapSpace, X>(left))
            &&& #[trigger] call_ensures(right_layout, (leg,), Ok::<MapSpace, X>(right))
            &&& leg@ == plain_leg(compact_bond(geometries(regions@)))
        } ==> match compact_plan(Some(regions), left.regions, right.regions) {
            Ok(Some(routes)) => {
                &&& sources_named(routes, regions@)
                &&& routes_within(
                    routes,
                    region_count(left.regions),
                    region_count(right.regions),
                )
                &&& compact_regions_fit::<D>(
                    routes,
                    regions@,
                    region_count(left.regions),
                    region_count(right.regions),
                    left.structure.spec_len() as int,
                    right.structure.spec_len() as int,
                )
            },
            _ => true,
        }
}

/// The blocks of a tensor can be stacked, and its data holds them.
pub open spec fn can_be_packed<D>(space: MapSpace, data: Seq<D>) -> bool {
    &&& space.structure.wf()
    &&& data.len() >= space.structure.spec_len()
    &&& stackable(space.structure.spec_blocks(), space.nout as int)
}

/// The blocks of a tensor stack to these sectors.
pub open spec fn stacks_to(space: MapSpace, stacked: Seq<Geometry>) -> bool {
    let blocks = space.structure.spec_blocks();
    stack_blocks(blocks, space.nout as int, blocks.len() as int) == Ok::<
        Seq<Geometry>,
        OperationError,
    >(stacked)
}

/// The blocks can be stacked, and on the compact bond of the stacked sectors the
/// spaces take their factors.
pub open spec fn packed_spaces_take<
    D,
    X,
    G: Fn(&SectorLeg) -> Result<MapSpace, X>,
    H: Fn(&SectorLeg) -> Result<MapSpace, X>,
>(space: MapSpace, data: Seq<D>, left_layout: G, right_layout: H) -> bool {
    &&& can_be_packed(space, data)
    &&& forall|leg: &SectorLeg, left: MapSpace, right: MapSpace, stacked: Seq<Geometry>|
        {
            &&& #[trigger] call_ensures(left_layout, (leg,), Ok::<MapSpace, X>(left))
            &&& #[trigger] call_ensures(right_layout, (leg,), Ok::<MapSpace, X>(right))
            &&& leg@ == plain_leg(compact_bond(stacked))
            &&& #[trigger] stacks_to(space, stacked)
        } ==> {
            &&& left.structure.wf()
            &&& right.structure.wf()
            &&& compact_scatter_fits::<D>(
                left.structure.spec_blocks(),
                right.structure.spec_blocks(),
                stacked,
            )
        }
}

fn test_direction<X, B: Fn() -> Result<(BondDimensions, BondDimensions), X>>(
    direction: Option<(PolarDirection, PolarDirection)>,
    dimensions: &B,
) -> (outcome: Result<(), DriveError<X>>)
    requires
        direction is Some ==> call_requires(dimensions, ()),
    ensures
        direction_tested(outcome, direction, dimensions),
{
    match direction {
        None => Ok(()),
        Some((accepted, reported)) => {
            let answer = dimensions();
            assert(call_ensures(dimensions, (), answer));
            match answer {
                Err(error) => Err(DriveError::Layout(error)),
                Ok((rows, cols)) => match validate_polar_direction(
                    &rows,
                    &cols,
                    accepted,
                    reported,
                ) {
                    Ok(()) => Ok(()),
                    Err(error) => Err(DriveError::Operation(error)),
                },
            }
        },
    }
}

/// Asks for the spaces of both factors, the left one first.
pub(crate) fn both_spaces<
    X,
    G: Fn(&SectorLeg) -> Result<MapSpace, X>,
    H: Fn(&SectorLeg) -> Result<MapSpace, X>,
>(leg: &SectorLeg, left_layout: &G, right_layout: &H) -> (spaces: Result<
    (MapSpace, MapSpace),
    X,
>)
    requires
        !leg@.is_dual,
        takes_legs(left_layout),
        takes_legs(right_layout),
    ensures
        lays_out_both(left_layout, right_layout, leg@.sectors, spaces),
        match spaces {
            Ok((left, right)) => {
                &&& call_ensures(left_layout, (leg,), Ok::<MapSpace, X>(left))
                &&& call_ensures(right_layout, (leg,), Ok::<MapSpace, X>(right))
            },
            Err(_) => true,
        },
{
    assert(leg@ == plain_leg(leg@.sectors));
    let answer = left_layout(leg);
    assert(lays_out(left_layout, leg@.sectors, answer));
    let left = match answer {
        Ok(left) => left,
        Err(error) => {
            return Err(error);
        },
    };
    assert(lays_out(left_layout, leg@.sectors, Ok::<MapSpace, X>(left)));
    assert(call_ensures(left_layout, (leg,), Ok::<MapSpace, X>(left)));
    let answer = right_layout(leg);
    assert(lays_out(right_layout, leg@.sectors, answer));
    match answer {
        Ok(right) => Ok((left, right)),
        Err(error) => Err(error),
    }
}

pub(crate) fn on_spaces<D, V, X>(
    found: Result<CompactSvdData<D, V>, OperationError>,
    left: MapSpace,
    right: MapSpace,
) -> (result: Result<SvdOnSpaces<D, V>, DriveError<X>>)
    ensures
        stands_on(result, found, left, right),
{
    match found {
        Ok(data) => Ok(
            SvdOnSpaces {
                u_space: left,
                u: data.u,
                vh_space: right,
                vh: data.vh,
                singular_values: data.singular_values,
            },
        ),
        Err(error) => Err(DriveError::Operation(error)),
    }
}

fn svd_by_regions<
    D: Copy,
    V,
    X,
    F: Fn(&[D], usize, usize) -> Result<SvdStage<D, V>, OperationError>,
    G: Fn(&SectorLeg) -> Result<MapSpace, X>,
    H: Fn(&SectorLeg) -> Result<MapSpace, X>,
>(
    source: &Option<Vec<CoupledSectorRegion>>,
    regions: &Vec<CoupledSectorRegion>,
    data: &[D],
    left_layout: &G,
    right_layout: &H,
    svd: &F,
) -> (result: Result<SvdOnSpaces<D, V>, DriveError<X>>)
    requires
        *source == Some(*regions),
        routed_spaces_take::<D, X, &G, &H>(*regions, left_layout, right_layout),
        takes_legs(left_layout),
        takes_legs(right_layout),
        is_svd(svd),
    ensures
        svd_routed(result, *regions, data@, left_layout, right_layout, svd),
{
    let leg = SectorLeg::new(compact_bond_leg(regions.as_slice()));
    let spaces = both_spaces(&leg, left_layout, right_layout);
    assert(lays_out_both(
        left_layout,
        right_layout,
        compact_bond(geometries(regions@)),
        spaces,
    ));
    let (left, right) = match spaces {
        Ok(spaces) => spaces,
        Err(error) => {
            return Err(DriveError::Layout(error));
        },
    };
    assert(leg@ == plain_leg(compact_bond(geometries(regions@))));
    let routes = match build_compact_factor_plan(source, &left.regions, &right.regions) {
        Ok(Some(routes)) => routes,
        Ok(None) => {
            assert(false);
            vstd::pervasive::unreached()
        },
        Err(error) => {
            return Err(DriveError::Operation(error));
        },
    };
    let left_regions: usize = match &left.regions {
        Some(regions) => regions.len(),
        None => 0,
    };
    let right_regions: usize = match &right.regions {
        Some(regions) => regions.len(),
        None => 0,
    };
    let found = svd_compact_by_route(
        routes.as_slice(),
        regions.as_slice(),
        data,
        left_regions,
        right_regions,
        left.structure.required_len(),
        right.structure.required_len(),
        svd,
    );
    on_spaces(found, left, right)
}

/// The matrices of all sectors of a tensor.
pub(crate) fn pack_sectors<D: Copy>(space: &MapSpace, data: &[D], zero: D) -> (packed: Result<
    Vec<SectorMatricization<D>>,
    OperationError,
>)
    requires
        can_be_packed(*space, data@),
    ensures
        matricized(packed, space.structure.spec_blocks(), data@, space.nout as int, zero),
        packed is Ok ==> {
            &&& sectors_distinct(geometries(packed->Ok_0@))
            &&& input_holds(InputMatricizations::Packed(packed->Ok_0))
            &&& stacks_to(*space, geometries(packed->Ok_0@))
        },
{
    let ghost blocks = space.structure.spec_blocks();
    let packed = sector_matricizations(&space.structure, data, space.nout, zero);
    proof {
        if packed is Ok {
            let matrices = packed->Ok_0;
            let stacked = geometries(matrices@);
            lemma_stacking(blocks, space.nout as int, blocks.len() as int);
            assert forall|k: int| 0 <= k < matrices@.len() implies (
            #[trigger] matrices@[k]).data@.len() == matrices@[k].rows * matrices@[k].cols by {
                assert(stacked[k] == matrices@[k].geometry());
                lemma_writes_len(
                    Seq::new((stacked[k].rows * stacked[k].cols) as nat, |i: int| zero),
                    sector_writes(
                        data@,
                        blocks,
                        space.nout as int,
                        stacked[k],
                        blocks.len() as int,
                    ),
                );
            }
        }
    }
    packed
}

fn svd_by_sectors<
    D: Copy,
    V,
    X,
    F: Fn(&[D], usize, usize) -> Result<SvdStage<D, V>, OperationError>,
    G: Fn(&SectorLeg) -> Result<MapSpace, X>,
    H: Fn(&SectorLeg) -> Result<MapSpace, X>,
>(
    space: &MapSpace,
    data: &[D],
    left_layout: &G,
    right_layout: &H,
    svd: &F,
    zero: D,
) -> (result: Result<SvdOnSpaces<D, V>, DriveError<X>>)
    requires
        packed_spaces_take::<D, X, &G, &H>(*space, data@, left_layout, right_layout),
        takes_legs(left_layout),
        takes_legs(right_layout),
        is_svd(svd),
    ensures
        svd_packed(result, *space, data@, left_layout, right_layout, svd, zero),
{
    let packed = pack_sectors(space, data, zero);
    assert(matricized(
        packed,
        space.structure.spec_blocks(),
        data@,
        space.nout as int,
        zero,
    ));
    let matrices = match packed {
        Ok(matrices) => matrices,
        Err(error) => {
            return Err(DriveError::Operation(error));
        },
    };
    let ghost stacked = geometries(matrices@);
    let leg = SectorLeg::new(compact_bond_leg(matrices.as_slice()));
    let spaces = both_spaces(&leg, left_layout, right_layout);
    assert(lays_out_both(left_layout, right_layout, compact_bond(stacked), spaces));
    let (left, right) = match spaces {
        Ok(spaces) => spaces,
        Err(error) => {
            return Err(DriveError::Layout(error));
        },
    };
    assert(leg@ == plain_leg(compact_bond(stacked)));
    let input = InputMatricizations::Packed(matrices);
    assert(input_geometries(input) == stacked);
    let found = svd_compact_by_sector(&left.structure, &right.structure, &input, svd, zero);
    on_spaces(found, left, right)
}

/// The outer factors of the compact SVD of a tensor with the singular values. A
/// direction is tested before anything else. A tensor with regions is factored
/// along the routes between its regions and those of both factors, any other
/// one sector by sector.
pub fn svd_compact_on_space<
    D: Copy,
    V,
    X,
    B: Fn() -> Result<(BondDimensions, BondDimensions), X>,
    F: Fn(&[D], usize, usize) -> Result<SvdStage<D, V>, OperationError>,
    G: Fn(&SectorLeg) -> Result<MapSpace, X>,
    H: Fn(&SectorLeg) -> Result<MapSpace, X>,
>(
    space: &MapSpace,
    data: &[D],
    direction: Option<(PolarDirection, PolarDirection)>,
    dimensions: &B,
    left_layout: &G,
    right_layout: &H,
    svd: &F,
    zero: D,
) -> (result: Result<SvdOnSpaces<D, V>, DriveError<X>>)
    requires
        direction is Some ==> call_requires(dimensions, ()),
        takes_legs(left_layout),
        takes_legs(right_layout),
        is_svd(svd),
        match space.regions {
            Some(regions) => routed_spaces_take::<D, X, &G, &H>(
                regions,
                left_layout,
                right_layout,
            ),
            None => packed_spaces_take::<D, X, &G, &H>(*space, data@, left_layout, right_layout),
        },
    ensures
        exists|outcome: Result<(), DriveError<X>>|
            {
                &&& #[trigger] direction_tested(outcome, direction, dimensions)
                &&& match (outcome, space.regions) {
                    (Err(error), _) => result == Err::<SvdOnSpaces<D, V>, DriveError<X>>(error),
                    (Ok(()), Some(regions)) => svd_routed(
                        result,
                        regions,
                        data@,
                        left_layout,
                        right_layout,
                        svd,
                    ),
                    (Ok(()), None) => svd_packed(
                        result,
                        *space,
                        data@,
                        left_layout,
                        right_layout,
                        svd,
                        zero,
                    ),
                }
            },
{
    let outcome = test_direction(direction, dimensions);
    assert(direction_tested(outcome, direction, dimensions));
    match outcome {
        Err(error) => Err(error),
        Ok(()) => match &space.regions {
            Some(regions) => svd_by_regions(
                &space.regions,
                regions,
                data,
                left_layout,
                right_layout,
                svd,
            ),
            None => svd_by_sectors(space, data, left_layout, right_layout, svd, zero),
        },
    }
}

} // verus!
