//! Compact factorizations of tensors whose trees carry outer multiplicities:
//! region by region where the factors have the trees of the source, sector by
//! sector otherwise.

use vstd::prelude::*;

use crate::compact_drive::{
    compact_scatter_fits, factor_by_sector_checked, input_geometries, is_factorizer,
    labelled_factors_published, labelled_layouts_take, svd_compact_by_sector, svd_scattered,
    CompactSvdData,
};
use crate::direct::{routes_within, RouteFactors};
use crate::error::OperationError;
use crate::factor::SectorRank;
use crate::factor_drive::{count_regions, factors_on, factors_stand_on, RoutedSpaces};
use crate::factor_routes::{
    compact_bond, compact_bond_leg, compact_plan, factor_trees_match,
    prepare_compact_factor_plan_generic_checked, CompactFactorRoute,
};
use crate::geometry::{
    geometries, sectors_distinct, CoupledSectorRegion, Geometry, SectorMatricization,
};
use crate::input::InputMatricizations;
use crate::keys::{first_refusal, staged_fusion_tree_keys, validate_generic_factor_keys};
use crate::layout::FactorSide;
use crate::matricize::matricized;
use crate::pair_drive::own_labels;
use crate::route_drive::{
    compact_regions_fit, factor_compact_by_route, factors_joined, sources_named,
    svd_compact_by_route, svds_joined,
};
use crate::sector_drive::regions_hold;
use crate::sides::{lays_out, plain_leg, takes_legs, DriveError, FactorsOnSpaces};
use crate::space::{MapSpace, SectorLeg};
use crate::stages::BondExtent;
use crate::svd_drive::{
    both_spaces, can_be_packed, lays_out_both, on_spaces, pack_sectors, region_count, stacks_to,
    stands_on, SvdOnSpaces,
};
use crate::svd_stage::{is_svd, SvdStage};

verus! {

/// The routes of compact factors, `None` where the source has no regions or the
/// factors do not have its trees, or the refusal of a factor without regions.
pub open spec fn generic_plan(
    source: Option<Vec<CoupledSectorRegion>>,
    left: Option<Vec<CoupledSectorRegion>>,
    right: Option<Vec<CoupledSectorRegion>>,
) -> Result<Option<Seq<CompactFactorRoute>>, OperationError> {
    match (source, left, right) {
        (Some(from), Some(to_left), Some(to_right)) if !factor_trees_match(
            geometries(from@),
            geometries(to_left@),
            geometries(to_right@),
        ) => Ok(None),
        _ => compact_plan(source, left, right),
    }
}

/// What is known before a tensor with regions is factored: the spaces that were
/// given for their compact bond and the routes to them, where there are any, or
/// why there are no spaces.
pub open spec fn is_generic_routed<
    X,
    G: Fn(&SectorLeg) -> Result<MapSpace, X>,
    H: Fn(&SectorLeg) -> Result<MapSpace, X>,
>(
    routed: Result<Option<RoutedSpaces>, DriveError<X>>,
    regions: Vec<CoupledSectorRegion>,
    left_layout: G,
    right_layout: H,
) -> bool {
    exists|spaces: Result<(MapSpace, MapSpace), X>|
        {
            &&& #[trigger] lays_out_both(
                left_layout,
                right_layout,
                compact_bond(geometries(regions@)),
                spaces,
            )
            &&& match spaces {
                Err(error) => routed == Err::<Option<RoutedSpaces>, DriveError<X>>(
                    DriveError::Layout(error),
                ),
                Ok((left, right)) => match (
                    generic_plan(Some(regions), left.regions, right.regions),
                    routed,
                ) {
                    (Ok(Some(routes)), Ok(Some(found))) => {
                        &&& found.left == left
                        &&& found.right == right
                        &&& found.routes@ == routes
                    },
                    (Ok(None), Ok(None)) => true,
                    (Err(error), _) => routed == Err::<Option<RoutedSpaces>, DriveError<X>>(
                        DriveError::Operation(error),
                    ),
                    _ => false,
                },
            }
        }
}

/// Spaces may be given to which there are no routes.
pub open spec fn falls_back<
    X,
    G: Fn(&SectorLeg) -> Result<MapSpace, X>,
    H: Fn(&SectorLeg) -> Result<MapSpace, X>,
>(source: Option<Vec<CoupledSectorRegion>>, left_layout: G, right_layout: H) -> bool {
    match source {
        None => true,
        Some(regions) => exists|leg: &SectorLeg, left: MapSpace, right: MapSpace|
            {
                &&& leg@ == plain_leg(compact_bond(geometries(regions@)))
                &&& #[trigger] call_ensures(left_layout, (leg,), Ok::<MapSpace, X>(left))
                &&& #[trigger] call_ensures(right_layout, (leg,), Ok::<MapSpace, X>(right))
                &&& generic_plan(source, left.regions, right.regions) == Ok::<
                    Option<Seq<CompactFactorRoute>>,
                    OperationError,
                >(None)
            },
    }
}

/// The regions of a source hold their matrices, and where there are routes
/// between them and the regions of the factors, these take what comes along.
pub open spec fn generic_spaces_take<
    D,
    X,
    G: Fn(&SectorLeg) -> Result<MapSpace, X>,
    H: Fn(&SectorLeg) -> Result<MapSpace, X>,
>(source: Option<Vec<CoupledSectorRegion>>, left_layout: G, right_layout: H) -> bool {
    match source {
        None => true,
        Some(regions) => {
            &&& regions_hold(regions@)
            &&& forall|leg: &SectorLeg, left: MapSpace, right: MapSpace|
                {
                    &&& #[trigger] call_ensures(left_layout, (leg,), Ok::<MapSpace, X>(left))
                    &&& #[trigger] call_ensures(right_layout, (leg,), Ok::<MapSpace, X>(right))
                    &&& leg@ == plain_leg(compact_bond(geometries(regions@)))
                } ==> match generic_plan(source, left.regions, right.regions) {
                    Ok(Some(routes)) => {
                        &&& sources_named(routes, regions@)
                        &&& routes_within(
                            routes,
                            region_count(left.regions),
                            region_count(right.regions),
                        )
                        &&& compact_regions_fit::<D>(
                            routes,
                            regions@,
                            region_count(left.regions),
                            region_count(right.regions),
                            left.structure.spec_len() as int,
                            right.structure.spec_len() as int,
                        )
                    },
                    _ => true,
                }
        },
    }
}

/// Asks for the spaces of both factors, and finds the routes to them.
fn route_generic_spaces<
    X,
    G: Fn(&SectorLeg) -> Result<MapSpace, X>,
    H: Fn(&SectorLeg) -> Result<MapSpace, X>,
>(
    source: &Option<Vec<CoupledSectorRegion>>,
    regions: &Vec<CoupledSectorRegion>,
    left_layout: &G,
    right_layout: &H,
) -> (routed: Result<Option<RoutedSpaces>, DriveError<X>>)
    requires
        *source == Some(*regions),
        takes_legs(left_layout),
        takes_legs(right_layout),
    ensures
        is_generic_routed(routed, *regions, left_layout, right_layout),
        match routed {
            Ok(Some(found)) => exists|leg: &SectorLeg|
                {
                    &&& leg@ == plain_leg(compact_bond(geometries(regions@)))
                    &&& #[trigger] call_ensures(
                        left_layout,
                        (leg,),
                        Ok::<MapSpace, X>(found.left),
                    )
                    &&& #[trigger] call_ensures(
                        right_layout,
                        (leg,),
                        Ok::<MapSpace, X>(found.right),
                    )
                    &&& generic_plan(*source, found.left.regions, found.right.regions) == Ok::<
                        Option<Seq<CompactFactorRoute>>,
                        OperationError,
                    >(Some(found.routes@))
                },
            Ok(None) => falls_back(*source, left_layout, right_layout),
            Err(_) => true,
        },
{
    let leg = SectorLeg::new(compact_bond_leg(regions.as_slice()));
    let spaces = both_spaces(&leg, left_layout, right_layout);
    assert(lays_out_both(
        left_layout,
        right_layout,
        compact_bond(geometries(regions@)),
        spaces,
    ));
    let (left, right) = match spaces {
        Ok(spaces) => spaces,
        Err(error) => {
            return Err(DriveError::Layout(error));
        },
    };
    proof {
        assert(leg@ == plain_leg(compact_bond(geometries(regions@))));
        assert(call_ensures(left_layout, (&leg,), Ok::<MapSpace, X>(left)));
        assert(call_ensures(right_layout, (&leg,), Ok::<MapSpace, X>(right)));
    }
    match prepare_compact_factor_plan_generic_checked(source, &left.regions, &right.regions) {
        Ok(Some(routes)) => Ok(Some(RoutedSpaces { left, right, routes })),
        Ok(None) => Ok(None),
        Err(error) => Err(DriveError::Operation(error)),
    }
}

/// What laying out the right factor gives, once the labels of the left one have
/// their places in the source.
pub open spec fn right_is_labelled<X, H: Fn(&SectorLeg) -> Result<MapSpace, X>>(
    spaces: Result<(MapSpace, MapSpace), DriveError<X>>,
    left: MapSpace,
    right_layout: H,
    bond: Seq<SectorRank>,
    geometries: Seq<Geometry>,
) -> bool {
    exists|answer: Result<MapSpace, X>|
        {
            &&& #[trigger] lays_out(right_layout, bond, answer)
            &&& spaces == match answer {
                Err(error) => Err::<(MapSpace, MapSpace), DriveError<X>>(
                    DriveError::Layout(error),
                ),
                Ok(right) => match first_refusal(
                    geometries,
                    FactorSide::Right,
                    own_labels(right.structure),
                    0,
                ) {
                    Some(error) => Err(DriveError::Operation(error)),
                    None => Ok((left, right)),
                },
            }
        }
}

/// What laying out both factors gives where the labels of each have to have
/// their places in the source; the right one is asked for when the left one is
/// accepted.
pub open spec fn both_are_labelled<
    X,
    G: Fn(&SectorLeg) -> Result<MapSpace, X>,
    H: Fn(&SectorLeg) -> Result<MapSpace, X>,
>(
    spaces: Result<(MapSpace, MapSpace), DriveError<X>>,
    left_layout: G,
    right_layout: H,
    bond: Seq<SectorRank>,
    geometries: Seq<Geometry>,
) -> bool {
    exists|answer: Result<MapSpace, X>|
        {
            &&& #[trigger] lays_out(left_layout, bond, answer)
            &&& match answer {
                Err(error) => spaces == Err::<(MapSpace, MapSpace), DriveError<X>>(
                    DriveError::Layout(error),
                ),
                Ok(left) => match first_refusal(
                    geometries,
                    FactorSide::Left,
                    own_labels(left.structure),
                    0,
                ) {
                    Some(error) => spaces == Err::<(MapSpace, MapSpace), DriveError<X>>(
                        DriveError::Operation(error),
                    ),
                    None => right_is_labelled(spaces, left, right_layout, bond, geometries),
                },
            }
        }
}

/// Asks for the spaces of both factors, and checks the labels of each before the
/// next step.
fn labelled_spaces<
    D,
    X,
    G: Fn(&SectorLeg) -> Result<MapSpace, X>,
    H: Fn(&SectorLeg) -> Result<MapSpace, X>,
>(
    leg: &SectorLeg,
    matrices: &[SectorMatricization<D>],
    left_layout: &G,
    right_layout: &H,
) -> (spaces: Result<(MapSpace, MapSpace), DriveError<X>>)
    requires
        !leg@.is_dual,
        sectors_distinct(geometries(matrices@)),
        takes_legs(left_layout),
        takes_legs(right_layout),
    ensures
        both_are_labelled(
            spaces,
            left_layout,
            right_layout,
            leg@.sectors,
            geometries(matrices@),
        ),
        match spaces {
            Ok((left, right)) => {
                &&& call_ensures(left_layout, (leg,), Ok::<MapSpace, X>(left))
                &&& call_ensures(right_layout, (leg,), Ok::<MapSpace, X>(right))
                &&& first_refusal(
                    geometries(matrices@),
                    FactorSide::Left,
                    own_labels(left.structure),
                    0,
                ) is None
                &&& first_refusal(
                    geometries(matrices@),
                    FactorSide::Right,
                    own_labels(right.structure),
                    0,
                ) is None
            },
            Err(_) => true,
        },
{
    assert(leg@ == plain_leg(leg@.sectors));
    let answer = left_layout(leg);
    assert(lays_out(left_layout, leg@.sectors, answer));
    let left = match answer {
        Ok(left) => left,
        Err(error) => {
            return Err(DriveError::Layout(error));
        },
    };
    assert(call_ensures(left_layout, (leg,), Ok::<MapSpace, X>(left)));
    let keys = staged_fusion_tree_keys(&left.structure);
    if let Err(error) = validate_generic_factor_keys(
        keys.as_slice(),
        FactorSide::Left,
        matrices,
        None,
    ) {
        return Err(DriveError::Operation(error));
    }
    let answer = right_layout(leg);
    assert(lays_out(right_layout, leg@.sectors, answer));
    let right = match answer {
        Ok(right) => right,
        Err(error) => {
            return Err(DriveError::Layout(error));
        },
    };
    assert(call_ensures(right_layout, (leg,), Ok::<MapSpace, X>(right)));
    let keys = staged_fusion_tree_keys(&right.structure);
    if let Err(error) = validate_generic_factor_keys(
        keys.as_slice(),
        FactorSide::Right,
        matrices,
        None,
    ) {
        return Err(DriveError::Operation(error));
    }
    Ok((left, right))
}

/// The SVD of packed sectors, on spaces that were given for their compact bond
/// and whose labels have their places in the source.
pub open spec fn svd_on_labels<
    D,
    V,
    X,
    F: Fn(&[D], usize, usize) -> Result<SvdStage<D, V>, OperationError>,
    G: Fn(&SectorLeg) -> Result<MapSpace, X>,
    H: Fn(&SectorLeg) -> Result<MapSpace, X>,
>(
    result: Result<SvdOnSpaces<D, V>, DriveError<X>>,
    matrices: Vec<SectorMatricization<D>>,
    left_layout: G,
    right_layout: H,
    svd: F,
    zero: D,
) -> bool {
    exists|spaces: Result<(MapSpace, MapSpace), DriveError<X>>|
        {
            &&& #[trigger] both_are_labelled(
                spaces,
                left_layout,
                right_layout,
                compact_bond(geometries(matrices@)),
                geometries(matrices@),
            )
            &&& match spaces {
                Err(error) => result == Err::<SvdOnSpaces<D, V>, DriveError<X>>(error),
                Ok((left, right)) => exists|found: Result<CompactSvdData<D, V>, OperationError>|
                    {
                        &&& #[trigger] svd_scattered(
                            found,
                            left.structure,
                            right.structure,
                            InputMatricizations::Packed(matrices),
                            svd,
                            zero,
                        )
                        &&& stands_on(result, found, left, right)
                    },
            }
        }
}

/// The SVD of a tensor sector by sector: the refusal of a block that cannot be
/// stacked, or that of its packed sectors.
pub open spec fn svd_unrouted<
    D,
    V,
    X,
    F: Fn(&[D], usize, usize) -> Result<SvdStage<D, V>, OperationError>,
    G: Fn(&SectorLeg) -> Result<MapSpace, X>,
    H: Fn(&SectorLeg) -> Result<MapSpace, X>,
>(
    result: Result<SvdOnSpaces<D, V>, DriveError<X>>,
    space: MapSpace,
    data: Seq<D>,
    left_layout: G,
    right_layout: H,
    svd: F,
    zero: D,
) -> bool {
    exists|packed: Result<Vec<SectorMatricization<D>>, OperationError>|
        {
            &&& #[trigger] matricized(
                packed,
                space.structure.spec_blocks(),
                data,
                space.nout as int,
                zero,
            )
            &&& match packed {
                Err(error) => result == Err::<SvdOnSpaces<D, V>, DriveError<X>>(
                    DriveError::Operation(error),
                ),
                Ok(matrices) => svd_on_labels(
                    result,
                    matrices,
                    left_layout,
                    right_layout,
                    svd,
                    zero,
                ),
            }
        }
}

/// The SVD along routes, where there are any, and sector by sector otherwise.
pub open spec fn generic_svd<
    D,
    V,
    X,
    F: Fn(&[D], usize, usize) -> Result<SvdStage<D, V>, OperationError>,
    G: Fn(&SectorLeg) -> Result<MapSpace, X>,
    H: Fn(&SectorLeg) -> Result<MapSpace, X>,
>(
    result: Result<SvdOnSpaces<D, V>, DriveError<X>>,
    space: MapSpace,
    data: Seq<D>,
    left_layout: G,
    right_layout: H,
    svd: F,
    zero: D,
) -> bool {
    match space.regions {
        None => svd_unrouted(result, space, data, left_layout, right_layout, svd, zero),
        Some(regions) => exists|routed: Result<Option<RoutedSpaces>, DriveError<X>>|
            {
                &&& #[trigger] is_generic_routed(routed, regions, left_layout, right_layout)
                &&& match routed {
                    Err(error) => result == Err::<SvdOnSpaces<D, V>, DriveError<X>>(error),
                    Ok(None) => svd_unrouted(
                        result,
                        space,
                        data,
                        left_layout,
                        right_layout,
                        svd,
                        zero,
                    ),
                    Ok(Some(routed)) => exists|
                        found: Result<CompactSvdData<D, V>, OperationError>,
                    |
                        {
                            &&& #[trigger] svds_joined(
                                found,
                                routed.routes@,
                                regions@,
                                data,
                                region_count(routed.left.regions),
                                region_count(routed.right.regions),
                                svd,
                            )
                            &&& stands_on(result, found, routed.left, routed.right)
                        },
                }
            },
    }
}

/// The blocks can be stacked, and on the compact bond of the stacked sectors
/// spaces whose labels have their places take their factors.
pub open spec fn unrouted_spaces_take<
    D,
    X,
    G: Fn(&SectorLeg) -> Result<MapSpace, X>,
    H: Fn(&SectorLeg) -> Result<MapSpace, X>,
>(space: MapSpace, data: Seq<D>, left_layout: G, right_layout: H) -> bool {
    &&& can_be_packed(space, data)
    &&& forall|leg: &SectorLeg, left: MapSpace, right: MapSpace, stacked: Seq<Geometry>|
        {
            &&& #[trigger] call_ensures(left_layout, (leg,), Ok::<MapSpace, X>(left))
            &&& #[trigger] call_ensures(right_layout, (leg,), Ok::<MapSpace, X>(right))
            &&& leg@ == plain_leg(compact_bond(stacked))
            &&& #[trigger] stacks_to(space, stacked)
            &&& first_refusal(stacked, FactorSide::Left, own_labels(left.structure), 0) is None
            &&& first_refusal(stacked, FactorSide::Right, own_labels(right.structure), 0) is None
        } ==> {
            &&& left.structure.wf()
            &&& right.structure.wf()
            &&& compact_scatter_fits::<D>(
                left.structure.spec_blocks(),
                right.structure.spec_blocks(),
                stacked,
            )
        }
}

fn svd_by_labelled_sectors<
    D: Copy,
    V,
    X,
    F: Fn(&[D], usize, usize) -> Result<SvdStage<D, V>, OperationError>,
    G: Fn(&SectorLeg) -> Result<MapSpace, X>,
    H: Fn(&SectorLeg) -> Result<MapSpace, X>,
>(
    space: &MapSpace,
    data: &[D],
    left_layout: &G,
    right_layout: &H,
    svd: &F,
    zero: D,
) -> (result: Result<SvdOnSpaces<D, V>, DriveError<X>>)
    requires
        takes_legs(left_layout),
        takes_legs(right_layout),
        is_svd(svd),
        unrouted_spaces_take::<D, X, &G, &H>(*space, data@, left_layout, right_layout),
    ensures
        svd_unrouted(result, *space, data@, left_layout, right_layout, svd, zero),
{
    let packed = pack_sectors(space, data, zero);
    assert(matricized(
        packed,
        space.structure.spec_blocks(),
        data@,
        space.nout as int,
        zero,
    ));
    let matrices = match packed {
        Ok(matrices) => matrices,
        Err(error) => {
            return Err(DriveError::Operation(error));
        },
    };
    let ghost stacked = geometries(matrices@);
    let leg = SectorLeg::new(compact_bond_leg(matrices.as_slice()));
    let spaces = labelled_spaces(&leg, matrices.as_slice(), left_layout, right_layout);
    proof {
        assert(leg@ == plain_leg(compact_bond(stacked)));
        assert(both_are_labelled(
            spaces,
            left_layout,
            right_layout,
            compact_bond(stacked),
            stacked,
        ));
        assert(stacks_to(*space, stacked));
    }
    let (left, right) = match spaces {
        Ok(spaces) => spaces,
        Err(error) => {
            return Err(error);
        },
    };
    let input = InputMatricizations::Packed(matrices);
    assert(input_geometries(input) == stacked);
    let found = svd_compact_by_sector(&left.structure, &right.structure, &input, svd, zero);
    on_spaces(found, left, right)
}

/// The outer factors of the compact SVD of a tensor whose trees carry outer
/// multiplicities, with the singular values: along the routes to both factors
/// where these have the trees of the source, and sector by sector otherwise.
pub fn svd_compact_generic_on_space<
    D: Copy,
    V,
    X,
    F: Fn(&[D], usize, usize) -> Result<SvdStage<D, V>, OperationError>,
    G: Fn(&SectorLeg) -> Result<MapSpace, X>,
    H: Fn(&SectorLeg) -> Result<MapSpace, X>,
>(
    space: &MapSpace,
    data: &[D],
    left_layout: &G,
    right_layout: &H,
    svd: &F,
    zero: D,
) -> (result: Result<SvdOnSpaces<D, V>, DriveError<X>>)
    requires
        takes_legs(left_layout),
        takes_legs(right_layout),
        is_svd(svd),
        generic_spaces_take::<D, X, &G, &H>(space.regions, left_layout, right_layout),
        falls_back::<X, &G, &H>(space.regions, left_layout, right_layout)
            ==> unrouted_spaces_take::<D, X, &G, &H>(*space, data@, left_layout, right_layout),
    ensures
        generic_svd(result, *space, data@, left_layout, right_layout, svd, zero),
{
    if let Some(regions) = &space.regions {
        let routed = route_generic_spaces(&space.regions, regions, left_layout, right_layout);
        assert(is_generic_routed(routed, *regions, left_layout, right_layout));
        match routed {
            Err(error) => {
                return Err(error);
            },
            Ok(Some(found)) => {
                let factors = svd_compact_by_route(
                    found.routes.as_slice(),
                    regions.as_slice(),
                    data,
                    count_regions(&found.left.regions),
                    count_regions(&found.right.regions),
                    found.left.structure.required_len(),
                    found.right.structure.required_len(),
                    svd,
                );
                return on_spaces(factors, found.left, found.right);
            },
            Ok(None) => {},
        }
    }
    svd_by_labelled_sectors(space, data, left_layout, right_layout, svd, zero)
}

/// The two factors of a tensor sector by sector: the refusal of a block that
/// cannot be stacked, or what the backend gave for the sectors, published where
/// the labels of both outputs have their places in the source.
pub open spec fn factors_unrouted<
    D,
    X,
    F: Fn(&[D], usize, usize) -> Result<RouteFactors<D>, OperationError>,
    G: Fn(&SectorLeg) -> Result<MapSpace, X>,
    H: Fn(&SectorLeg) -> Result<MapSpace, X>,
>(
    result: Result<FactorsOnSpaces<D>, DriveError<X>>,
    space: MapSpace,
    data: Seq<D>,
    left_layout: G,
    right_layout: H,
    factorize: F,
    zero: D,
) -> bool {
    exists|packed: Result<Vec<SectorMatricization<D>>, OperationError>|
        {
            &&& #[trigger] matricized(
                packed,
                space.structure.spec_blocks(),
                data,
                space.nout as int,
                zero,
            )
            &&& match packed {
                Err(error) => result == Err::<FactorsOnSpaces<D>, DriveError<X>>(
                    DriveError::Operation(error),
                ),
                Ok(matrices) => labelled_factors_published(
                    result,
                    InputMatricizations::Packed(matrices),
                    factorize,
                    BondExtent::Compact,
                    left_layout,
                    right_layout,
                    zero,
                ),
            }
        }
}

/// The two factors along routes, where there are any, and sector by sector
/// otherwise.
pub open spec fn generic_factors<
    D,
    X,
    F: Fn(&[D], usize, usize) -> Result<RouteFactors<D>, OperationError>,
    G: Fn(&SectorLeg) -> Result<MapSpace, X>,
    H: Fn(&SectorLeg) -> Result<MapSpace, X>,
>(
    result: Result<FactorsOnSpaces<D>, DriveError<X>>,
    space: MapSpace,
    data: Seq<D>,
    left_layout: G,
    right_layout: H,
    factorize: F,
    zero: D,
) -> bool {
    match space.regions {
        None => factors_unrouted(
            result,
            space,
            data,
            left_layout,
            right_layout,
            factorize,
            zero,
        ),
        Some(regions) => exists|routed: Result<Option<RoutedSpaces>, DriveError<X>>|
            {
                &&& #[trigger] is_generic_routed(routed, regions, left_layout, right_layout)
                &&& match routed {
                    Err(error) => result == Err::<FactorsOnSpaces<D>, DriveError<X>>(error),
                    Ok(None) => factors_unrouted(
                        result,
                        space,
                        data,
                        left_layout,
                        right_layout,
                        factorize,
                        zero,
                    ),
                    Ok(Some(routed)) => exists|found: Result<(Vec<D>, Vec<D>), OperationError>|
                        {
                            &&& #[trigger] factors_joined(
                                found,
                                routed.routes@,
                                regions@,
                                data,
                                region_count(routed.left.regions),
                                region_count(routed.right.regions),
                                factorize,
                            )
                            &&& factors_stand_on(result, found, routed.left, routed.right)
                        },
                }
            },
    }
}

/// The blocks can be stacked, and on the bond of the stacked sectors' compact
/// factors the spaces take these.
pub open spec fn unrouted_layouts_take<
    D,
    X,
    G: Fn(&SectorLeg) -> Result<MapSpace, X>,
    H: Fn(&SectorLeg) -> Result<MapSpace, X>,
>(space: MapSpace, data: Seq<D>, left_layout: G, right_layout: H) -> bool {
    &&& can_be_packed(space, data)
    &&& forall|stacked: Seq<Geometry>| #[trigger]
        stacks_to(space, stacked) ==> labelled_layouts_take::<D, X, G, H>(
            left_layout,
            right_layout,
            stacked,
            BondExtent::Compact,
        )
}

/// The two factors of a compact factorization, such as a QR, of a tensor whose
/// trees carry outer multiplicities: along the routes to both factors where these
/// have the trees of the source, and sector by sector otherwise.
pub fn factor_compact_generic_on_space<
    D: Copy,
    X,
    F: Fn(&[D], usize, usize) -> Result<RouteFactors<D>, OperationError>,
    G: Fn(&SectorLeg) -> Result<MapSpace, X>,
    H: Fn(&SectorLeg) -> Result<MapSpace, X>,
>(
    space: &MapSpace,
    data: &[D],
    left_layout: &G,
    right_layout: &H,
    factorize: &F,
    zero: D,
) -> (result: Result<FactorsOnSpaces<D>, DriveError<X>>)
    requires
        takes_legs(left_layout),
        takes_legs(right_layout),
        is_factorizer(factorize, BondExtent::Compact),
        generic_spaces_take::<D, X, &G, &H>(space.regions, left_layout, right_layout),
        falls_back::<X, &G, &H>(space.regions, left_layout, right_layout)
            ==> unrouted_layouts_take::<D, X, &G, &H>(*space, data@, left_layout, right_layout),
    ensures
        generic_factors(result, *space, data@, left_layout, right_layout, factorize, zero),
{
    if let Some(regions) = &space.regions {
        let routed = route_generic_spaces(&space.regions, regions, left_layout, right_layout);
        assert(is_generic_routed(routed, *regions, left_layout, right_layout));
        match routed {
            Err(error) => {
                return Err(error);
            },
            Ok(Some(found)) => {
                let factors = factor_compact_by_route(
                    found.routes.as_slice(),
                    regions.as_slice(),
                    data,
                    count_regions(&found.left.regions),
                    count_regions(&found.right.regions),
                    found.left.structure.required_len(),
                    found.right.structure.required_len(),
                    factorize,
                );
                return factors_on(factors, found.left, found.right);
            },
            Ok(None) => {},
        }
    }
    let packed = pack_sectors(space, data, zero);
    assert(matricized(
        packed,
        space.structure.spec_blocks(),
        data@,
        space.nout as int,
        zero,
    ));
    match packed {
        Err(error) => Err(DriveError::Operation(error)),
        Ok(matrices) => {
            assert(stacks_to(*space, geometries(matrices@)));
            let input = InputMatricizations::Packed(matrices);
            factor_by_sector_checked(
                &input,
                factorize,
                BondExtent::Compact,
                left_layout,
                right_layout,
                zero,
            )
        },
    }
}

} // verus!
