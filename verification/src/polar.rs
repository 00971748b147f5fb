//! Polar decompositions: which sector shapes they accept.

use vstd::prelude::*;

use crate::bond::{rank_of, BondDimensions};
use crate::error::{unsupported, OperationError};
use crate::factor::SectorRank;
use crate::factor_routes::{compile_polar_region_routes, polar_routes, PolarRegionRoute};
use crate::geometry::{geometries, CoupledSectorRegion};
use crate::input::{regions_are_canonical, regions_canonical};
use crate::publish::scope;
use crate::routes::values_are;
use crate::sector::SectorId;
use crate::space::{FusionTreeHomSpace, Hom, MapSpace};

verus! {

/// On which side of a polar decomposition the positive factor stands.
#[derive(Clone, Copy, Debug, PartialEq, Eq, Structural)]
pub enum PolarDirection {
    Left,
    Right,
}

impl PolarDirection {
    /// Whether a matrix of this shape has the decomposition.
    pub open spec fn spec_accepts(self, rows: usize, cols: usize) -> bool {
        match self {
            PolarDirection::Left => rows >= cols,
            PolarDirection::Right => cols >= rows,
        }
    }

    /// The refusal of a sector of the wrong shape.
    pub open spec fn spec_error(self) -> OperationError {
        OperationError::InvalidArgument {
            message: match self {
                PolarDirection::Left =>
                    "left_polar requires rows >= columns in every coupled-sector matrix",
                PolarDirection::Right =>
                    "right_polar requires columns >= rows in every coupled-sector matrix",
            },
        }
    }

    pub fn accepts(self, rows: usize, cols: usize) -> (accepts: bool)
        ensures
            accepts == self.spec_accepts(rows, cols),
    {
        match self {
            PolarDirection::Left => rows >= cols,
            PolarDirection::Right => cols >= rows,
        }
    }

    pub fn error(self) -> (error: OperationError)
        ensures
            error == self.spec_error(),
    {
        OperationError::InvalidArgument {
            message: match self {
                PolarDirection::Left =>
                    "left_polar requires rows >= columns in every coupled-sector matrix",
                PolarDirection::Right =>
                    "right_polar requires columns >= rows in every coupled-sector matrix",
            },
        }
    }
}

/// Both decompositions mirror each other: one accepts a shape where the other
/// accepts the shape of the adjoint. Some direction accepts every shape, and
/// both accept the square ones and no others.
pub proof fn lemma_directions_mirror(rows: usize, cols: usize)
    ensures
        PolarDirection::Left.spec_accepts(rows, cols) == PolarDirection::Right.spec_accepts(
            cols,
            rows,
        ),
        PolarDirection::Left.spec_accepts(rows, cols) || PolarDirection::Right.spec_accepts(
            rows,
            cols,
        ),
        (PolarDirection::Left.spec_accepts(rows, cols) && PolarDirection::Right.spec_accepts(
            rows,
            cols,
        )) == (rows == cols),
        rows > cols ==> PolarDirection::Left.spec_accepts(rows, cols),
{
}

/// The dimension of a sector, zero where it is absent.
pub open spec fn dimension_of(dimensions: Seq<SectorRank>, sector: SectorId) -> usize {
    match rank_of(dimensions, sector) {
        Some(dimension) => dimension,
        None => 0,
    }
}

/// Every sector of either side has an accepted shape, an absent side counting
/// as zero.
pub open spec fn shapes_accepted(
    rows: Seq<SectorRank>,
    cols: Seq<SectorRank>,
    direction: PolarDirection,
) -> bool {
    &&& forall|k: int|
        0 <= k < rows.len() ==> direction.spec_accepts(
            (#[trigger] rows[k]).kept,
            dimension_of(cols, rows[k].sector),
        )
    &&& forall|k: int|
        0 <= k < cols.len() && rank_of(rows, (#[trigger] cols[k]).sector) is None
            ==> direction.spec_accepts(0, cols[k].kept)
}

/// Refuses a tensor with a sector of the wrong shape, in the words of
/// `error_direction`.
pub fn validate_polar_direction(
    rows: &BondDimensions,
    cols: &BondDimensions,
    direction: PolarDirection,
    error_direction: PolarDirection,
) -> (result: Result<(), OperationError>)
    ensures
        result == if shapes_accepted(rows@, cols@, direction) {
            Ok::<(), OperationError>(())
        } else {
            Err(error_direction.spec_error())
        },
{
    let mut k: usize = 0;
    while k < rows.len()
        invariant
            k <= rows@.len(),
            forall|j: int|
                0 <= j < k ==> direction.spec_accepts(
                    (#[trigger] rows@[j]).kept,
                    dimension_of(cols@, rows@[j].sector),
                ),
        decreases rows@.len() - k,
    {
        let rank = rows.rank(k);
        let width: usize = match cols.get(rank.sector) {
            Some(width) => width,
            None => 0,
        };
        if !direction.accepts(rank.kept, width) {
            assert(!direction.spec_accepts(
                rows@[k as int].kept,
                dimension_of(cols@, rows@[k as int].sector),
            ));
            return Err(error_direction.error());
        }
        k += 1;
    }
    k = 0;
    while k < cols.len()
        invariant
            k <= cols@.len(),
            forall|j: int|
                0 <= j < rows@.len() ==> direction.spec_accepts(
                    (#[trigger] rows@[j]).kept,
                    dimension_of(cols@, rows@[j].sector),
                ),
            forall|j: int|
                0 <= j < k && rank_of(rows@, (#[trigger] cols@[j]).sector) is None
                    ==> direction.spec_accepts(0, cols@[j].kept),
        decreases cols@.len() - k,
    {
        let rank = cols.rank(k);
        if rows.get(rank.sector).is_none() && !direction.accepts(0, rank.kept) {
            assert(rank_of(rows@, cols@[k as int].sector) is None);
            return Err(error_direction.error());
        }
        k += 1;
    }
    Ok(())
}

/// The hom space of the positive factor: the domain on both sides (left), or
/// the codomain (right).
pub open spec fn positive_hom(hom: Hom, direction: PolarDirection) -> Hom {
    match direction {
        PolarDirection::Left => Hom { codomain: hom.domain, domain: hom.domain },
        PolarDirection::Right => Hom { codomain: hom.codomain, domain: hom.codomain },
    }
}

/// The maps that the positive factor lives in.
pub fn positive_homspace(
    homspace: &FusionTreeHomSpace,
    direction: PolarDirection,
) -> (positive: FusionTreeHomSpace)
    ensures
        positive@ == positive_hom(homspace@, direction),
{
    match direction {
        PolarDirection::Left => FusionTreeHomSpace {
            codomain: homspace.domain.duplicate(),
            domain: homspace.domain.duplicate(),
        },
        PolarDirection::Right => FusionTreeHomSpace {
            codomain: homspace.codomain.duplicate(),
            domain: homspace.codomain.duplicate(),
        },
    }
}

/// The routes of a polar decomposition, where all three layouts are canonical.
pub open spec fn polar_plan(
    source: MapSpace,
    w: MapSpace,
    p: MapSpace,
    source_len: usize,
    direction: PolarDirection,
) -> Result<Seq<PolarRegionRoute>, OperationError> {
    match source.regions {
        Some(from) if regions_canonical(geometries(from@)) => match w.regions {
            Some(to_w) if regions_canonical(geometries(to_w@)) => match p.regions {
                Some(to_p) if regions_canonical(geometries(to_p@)) => polar_routes(
                    from@,
                    to_w@,
                    to_p@,
                    source_len,
                    w.structure.spec_len(),
                    p.structure.spec_len(),
                    direction,
                ),
                _ => Err(scope("polar requires canonical coupled-sector P storage")),
            },
            _ => Err(scope("polar requires canonical coupled-sector W storage")),
        },
        _ => Err(scope("polar requires canonical coupled-sector input storage")),
    }
}

/// The regions of a space, where they are in canonical order.
fn canonical_regions(space: &MapSpace) -> (regions: Option<&Vec<CoupledSectorRegion>>)
    ensures
        match (regions, space.regions) {
            (Some(found), Some(regions)) => *found == regions && regions_canonical(
                geometries(regions@),
            ),
            (None, Some(regions)) => !regions_canonical(geometries(regions@)),
            (None, None) => true,
            (Some(_), None) => false,
        },
{
    match &space.regions {
        Some(regions) => if regions_are_canonical(regions.as_slice()) {
            Some(regions)
        } else {
            None
        },
        None => None,
    }
}

/// Routes a polar decomposition into the spaces of its two factors.
pub fn plan_polar(
    source: &MapSpace,
    w: &MapSpace,
    p: &MapSpace,
    source_len: usize,
    direction: PolarDirection,
) -> (result: Result<Vec<PolarRegionRoute>, OperationError>)
    ensures
        values_are(result, polar_plan(*source, *w, *p, source_len, direction)),
{
    let from = match canonical_regions(source) {
        Some(regions) => regions,
        None => {
            return Err(unsupported("polar requires canonical coupled-sector input storage"));
        },
    };
    let to_w = match canonical_regions(w) {
        Some(regions) => regions,
        None => {
            return Err(unsupported("polar requires canonical coupled-sector W storage"));
        },
    };
    let to_p = match canonical_regions(p) {
        Some(regions) => regions,
        None => {
            return Err(unsupported("polar requires canonical coupled-sector P storage"));
        },
    };
    compile_polar_region_routes(
        from.as_slice(),
        to_w.as_slice(),
        to_p.as_slice(),
        source_len,
        w.structure.required_len(),
        p.structure.required_len(),
        direction,
    )
}

} // verus!
