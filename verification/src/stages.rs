//! The dense work of a factorization: which matrices the backend is given, and
//! in which order.

use vstd::prelude::*;

use crate::dense_calls::{factors_to, takes_matrices};
use crate::direct::RouteFactors;
use crate::error::OperationError;
use crate::factor::FactorPair;
use crate::factor_routes::{smaller, CompactFactorRoute};
use crate::geometry::{geometries, CoupledSectorRegion, Geometry, SectorGeometry};
use crate::input::{data_region, InputMatricizations};
use crate::sector_drive::{region_matrix, regions_hold};
use crate::spectrum::SectorSpectrum;
use crate::svd_stage::SvdStage;

verus! {

/// The elements and the shape of a sector matrix.
pub struct SectorInput<D> {
    pub data: Seq<D>,
    pub rows: usize,
    pub cols: usize,
}

/// One sector matrix of an input, or the refusal of its range.
pub open spec fn sector_input<D>(
    input: InputMatricizations<'_, D>,
    index: int,
) -> Result<SectorInput<D>, OperationError> {
    match input {
        InputMatricizations::Regions { data, regions } => {
            let region = regions@[index];
            if region.start <= region.end <= data@.len() {
                Ok(
                    SectorInput {
                        data: region_matrix(data@, region),
                        rows: region.rows,
                        cols: region.cols,
                    },
                )
            } else {
                Err(
                    OperationError::ElementCountMismatch {
                        expected: region.end,
                        actual: data@.len() as usize,
                    },
                )
            }
        },
        InputMatricizations::Packed(matrices) => Ok(
            SectorInput {
                data: matrices@[index].data@,
                rows: matrices@[index].rows,
                cols: matrices@[index].cols,
            },
        ),
    }
}

/// Every sector matrix has all its elements.
pub open spec fn input_holds<D>(input: InputMatricizations<'_, D>) -> bool {
    match input {
        InputMatricizations::Regions { regions, .. } => regions_hold(regions@),
        InputMatricizations::Packed(matrices) => forall|k: int|
            0 <= k < matrices@.len() ==> (#[trigger] matrices@[k]).data@.len()
                == matrices@[k].rows * matrices@[k].cols,
    }
}

/// What the backend found in the first sectors, in order.
pub open spec fn found_in_order<D, T, F: Fn(&[D], usize, usize) -> Result<T, OperationError>>(
    stages: Seq<T>,
    input: InputMatricizations<'_, D>,
    factorize: F,
) -> bool {
    &&& stages.len() <= input.spec_len()
    &&& forall|k: int|
        0 <= k < stages.len() ==> match sector_input(input, k) {
            Ok(matrix) => factors_to(
                factorize,
                matrix.data,
                matrix.rows,
                matrix.cols,
                Ok(#[trigger] stages[k]),
            ),
            Err(_) => false,
        }
}

/// What was found before the first refusal or failure, and that failure; there
/// is none where every sector was given to the backend.
pub open spec fn factored_until<D, T, F: Fn(&[D], usize, usize) -> Result<T, OperationError>>(
    stages: Seq<T>,
    failure: Option<OperationError>,
    input: InputMatricizations<'_, D>,
    factorize: F,
) -> bool {
    &&& found_in_order(stages, input, factorize)
    &&& match failure {
        None => stages.len() == input.spec_len(),
        Some(error) => stages.len() < input.spec_len() && match sector_input(
            input,
            stages.len() as int,
        ) {
            Ok(matrix) => factors_to(
                factorize,
                matrix.data,
                matrix.rows,
                matrix.cols,
                Err::<T, OperationError>(error),
            ),
            Err(refusal) => error == refusal,
        },
    }
}

/// Hands the sector matrices of an input to the backend, in order, until one
/// fails.
pub fn stages_until_failure<D, T, F: Fn(&[D], usize, usize) -> Result<T, OperationError>>(
    input: &InputMatricizations<'_, D>,
    factorize: &F,
) -> (result: (Vec<T>, Option<OperationError>))
    requires
        input_holds(*input),
        takes_matrices(factorize),
    ensures
        factored_until(result.0@, result.1, *input, factorize),
{
    let count: usize = input.len();
    let mut stages: Vec<T> = Vec::with_capacity(count);
    let mut k: usize = 0;
    while k < count
        invariant
            k <= count == input.spec_len(),
            input_holds(*input),
            takes_matrices(factorize),
            stages@.len() == k,
            found_in_order(stages@, *input, factorize),
        decreases count - k,
    {
        let matrix = match input.get(k) {
            Ok(matrix) => matrix,
            Err(error) => {
                return (stages, Some(error));
            },
        };
        proof {
            match input {
                InputMatricizations::Regions { data, regions } => {
                    let region = regions@[k as int];
                    assert(region.start + region.rows * region.cols == region.end);
                },
                InputMatricizations::Packed(matrices) => {
                    assert(matrices@[k as int].data@.len() == matrices@[k as int].rows
                        * matrices@[k as int].cols);
                },
            }
        }
        let answer = factorize(matrix.data, matrix.rows, matrix.cols);
        proof {
            assert(call_ensures(factorize, (matrix.data, matrix.rows, matrix.cols), answer));
            assert(factors_to(factorize, matrix.data@, matrix.rows, matrix.cols, answer));
        }
        match answer {
            Err(error) => {
                return (stages, Some(error));
            },
            Ok(stage) => {
                let ghost before = stages@;
                stages.push(stage);
                assert forall|j: int| 0 <= j < stages@.len() implies match sector_input(
                    *input,
                    j,
                ) {
                    Ok(matrix) => factors_to(
                        factorize,
                        matrix.data,
                        matrix.rows,
                        matrix.cols,
                        Ok(#[trigger] stages@[j]),
                    ),
                    Err(_) => false,
                } by {
                    if j < k {
                        assert(stages@[j] == before[j]);
                    }
                }
            },
        }
        k += 1;
    }
    (stages, None)
}

/// The outcome of the dense work on all sectors: what was found in each, or the
/// first refusal or failure.
pub open spec fn sectors_factored<D, T, F: Fn(&[D], usize, usize) -> Result<T, OperationError>>(
    result: Result<Vec<T>, OperationError>,
    input: InputMatricizations<'_, D>,
    factorize: F,
) -> bool {
    match result {
        Ok(found) => factored_until(found@, None, input, factorize),
        Err(error) => exists|stages: Seq<T>| #[trigger]
            factored_until(stages, Some(error), input, factorize),
    }
}

/// Hands every sector matrix of an input to the backend, in order.
pub fn sector_stages<D, T, F: Fn(&[D], usize, usize) -> Result<T, OperationError>>(
    input: &InputMatricizations<'_, D>,
    factorize: &F,
) -> (result: Result<Vec<T>, OperationError>)
    requires
        input_holds(*input),
        takes_matrices(factorize),
    ensures
        sectors_factored(result, *input, factorize),
{
    let (stages, failure) = stages_until_failure(input, factorize);
    match failure {
        None => Ok(stages),
        Some(error) => {
            assert(factored_until(stages@, Some(error), *input, factorize));
            Err(error)
        },
    }
}

/// What the backend found along the first routes; a route of rank zero is
/// passed over.
pub open spec fn found_along<D, T, F: Fn(&[D], usize, usize) -> Result<T, OperationError>>(
    stages: Seq<Option<T>>,
    routes: Seq<CompactFactorRoute>,
    source: Seq<CoupledSectorRegion>,
    data: Seq<D>,
    factorize: F,
) -> bool {
    &&& stages.len() <= routes.len()
    &&& forall|k: int|
        0 <= k < stages.len() ==> {
            let region = source[routes[k].source_region as int];
            match #[trigger] stages[k] {
                None => routes[k].rank == 0,
                Some(stage) => routes[k].rank != 0 && region.end <= data.len() && factors_to(
                    factorize,
                    region_matrix(data, region),
                    region.rows,
                    region.cols,
                    Ok(stage),
                ),
            }
        }
}

/// The outcome of the dense work along routes: every route of nonzero rank had
/// its source region given to the backend in order, or the first refusal or
/// failure ended the work.
pub open spec fn routes_factored<D, T, F: Fn(&[D], usize, usize) -> Result<T, OperationError>>(
    result: Result<Vec<Option<T>>, OperationError>,
    routes: Seq<CompactFactorRoute>,
    source: Seq<CoupledSectorRegion>,
    data: Seq<D>,
    factorize: F,
) -> bool {
    exists|stages: Seq<Option<T>>|
        {
            &&& #[trigger] found_along(stages, routes, source, data, factorize)
            &&& match result {
                Ok(found) => found@ == stages && stages.len() == routes.len(),
                Err(error) => {
                    let route = routes[stages.len() as int];
                    let region = source[route.source_region as int];
                    &&& stages.len() < routes.len()
                    &&& route.rank != 0
                    &&& if region.end <= data.len() {
                        factors_to(
                            factorize,
                            region_matrix(data, region),
                            region.rows,
                            region.cols,
                            Err::<T, OperationError>(error),
                        )
                    } else {
                        error == OperationError::ElementCountMismatch {
                            expected: region.end,
                            actual: data.len() as usize,
                        }
                    }
                },
            }
        }
}

/// Hands the source region of every route of nonzero rank to the backend, in
/// order.
pub fn route_stages<D, T, F: Fn(&[D], usize, usize) -> Result<T, OperationError>>(
    routes: &[CompactFactorRoute],
    source: &[CoupledSectorRegion],
    data: &[D],
    factorize: &F,
) -> (result: Result<Vec<Option<T>>, OperationError>)
    requires
        regions_hold(source@),
        forall|k: int|
            0 <= k < routes@.len() && (#[trigger] routes@[k]).rank != 0 ==> routes@[k].source_region
                < source@.len(),
        takes_matrices(factorize),
    ensures
        routes_factored(result, routes@, source@, data@, factorize),
{
    let mut stages: Vec<Option<T>> = Vec::with_capacity(routes.len());
    let mut k: usize = 0;
    while k < routes.len()
        invariant
            k <= routes@.len(),
            regions_hold(source@),
            forall|k: int|
                0 <= k < routes@.len() && (#[trigger] routes@[k]).rank != 0
                    ==> routes@[k].source_region < source@.len(),
            takes_matrices(factorize),
            stages@.len() == k,
            found_along(stages@, routes@, source@, data@, factorize),
        decreases routes.len() - k,
    {
        let route = &routes[k];
        let ghost before = stages@;
        if route.rank == 0 {
            stages.push(None);
        } else {
            assert(routes@[k as int].source_region < source@.len());
            let region = &source[route.source_region];
            assert(source@[route.source_region as int] == *region);
            let matrix = match data_region(data, region.start, region.end) {
                Ok(matrix) => matrix,
                Err(error) => {
                    assert(found_along(stages@, routes@, source@, data@, factorize));
                    return Err(error);
                },
            };
            let answer = factorize(matrix, region.rows, region.cols);
            proof {
                assert(call_ensures(factorize, (matrix, region.rows, region.cols), answer));
                assert(factors_to(
                    factorize,
                    region_matrix(data@, *region),
                    region.rows,
                    region.cols,
                    answer,
                ));
            }
            match answer {
                Err(error) => {
                    assert(found_along(stages@, routes@, source@, data@, factorize));
                    return Err(error);
                },
                Ok(stage) => {
                    stages.push(Some(stage));
                },
            }
        }
        assert forall|j: int| 0 <= j < stages@.len() implies {
            let region = source@[routes@[j].source_region as int];
            match #[trigger] stages@[j] {
                None => routes@[j].rank == 0,
                Some(stage) => routes@[j].rank != 0 && region.end <= data@.len() && factors_to(
                    factorize,
                    region_matrix(data@, region),
                    region.rows,
                    region.cols,
                    Ok(stage),
                ),
            }
        } by {
            if j < k {
                assert(stages@[j] == before[j]);
            }
        }
        k += 1;
    }
    assert(found_along(stages@, routes@, source@, data@, factorize));
    Ok(stages)
}

/// How many states of a sector the bond of a factorization holds.
#[derive(Clone, Copy, Debug, PartialEq, Eq, Structural)]
pub enum BondExtent {
    /// The smaller of its rows and columns.
    Compact,
    /// All its rows.
    Rows,
    /// All its columns.
    Cols,
}

impl BondExtent {
    /// How many states a `rows x cols` sector has on the bond.
    pub open spec fn spec_of(self, rows: usize, cols: usize) -> usize {
        match self {
            BondExtent::Compact => smaller(rows, cols),
            BondExtent::Rows => rows,
            BondExtent::Cols => cols,
        }
    }

    /// How many states a `rows x cols` sector has on the bond.
    pub fn of(self, rows: usize, cols: usize) -> (extent: usize)
        ensures
            extent == self.spec_of(rows, cols),
    {
        match self {
            BondExtent::Compact => if rows <= cols {
                rows
            } else {
                cols
            },
            BondExtent::Rows => rows,
            BondExtent::Cols => cols,
        }
    }
}

/// The pair of one sector: its left factor has the sector's rows, its right
/// factor the bond's.
pub open spec fn is_bond_pair<D>(
    pair: FactorPair<D>,
    geometry: Geometry,
    factors: RouteFactors<D>,
    bond: BondExtent,
) -> bool {
    let kept = bond.spec_of(geometry.rows, geometry.cols);
    &&& pair.sector == geometry.sector
    &&& pair.kept == kept
    &&& pair.left == factors.left
    &&& pair.left_rows == geometry.rows
    &&& pair.right == factors.right
    &&& pair.right_leading == kept
}

/// The pairs of all sectors, from their factors.
pub fn bond_pairs<D, M: SectorGeometry>(
    matricizations: &[M],
    stages: Vec<RouteFactors<D>>,
    bond: BondExtent,
) -> (pairs: Vec<FactorPair<D>>)
    requires
        stages@.len() <= matricizations@.len(),
    ensures
        pairs@.len() == stages@.len(),
        forall|k: int|
            0 <= k < pairs@.len() ==> is_bond_pair(
                #[trigger] pairs@[k],
                geometries(matricizations@)[k],
                stages@[k],
                bond,
            ),
{
    let ghost all = geometries(matricizations@);
    let ghost given = stages@;
    let mut pairs: Vec<FactorPair<D>> = Vec::with_capacity(matricizations.len());
    let mut k: usize = 0;
    for stage in iter: stages
        invariant
            iter.seq() == given,
            k == iter.index(),
            given.len() <= matricizations@.len(),
            all == geometries(matricizations@),
            pairs@.len() == k,
            forall|j: int|
                0 <= j < k ==> is_bond_pair(#[trigger] pairs@[j], all[j], given[j], bond),
    {
        assert(stage == given[k as int]);
        assert(all[k as int] == matricizations@[k as int].geometry());
        let (rows, cols): (usize, usize) = (matricizations[k].rows(), matricizations[k].cols());
        let kept: usize = bond.of(rows, cols);
        pairs.push(
            FactorPair {
                sector: matricizations[k].sector(),
                kept,
                left: stage.left,
                left_rows: rows,
                right: stage.right,
                right_leading: kept,
            },
        );
        k += 1;
    }
    pairs
}

/// The factors and the singular values of one sector, or of none.
pub open spec fn is_split<D, V>(
    stage: Option<SvdStage<D, V>>,
    factors: RouteFactors<D>,
    values: Vec<V>,
) -> bool {
    match stage {
        Some(stage) => factors.left == stage.u && factors.right == stage.vt && values
            == stage.values,
        None => factors.left@.len() == 0 && factors.right@.len() == 0 && values@.len() == 0,
    }
}

/// Parts the factors of all stages from their singular values; what was passed
/// over has none.
pub fn split_stages<D, V>(stages: Vec<Option<SvdStage<D, V>>>) -> (parts: (
    Vec<RouteFactors<D>>,
    Vec<Vec<V>>,
))
    ensures
        parts.0@.len() == stages@.len(),
        parts.1@.len() == stages@.len(),
        forall|k: int|
            #![trigger parts.0@[k]]
            #![trigger parts.1@[k]]
            0 <= k < stages@.len() ==> is_split(stages@[k], parts.0@[k], parts.1@[k]),
{
    let ghost given = stages@;
    let mut factors: Vec<RouteFactors<D>> = Vec::with_capacity(stages.len());
    let mut values: Vec<Vec<V>> = Vec::with_capacity(stages.len());
    for stage in iter: stages
        invariant
            iter.seq() == given,
            factors@.len() == iter.index(),
            values@.len() == iter.index(),
            forall|k: int|
                #![trigger factors@[k]]
                #![trigger values@[k]]
                0 <= k < factors@.len() ==> is_split(given[k], factors@[k], values@[k]),
    {
        match stage {
            Some(stage) => {
                factors.push(RouteFactors { left: stage.u, right: stage.vt });
                values.push(stage.values);
            },
            None => {
                factors.push(RouteFactors { left: Vec::new(), right: Vec::new() });
                values.push(Vec::new());
            },
        }
    }
    (factors, values)
}

/// The spectra of all sectors.
pub open spec fn is_spectrum_of<V>(
    spectrum: SectorSpectrum<V>,
    geometry: Geometry,
    values: Vec<V>,
) -> bool {
    spectrum.sector == geometry.sector && spectrum.values == values
}

/// Names the sector of every list of values.
pub fn label_spectra<V, M: SectorGeometry>(matricizations: &[M], values: Vec<Vec<V>>) -> (spectra:
    Vec<SectorSpectrum<V>>)
    requires
        values@.len() <= matricizations@.len(),
    ensures
        spectra@.len() == values@.len(),
        forall|k: int|
            0 <= k < spectra@.len() ==> is_spectrum_of(
                #[trigger] spectra@[k],
                geometries(matricizations@)[k],
                values@[k],
            ),
{
    let ghost all = geometries(matricizations@);
    let ghost given = values@;
    let mut spectra: Vec<SectorSpectrum<V>> = Vec::with_capacity(matricizations.len());
    let mut k: usize = 0;
    for list in iter: values
        invariant
            iter.seq() == given,
            k == iter.index(),
            given.len() <= matricizations@.len(),
            all == geometries(matricizations@),
            spectra@.len() == k,
            forall|j: int|
                0 <= j < k ==> is_spectrum_of(#[trigger] spectra@[j], all[j], given[j]),
    {
        assert(list == given[k as int]);
        assert(all[k as int] == matricizations@[k as int].geometry());
        spectra.push(SectorSpectrum { sector: matricizations[k].sector(), values: list });
        k += 1;
    }
    spectra
}

} // verus!
