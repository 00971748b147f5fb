//! The sector matrices of an input, in place or packed.

use vstd::prelude::*;

use crate::error::OperationError;
use crate::geometry::{
    geometries, spans, CoupledSectorRegion, Geometry, SectorGeometry, SectorMatricization, Span,
    TreeExtent,
};
use crate::matricize::{
    matricized, sector_matricizations, sector_matricizations_generic, stackable,
};
use crate::sector::{tree_less, SectorId};
use crate::structure::BlockStructure;

verus! {

/// One sector matrix with borrowed elements.
pub struct SectorMatrixRef<'a, D> {
    pub sector: SectorId,
    pub rows: usize,
    pub cols: usize,
    pub data: &'a [D],
}

/// The sector matrices of an input: regions of its own data where every sector
/// lies in one piece, packed copies otherwise.
pub enum InputMatricizations<'a, D> {
    Regions { data: &'a [D], regions: Vec<CoupledSectorRegion> },
    Packed(Vec<SectorMatricization<D>>),
}

/// The elements of a range, or the refusal of one outside the data.
pub fn data_region<'a, D>(
    data: &'a [D],
    start: usize,
    end: usize,
) -> (result: Result<&'a [D], OperationError>)
    ensures
        match result {
            Ok(region) => start <= end <= data@.len() && region@ == data@.subrange(
                start as int,
                end as int,
            ),
            Err(error) => !(start <= end <= data@.len()) && error
                == (OperationError::ElementCountMismatch {
                expected: end,
                actual: data@.len() as usize,
            }),
        },
{
    let len: usize = data.len();
    if start > end || end > len {
        return Err(OperationError::ElementCountMismatch { expected: end, actual: len });
    }
    Ok(vstd::slice::slice_subrange(data, start, end))
}

impl<'a, D> InputMatricizations<'a, D> {
    /// The number of sector matrices.
    pub open spec fn spec_len(self) -> nat {
        match self {
            InputMatricizations::Regions { regions, .. } => regions@.len(),
            InputMatricizations::Packed(matrices) => matrices@.len(),
        }
    }

    pub fn len(&self) -> (len: usize)
        ensures
            len == self.spec_len(),
    {
        match self {
            InputMatricizations::Regions { regions, .. } => regions.len(),
            InputMatricizations::Packed(matrices) => matrices.len(),
        }
    }

    pub fn is_packed(&self) -> (packed: bool)
        ensures
            packed == (self is Packed),
    {
        match self {
            InputMatricizations::Regions { .. } => false,
            InputMatricizations::Packed(_) => true,
        }
    }

    /// One sector matrix.
    pub fn get(&self, index: usize) -> (result: Result<SectorMatrixRef<'_, D>, OperationError>)
        requires
            index < self.spec_len(),
        ensures
            match *self {
                InputMatricizations::Regions { data, regions } => {
                    let region = regions@[index as int];
                    match result {
                        Ok(matrix) => {
                            &&& region.start <= region.end <= data@.len()
                            &&& matrix.sector == region.coupled
                            &&& matrix.rows == region.rows
                            &&& matrix.cols == region.cols
                            &&& matrix.data@ == data@.subrange(
                                region.start as int,
                                region.end as int,
                            )
                        },
                        Err(error) => !(region.start <= region.end <= data@.len()) && error
                            == (OperationError::ElementCountMismatch {
                            expected: region.end,
                            actual: data@.len() as usize,
                        }),
                    }
                },
                InputMatricizations::Packed(matrices) => match result {
                    Ok(matrix) => {
                        &&& matrix.sector == matrices@[index as int].sector
                        &&& matrix.rows == matrices@[index as int].rows
                        &&& matrix.cols == matrices@[index as int].cols
                        &&& matrix.data@ == matrices@[index as int].data@
                    },
                    Err(_) => false,
                },
            },
    {
        match self {
            InputMatricizations::Regions { data, regions } => {
                let region = &regions[index];
                match data_region(data, region.start, region.end) {
                    Ok(part) => Ok(
                        SectorMatrixRef {
                            sector: region.coupled,
                            rows: region.rows,
                            cols: region.cols,
                            data: part,
                        },
                    ),
                    Err(error) => Err(error),
                }
            },
            InputMatricizations::Packed(matrices) => {
                let matrix = &matrices[index];
                Ok(
                    SectorMatrixRef {
                        sector: matrix.sector,
                        rows: matrix.rows,
                        cols: matrix.cols,
                        data: matrix.data.as_slice(),
                    },
                )
            },
        }
    }
}

/// Every tree comes before the next one.
pub open spec fn trees_ordered(trees: Seq<Span>) -> bool {
    forall|k: int|
        0 <= k < trees.len() - 1 ==> tree_less((#[trigger] trees[k]).tree, trees[k + 1].tree)
}

/// Sectors are strictly ascending, and so are the trees on both sides of each.
pub open spec fn regions_canonical(regions: Seq<Geometry>) -> bool {
    &&& forall|k: int|
        0 <= k < regions.len() - 1 ==> (#[trigger] regions[k]).sector.id < regions[k
            + 1].sector.id
    &&& forall|k: int|
        0 <= k < regions.len() ==> trees_ordered((#[trigger] regions[k]).row_trees)
            && trees_ordered(regions[k].col_trees)
}

fn extents_are_ordered(extents: &[TreeExtent]) -> (ordered: bool)
    ensures
        ordered == trees_ordered(spans(extents@)),
{
    let ghost all = spans(extents@);
    let mut k: usize = 1;
    while k < extents.len()
        invariant
            1 <= k,
            k <= extents@.len() || extents@.len() == 0,
            all == spans(extents@),
            forall|j: int|
                0 <= j < k - 1 && j < all.len() - 1 ==> tree_less(
                    (#[trigger] all[j]).tree,
                    all[j + 1].tree,
                ),
        decreases extents.len() - k,
    {
        assert(all[k - 1] == extents@[k - 1]@);
        assert(all[k as int] == extents@[k as int]@);
        if !extents[k - 1].tree.precedes(&extents[k].tree) {
            assert(!tree_less(all[k - 1].tree, all[k - 1 + 1].tree));
            return false;
        }
        k += 1;
    }
    true
}

/// The regions, where their sectors and trees are in canonical order.
pub fn canonical_generic_sector_regions(
    regions: Option<Vec<CoupledSectorRegion>>,
) -> (result: Option<Vec<CoupledSectorRegion>>)
    ensures
        result == match regions {
            Some(regions) if regions_canonical(geometries(regions@)) => Some(regions),
            _ => None,
        },
{
    match regions {
        None => None,
        Some(list) => if regions_are_canonical(list.as_slice()) {
            Some(list)
        } else {
            None
        },
    }
}

/// Whether sectors and trees are in canonical order.
pub(crate) fn regions_are_canonical(regions: &[CoupledSectorRegion]) -> (canonical: bool)
    ensures
        canonical == regions_canonical(geometries(regions@)),
{
    let ghost all = geometries(regions@);
    let mut k: usize = 0;
    while k < regions.len()
        invariant
            k <= regions@.len(),
            all == geometries(regions@),
            forall|j: int|
                0 <= j < k && j < all.len() - 1 ==> (#[trigger] all[j]).sector.id < all[j
                    + 1].sector.id,
            forall|j: int|
                0 <= j < k ==> trees_ordered((#[trigger] all[j]).row_trees) && trees_ordered(
                    all[j].col_trees,
                ),
        decreases regions.len() - k,
    {
        assert(all[k as int] == regions@[k as int].geometry());
        if k + 1 < regions.len() {
            assert(all[k + 1] == regions@[k + 1].geometry());
            if regions[k].coupled.id() >= regions[k + 1].coupled.id() {
                return false;
            }
        }
        if !extents_are_ordered(regions[k].row_trees.as_slice()) || !extents_are_ordered(
            regions[k].col_trees.as_slice(),
        ) {
            return false;
        }
        k += 1;
    }
    true
}

/// The sector matrices of an input: its regions where they are canonical,
/// packed copies otherwise.
pub fn generic_input_matricizations<'a, D: Copy>(
    structure: &BlockStructure,
    regions: Option<Vec<CoupledSectorRegion>>,
    data: &'a [D],
    nout: usize,
    zero: D,
) -> (result: Result<InputMatricizations<'a, D>, OperationError>)
    requires
        structure.wf(),
        data@.len() >= structure.spec_len(),
        stackable(structure.spec_blocks(), nout as int),
    ensures
        match regions {
            Some(regions) if regions_canonical(geometries(regions@)) => result == Ok::<
                InputMatricizations<'a, D>,
                OperationError,
            >(InputMatricizations::Regions { data, regions }),
            _ => packed_result(result, structure.spec_blocks(), data@, nout as int, zero),
        },
{
    match canonical_generic_sector_regions(regions) {
        Some(regions) => Ok(InputMatricizations::Regions { data, regions }),
        None => match sector_matricizations_generic(structure, data, nout, zero) {
            Ok(matrices) => Ok(InputMatricizations::Packed(matrices)),
            Err(error) => Err(error),
        },
    }
}

/// Packed copies of all sectors, or the refusal of packing.
pub open spec fn packed_result<D>(
    result: Result<InputMatricizations<'_, D>, OperationError>,
    blocks: Seq<crate::structure::Block>,
    data: Seq<D>,
    nout: int,
    zero: D,
) -> bool {
    match result {
        Ok(InputMatricizations::Packed(matrices)) => matricized(
            Ok(matrices),
            blocks,
            data,
            nout,
            zero,
        ),
        Ok(_) => false,
        Err(error) => matricized(Err(error), blocks, data, nout, zero),
    }
}

/// The sector matrices of an input of which only values are asked: its regions
/// where it has any, packed copies otherwise.
pub fn value_matricizations<'a, D: Copy>(
    structure: &BlockStructure,
    regions: Option<Vec<CoupledSectorRegion>>,
    data: &'a [D],
    nout: usize,
    zero: D,
) -> (result: Result<InputMatricizations<'a, D>, OperationError>)
    requires
        structure.wf(),
        data@.len() >= structure.spec_len(),
        stackable(structure.spec_blocks(), nout as int),
    ensures
        match regions {
            Some(regions) => result == Ok::<InputMatricizations<'a, D>, OperationError>(
                InputMatricizations::Regions { data, regions },
            ),
            None => packed_result(result, structure.spec_blocks(), data@, nout as int, zero),
        },
{
    match regions {
        Some(regions) => Ok(InputMatricizations::Regions { data, regions }),
        None => match sector_matricizations(structure, data, nout, zero) {
            Ok(matrices) => Ok(InputMatricizations::Packed(matrices)),
            Err(error) => Err(error),
        },
    }
}

/// Size of one sector matrix.
#[derive(Clone, Copy, Debug, PartialEq, Eq, Structural)]
pub struct SectorMatricizationDiagnostic {
    pub sector: SectorId,
    pub rows: usize,
    pub cols: usize,
    pub elements: usize,
}

/// The sizes of all sector matrices.
pub fn sector_matricization_diagnostic<D>(
    matrices: &[SectorMatricization<D>],
) -> (diagnostics: Vec<SectorMatricizationDiagnostic>)
    ensures
        diagnostics@ == Seq::new(
            matrices@.len(),
            |k: int|
                SectorMatricizationDiagnostic {
                    sector: matrices@[k].sector,
                    rows: matrices@[k].rows,
                    cols: matrices@[k].cols,
                    elements: matrices@[k].data@.len() as usize,
                },
        ),
{
    let ghost expected = Seq::new(
        matrices@.len(),
        |k: int|
            SectorMatricizationDiagnostic {
                sector: matrices@[k].sector,
                rows: matrices@[k].rows,
                cols: matrices@[k].cols,
                elements: matrices@[k].data@.len() as usize,
            },
    );
    let mut diagnostics: Vec<SectorMatricizationDiagnostic> = Vec::with_capacity(matrices.len());
    let mut k: usize = 0;
    while k < matrices.len()
        invariant
            k <= matrices@.len(),
            diagnostics@.len() == k,
            expected == Seq::new(
                matrices@.len(),
                |k: int|
                    SectorMatricizationDiagnostic {
                        sector: matrices@[k].sector,
                        rows: matrices@[k].rows,
                        cols: matrices@[k].cols,
                        elements: matrices@[k].data@.len() as usize,
                    },
            ),
            forall|j: int| 0 <= j < k ==> diagnostics@[j] == expected[j],
        decreases matrices.len() - k,
    {
        let matrix = &matrices[k];
        diagnostics.push(
            SectorMatricizationDiagnostic {
                sector: matrix.sector,
                rows: matrix.rows,
                cols: matrix.cols,
                elements: matrix.data.len(),
            },
        );
        k += 1;
    }
    assert(diagnostics@ =~= expected);
    diagnostics
}

} // verus!
