//! Tests of whether the dense results of all sectors fit their outputs.

use vstd::prelude::*;

use crate::bond::{bond_of_pairs, BondDimensions};
use crate::compact_fits::lemma_shaped_bond;
use crate::eigen_full::{are_eigen_pairs, eigen_reads_fit, EigenStage};
use crate::factor::{FactorPair, FactorPlacement};
use crate::fits::distinct_sectors;
use crate::full::{
    bond_blocks_hold, checked_stages_fit, full_pairs, full_spectra, full_stages_fit, FullSvdStage,
};
use crate::full_drive::{diagonal_takes, names_sectors};
use crate::geometry::{geometries, sectors_distinct, SectorGeometry};
use crate::layout::FactorSide;
use crate::layout_fits::are_bond_blocks;
use crate::publication_walk::{
    sizes_match, some_placement_is_lacking, walk_publication, FactorSize,
};
use crate::publish::{
    blocks_filled, lacks_some_placement, lemma_filled_agrees, lemma_last_pair,
    lemma_last_pair_agrees, published_reads_fit, reads_fit,
};
use crate::sector::SectorId;
use crate::spectrum::{is_bond_block, last_entry, SectorSpectrum};
use crate::structure::BlockStructure;

verus! {

proof fn lemma_same_entries<V>(
    a: Seq<SectorSpectrum<V>>,
    b: Seq<SectorSpectrum<V>>,
    sector: SectorId,
    count: int,
)
    requires
        0 <= count <= a.len() == b.len(),
        forall|k: int| 0 <= k < a.len() ==> (#[trigger] a[k]).sector == b[k].sector,
    ensures
        last_entry(a, sector, count) == last_entry(b, sector, count),
    decreases count,
{
    if count > 0 {
        assert(a[count - 1].sector == b[count - 1].sector);
        lemma_same_entries(a, b, sector, count - 1);
    }
}

/// Whether the spectra of a full SVD stand on matrix blocks.
fn full_spectra_stand<D, V, M: SectorGeometry>(
    structure: &BlockStructure,
    matricizations: &[M],
    stages: &[FullSvdStage<D, V>],
) -> (stand: bool)
    requires
        structure.wf(),
        stages@.len() == matricizations@.len(),
    ensures
        stand == bond_blocks_hold(
            *structure,
            full_spectra(geometries(matricizations@), stages@, stages@.len() as int),
        ),
{
    let ghost all = geometries(matricizations@);
    let ghost spectra = full_spectra(all, stages@, stages@.len() as int);
    let mut entries: Vec<SectorSpectrum<V>> = Vec::new();
    let mut k: usize = 0;
    while k < matricizations.len()
        invariant
            k <= matricizations@.len(),
            all == geometries(matricizations@),
            entries@.len() == k,
            forall|j: int| 0 <= j < k ==> (#[trigger] entries@[j]).sector == all[j].sector,
        decreases matricizations.len() - k,
    {
        assert(all[k as int] == matricizations@[k as int].geometry());
        entries.push(SectorSpectrum { sector: matricizations[k].sector(), values: Vec::new() });
        k += 1;
    }
    let stand = are_bond_blocks(structure, entries.as_slice());
    proof {
        let blocks = structure.spec_blocks();
        assert forall|k: int| 0 <= k < blocks.len() implies is_bond_block(
            #[trigger] blocks[k],
            spectra,
        ) == is_bond_block(blocks[k], entries@) by {
            if let crate::structure::Label::FusionTree(pair) = blocks[k].key@ {
                lemma_same_entries(
                    entries@,
                    spectra,
                    pair.codomain.coupled,
                    spectra.len() as int,
                );
            }
        }
        if stand {
            assert forall|k: int| 0 <= k < blocks.len() implies is_bond_block(
                #[trigger] blocks[k],
                spectra,
            ) by {
                assert(is_bond_block(blocks[k], entries@));
            }
        } else {
            let k = choose|k: int|
                0 <= k < blocks.len() && !is_bond_block(#[trigger] blocks[k], entries@);
            assert(!is_bond_block(blocks[k], spectra));
        }
    }
    stand
}

/// Whether spectra of all sectors stand on matrix blocks, whatever their values.
pub fn diagonal_is_inside<V, M: SectorGeometry>(
    structure: &BlockStructure,
    matricizations: &[M],
) -> (inside: bool)
    requires
        structure.wf(),
    ensures
        inside == diagonal_takes::<V>(*structure, geometries(matricizations@)),
{
    let ghost all = geometries(matricizations@);
    let mut entries: Vec<SectorSpectrum<V>> = Vec::new();
    let mut k: usize = 0;
    while k < matricizations.len()
        invariant
            k <= matricizations@.len(),
            all == geometries(matricizations@),
            entries@.len() == k,
            forall|j: int| 0 <= j < k ==> (#[trigger] entries@[j]).sector == all[j].sector,
        decreases matricizations.len() - k,
    {
        assert(all[k as int] == matricizations@[k as int].geometry());
        entries.push(SectorSpectrum { sector: matricizations[k].sector(), values: Vec::new() });
        k += 1;
    }
    let inside = are_bond_blocks(structure, entries.as_slice());
    proof {
        assert(names_sectors(entries@, all));
        if inside {
            let blocks = structure.spec_blocks();
            assert forall|spectra: Seq<SectorSpectrum<V>>| #[trigger]
                names_sectors(spectra, all) implies bond_blocks_hold(*structure, spectra) by {
                assert forall|k: int| 0 <= k < blocks.len() implies is_bond_block(
                    #[trigger] blocks[k],
                    spectra,
                ) by {
                    assert(is_bond_block(blocks[k], entries@));
                    if let crate::structure::Label::FusionTree(pair) = blocks[k].key@ {
                        assert forall|j: int| 0 <= j < entries@.len() implies (
                        #[trigger] entries@[j]).sector == spectra[j].sector by {
                            assert(spectra[j].sector == all[j].sector);
                        }
                        lemma_same_entries(
                            entries@,
                            spectra,
                            pair.codomain.coupled,
                            spectra.len() as int,
                        );
                    }
                }
            }
        }
    }
    inside
}

/// The sizes of the factors of a full SVD.
fn full_sizes<D, V, M: SectorGeometry>(
    matricizations: &[M],
    stages: &[FullSvdStage<D, V>],
    side: FactorSide,
) -> (sizes: Vec<FactorSize>)
    requires
        stages@.len() == matricizations@.len(),
    ensures
        sizes_match(
            full_pairs(geometries(matricizations@), stages@, stages@.len() as int),
            sizes@,
            side,
        ),
{
    let ghost all = geometries(matricizations@);
    let ghost pairs = full_pairs(all, stages@, stages@.len() as int);
    let mut sizes: Vec<FactorSize> = Vec::new();
    let mut k: usize = 0;
    while k < stages.len()
        invariant
            k <= stages@.len() == matricizations@.len(),
            all == geometries(matricizations@),
            pairs == full_pairs(all, stages@, stages@.len() as int),
            sizes@.len() == k,
            forall|j: int|
                0 <= j < k ==> {
                    &&& (#[trigger] pairs[j]).sector == sizes@[j].sector
                    &&& pairs[j].leading(side) == sizes@[j].leading
                    &&& pairs[j].factor(side).len() == sizes@[j].len
                },
        decreases stages.len() - k,
    {
        let stage = &stages[k];
        assert(all[k as int] == matricizations@[k as int].geometry());
        let sector = matricizations[k].sector();
        let (leading, len): (usize, usize) = match side {
            FactorSide::Left => (stage.left_rows, stage.left.len()),
            FactorSide::Right => (stage.right_leading, stage.right.len()),
        };
        sizes.push(FactorSize { sector, leading, len });
        k += 1;
    }
    sizes
}

/// Whether the outputs of a full SVD are filled from inside the factors of all
/// sectors, and its spectra stand on matrix blocks, each unless a refusal comes
/// first.
pub fn full_stages_are_inside<D, V, M: SectorGeometry>(
    u_structure: &BlockStructure,
    vh_structure: &BlockStructure,
    s_structure: &BlockStructure,
    matricizations: &[M],
    stages: &[FullSvdStage<D, V>],
    row_dimensions: &BondDimensions,
    col_dimensions: &BondDimensions,
    placement: FactorPlacement,
) -> (inside: bool)
    requires
        s_structure.wf(),
    ensures
        inside == {
            &&& stages@.len() == matricizations@.len()
            &&& sectors_distinct(geometries(matricizations@))
            &&& full_stages_fit(
                *u_structure,
                *vh_structure,
                *s_structure,
                geometries(matricizations@),
                stages@,
                match placement {
                    FactorPlacement::Direct => row_dimensions@,
                    FactorPlacement::Adjoint => col_dimensions@,
                },
                match placement {
                    FactorPlacement::Direct => col_dimensions@,
                    FactorPlacement::Adjoint => row_dimensions@,
                },
                placement,
            )
        },
{
    if stages.len() != matricizations.len() || !distinct_sectors(matricizations) {
        return false;
    }
    let ghost pairs = full_pairs(geometries(matricizations@), stages@, stages@.len() as int);
    let (left_dimensions, right_dimensions) = match placement {
        FactorPlacement::Direct => (row_dimensions, col_dimensions),
        FactorPlacement::Adjoint => (col_dimensions, row_dimensions),
    };
    let (left_trees, right_trees) = match placement {
        FactorPlacement::Direct => (FactorSide::Left, FactorSide::Right),
        FactorPlacement::Adjoint => (FactorSide::Right, FactorSide::Left),
    };
    match walk_publication::<D, M>(
        u_structure,
        matricizations,
        full_sizes(matricizations, stages, FactorSide::Left).as_slice(),
        left_dimensions,
        FactorSide::Left,
        left_trees,
        Ghost(pairs),
    ) {
        None => false,
        Some(false) => true,
        Some(true) => match walk_publication::<D, M>(
            vh_structure,
            matricizations,
            full_sizes(matricizations, stages, FactorSide::Right).as_slice(),
            right_dimensions,
            FactorSide::Right,
            right_trees,
            Ghost(pairs),
        ) {
            None => false,
            Some(false) => true,
            Some(true) => full_spectra_stand(s_structure, matricizations, stages),
        },
    }
}

/// [`full_stages_are_inside`] where every tree of a sector of the source is
/// looked up before its factor is published.
pub fn checked_stages_are_inside<D, V, M: SectorGeometry>(
    u_structure: &BlockStructure,
    vh_structure: &BlockStructure,
    s_structure: &BlockStructure,
    matricizations: &[M],
    stages: &[FullSvdStage<D, V>],
    row_dimensions: &BondDimensions,
    col_dimensions: &BondDimensions,
) -> (inside: bool)
    requires
        s_structure.wf(),
    ensures
        inside == {
            &&& stages@.len() == matricizations@.len()
            &&& sectors_distinct(geometries(matricizations@))
            &&& checked_stages_fit(
                *u_structure,
                *vh_structure,
                *s_structure,
                geometries(matricizations@),
                stages@,
                row_dimensions@,
                col_dimensions@,
            )
        },
{
    if stages.len() != matricizations.len() || !distinct_sectors(matricizations) {
        return false;
    }
    if some_placement_is_lacking(u_structure, matricizations, FactorSide::Left) {
        return true;
    }
    let ghost pairs = full_pairs(geometries(matricizations@), stages@, stages@.len() as int);
    match walk_publication::<D, M>(
        u_structure,
        matricizations,
        full_sizes(matricizations, stages, FactorSide::Left).as_slice(),
        row_dimensions,
        FactorSide::Left,
        FactorSide::Left,
        Ghost(pairs),
    ) {
        None => false,
        Some(false) => true,
        Some(true) => some_placement_is_lacking(vh_structure, matricizations, FactorSide::Right)
            || match walk_publication::<D, M>(
            vh_structure,
            matricizations,
            full_sizes(matricizations, stages, FactorSide::Right).as_slice(),
            col_dimensions,
            FactorSide::Right,
            FactorSide::Right,
            Ghost(pairs),
        ) {
            None => false,
            Some(false) => true,
            Some(true) => full_spectra_stand(s_structure, matricizations, stages),
        },
    }
}

/// Whether the output is filled from inside the eigenvectors of all sectors, up
/// to the first refusal.
pub fn eigen_stages_are_inside<D, V, M: SectorGeometry>(
    structure: &BlockStructure,
    matricizations: &[M],
    stages: &[EigenStage<D, V>],
) -> (inside: bool)
    ensures
        inside == {
            &&& stages@.len() == matricizations@.len()
            &&& sectors_distinct(geometries(matricizations@))
            &&& eigen_reads_fit(*structure, geometries(matricizations@), stages@)
        },
{
    if stages.len() != matricizations.len() || !distinct_sectors(matricizations) {
        return false;
    }
    let ghost all = geometries(matricizations@);
    let none: Vec<D> = Vec::new();
    let ghost pairs = Seq::new(
        stages@.len(),
        |k: int|
            FactorPair {
                sector: all[k].sector,
                kept: all[k].rows,
                left: stages@[k].vectors,
                left_rows: all[k].rows,
                right: none,
                right_leading: 0,
            },
    );
    let mut sizes: Vec<FactorSize> = Vec::new();
    let mut dimensions = BondDimensions::new();
    proof {
        assert(pairs.take(0) =~= Seq::<FactorPair<D>>::empty());
    }
    let mut k: usize = 0;
    while k < stages.len()
        invariant
            k <= stages@.len() == matricizations@.len(),
            all == geometries(matricizations@),
            pairs.len() == stages@.len(),
            forall|j: int|
                0 <= j < pairs.len() ==> {
                    &&& (#[trigger] pairs[j]).sector == all[j].sector
                    &&& pairs[j].kept == all[j].rows
                    &&& pairs[j].left_rows == all[j].rows
                    &&& pairs[j].left == stages@[j].vectors
                },
            dimensions.wf(),
            dimensions@ == bond_of_pairs(pairs.take(k as int)),
            sizes@.len() == k,
            forall|j: int|
                0 <= j < k ==> {
                    &&& (#[trigger] sizes@[j]).sector == all[j].sector
                    &&& sizes@[j].leading == all[j].rows
                    &&& sizes@[j].len == stages@[j].vectors@.len()
                },
        decreases stages.len() - k,
    {
        assert(all[k as int] == matricizations@[k as int].geometry());
        let sector = matricizations[k].sector();
        let rows: usize = matricizations[k].rows();
        sizes.push(FactorSize { sector, leading: rows, len: stages[k].vectors.len() });
        dimensions.insert(sector, rows);
        proof {
            assert(pairs.take(k + 1).drop_last() =~= pairs.take(k as int));
            assert(pairs.take(k + 1).last() == pairs[k as int]);
        }
        k += 1;
    }
    proof {
        assert(pairs.take(k as int) =~= pairs);
    }
    let inside = walk_publication::<D, M>(
        structure,
        matricizations,
        sizes.as_slice(),
        &dimensions,
        FactorSide::Left,
        FactorSide::Left,
        Ghost(pairs),
    ).is_some();
    proof {
        let blocks = structure.spec_blocks();
        let left = FactorSide::Left;
        assert(are_eigen_pairs(pairs, all, stages@));
        if inside {
            assert forall|other: Seq<FactorPair<D>>| #[trigger]
                are_eigen_pairs(other, all, stages@) implies reads_fit(
                blocks,
                all,
                other,
                bond_of_pairs(other),
                left,
                left,
            ) by {
                lemma_shaped_bond(other, pairs);
                assert forall|k: int|
                    0 <= k < blocks.len() && blocks_filled(
                        blocks,
                        all,
                        other,
                        bond_of_pairs(other),
                        left,
                        left,
                        k,
                    ) is Ok implies published_reads_fit(
                    #[trigger] blocks[k],
                    all,
                    other,
                    left,
                    left,
                ) by {
                    lemma_filled_agrees(
                        blocks,
                        all,
                        other,
                        pairs,
                        bond_of_pairs(pairs),
                        left,
                        left,
                        k,
                    );
                    assert(published_reads_fit(blocks[k], all, pairs, left, left));
                    if let crate::structure::Label::FusionTree(pair) = blocks[k].key@ {
                        let sector = pair.codomain.coupled;
                        lemma_last_pair_agrees(other, pairs, left, sector, pairs.len() as int);
                        lemma_last_pair(pairs, sector, pairs.len() as int);
                    }
                }
            }
        }
    }
    inside
}

/// [`eigen_stages_are_inside`] where every tree of a sector of the source is
/// looked up first.
pub fn checked_eigen_stages_are_inside<D, V, M: SectorGeometry>(
    structure: &BlockStructure,
    matricizations: &[M],
    stages: &[EigenStage<D, V>],
) -> (inside: bool)
    ensures
        inside == {
            &&& stages@.len() == matricizations@.len()
            &&& sectors_distinct(geometries(matricizations@))
            &&& lacks_some_placement(*structure, geometries(matricizations@), FactorSide::Left)
                || eigen_reads_fit(*structure, geometries(matricizations@), stages@)
        },
{
    stages.len() == matricizations.len() && distinct_sectors(matricizations)
        && (some_placement_is_lacking(structure, matricizations, FactorSide::Left)
        || eigen_stages_are_inside(structure, matricizations, stages))
}

} // verus!
