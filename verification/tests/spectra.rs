//! Spectra: diagonal tensors, scaling, truncation and null spaces.

use tenet_matrixalgebra::bond::BondDimensions;
use tenet_matrixalgebra::eigen::{
    require_endomorphism, validate_endomorphism_tree_stacking, EndomorphismOperation,
};
use tenet_matrixalgebra::error::OperationError;
use tenet_matrixalgebra::factor::{FactorPair, FactorPlacement, SectorRank};
use tenet_matrixalgebra::full::{build_two_sided_factors, svd_full_oriented_dyn, FullSvdStage};
use tenet_matrixalgebra::fusion::{
    coupled_sector_block_dimensions_generic_checked, FusionChannel, FusionEntry, FusionError,
    FusionTable,
};
use tenet_matrixalgebra::geometry::{SectorMatricization, TreeExtent};
use tenet_matrixalgebra::layout::FactorSide;
use tenet_matrixalgebra::matricize::sector_matricizations;
use tenet_matrixalgebra::null::{null_space_pairs, RankedBasis};
use tenet_matrixalgebra::probe::{
    record_diagonal_bond_build, reset_diagonal_bond_build_probe, DiagonalBondBuildProbe,
};
use tenet_matrixalgebra::scaling::scale_axis_by_spectrum_mapped;
use tenet_matrixalgebra::sector::{FusionTreeKey, FusionTreePairKey, SectorId};
use tenet_matrixalgebra::sector_map::SectorMap;
use tenet_matrixalgebra::space::{
    compose_axes, BoundDynFactor, FusionProductSpace, FusionTreeHomSpace, MapSpace, SectorLeg,
};
use tenet_matrixalgebra::spectrum::{
    diagonal_bond_data, diagonal_bond_leg, rectangular_diagonal_data, SectorSpectrum,
};
use tenet_matrixalgebra::structure::{Block, BlockKey, BlockStructure};
use tenet_matrixalgebra::truncate::{
    sliced_bond_data, sliced_bond_leg, truncate_spectra, truncation_keeps_everything,
};

fn sector(id: usize) -> SectorId {
    SectorId::new(id)
}

fn leaf(id: usize) -> FusionTreeKey {
    FusionTreeKey {
        uncoupled: vec![sector(id)],
        coupled: sector(id),
        is_dual: vec![false],
        innerlines: Vec::new(),
        vertices: Vec::new(),
    }
}

fn key(id: usize) -> BlockKey {
    BlockKey::FusionTree(FusionTreePairKey {
        codomain: leaf(id),
        domain: leaf(id),
    })
}

fn matrix_block(id: usize, rows: usize, cols: usize, offset: usize) -> Block {
    Block {
        key: key(id),
        shape: vec![rows, cols],
        strides: vec![1, rows],
        offset,
    }
}

fn spectrum(id: usize, values: &[i32]) -> SectorSpectrum<i32> {
    SectorSpectrum {
        sector: sector(id),
        values: values.to_vec(),
    }
}

fn rank(id: usize, kept: usize) -> SectorRank {
    SectorRank {
        sector: sector(id),
        kept,
    }
}

fn scope(message: &'static str) -> OperationError {
    OperationError::UnsupportedTensorContractScope { message }
}

fn half(value: i32) -> f64 {
    f64::from(value) / 2.0
}

#[test]
fn diagonals_hold_their_spectrum_and_nothing_else() {
    let structure = BlockStructure::new(
        vec![
            matrix_block(0, 2, 3, 0),
            matrix_block(1, 2, 2, 6),
            matrix_block(2, 1, 1, 10),
        ],
        12,
    )
    .unwrap();
    let spectra = [spectrum(0, &[5, 4]), spectrum(1, &[3])];
    let data = rectangular_diagonal_data(&structure, &spectra, &half, 0.0);
    assert_eq!(
        data,
        [2.5, 0.0, 0.0, 2.0, 0.0, 0.0, 1.5, 0.0, 0.0, 0.0, 0.0, 0.0]
    );
    let square = BlockStructure::new(vec![matrix_block(0, 2, 2, 0)], 4).unwrap();
    assert_eq!(
        diagonal_bond_data(&square, &spectra, &half, 0.0),
        [2.5, 0.0, 0.0, 2.0]
    );
    assert_eq!(diagonal_bond_leg(&spectra), [rank(0, 2), rank(1, 1)]);
    let mut probe = DiagonalBondBuildProbe {
        calls: 9,
        values: 9,
    };
    reset_diagonal_bond_build_probe(&mut probe);
    record_diagonal_bond_build(&mut probe, &spectra);
    assert_eq!((probe.calls, probe.values), (1, 3));
}

#[test]
fn scaling_multiplies_one_leg() {
    let structure = BlockStructure::new(vec![matrix_block(0, 2, 2, 0)], 4).unwrap();
    let multiply = |a: f64, b: f64| a * b;
    let spectra = [spectrum(0, &[20, 200])];
    let mut rows = [1.0, 2.0, 3.0, 4.0];
    scale_axis_by_spectrum_mapped(
        &structure,
        1,
        &mut rows,
        Some(0),
        &spectra,
        &half,
        &multiply,
    );
    assert_eq!(rows, [10.0, 200.0, 30.0, 400.0]);
    let mut cols = [1.0, 2.0, 3.0, 4.0];
    scale_axis_by_spectrum_mapped(&structure, 1, &mut cols, None, &spectra, &half, &multiply);
    assert_eq!(cols, [10.0, 20.0, 300.0, 400.0]);
}

#[test]
fn truncation_keeps_leading_values() {
    let entries = || {
        vec![
            spectrum(0, &[9, 5, 1]),
            spectrum(1, &[8]),
            spectrum(2, &[7, 6]),
        ]
    };
    assert!(truncation_keeps_everything(&entries(), &[3, 1, 2]));
    assert!(!truncation_keeps_everything(&entries(), &[3, 1, 1]));
    let kept = truncate_spectra(entries(), &[2, 0, 5]);
    assert_eq!(kept, [spectrum(0, &[9, 5]), spectrum(2, &[7, 6])]);
    assert_eq!(
        sliced_bond_leg(&[rank(0, 3), rank(1, 1), rank(2, 2)], &kept),
        [rank(0, 2), rank(2, 2)]
    );

    let full = BlockStructure::new(vec![matrix_block(0, 2, 3, 0)], 6).unwrap();
    let sliced = BlockStructure::new(vec![matrix_block(0, 2, 2, 0)], 4).unwrap();
    let data = [1, 2, 3, 4, 5, 6];
    assert_eq!(
        sliced_bond_data(&full, &data, &sliced, 0),
        Ok(vec![1, 2, 3, 4])
    );
    // Without anything cut off the factor is the full one.
    assert_eq!(sliced_bond_data(&full, &data, &full, 0), Ok(data.to_vec()));
    let foreign = BlockStructure::new(vec![matrix_block(5, 1, 1, 0)], 1).unwrap();
    assert_eq!(
        sliced_bond_data(&full, &data, &foreign, 0),
        Err(scope("truncated factor tree must exist in the full factor"))
    );
}

#[test]
fn matricization_reads_every_block_and_pads_with_zero() {
    // Two row trees and two column trees of one sector, one block missing.
    let tree = |vertex: usize| FusionTreeKey {
        vertices: vec![vertex],
        ..leaf(0)
    };
    let block = |row: usize, col: usize, offset: usize| Block {
        key: BlockKey::FusionTree(FusionTreePairKey {
            codomain: tree(row),
            domain: tree(col),
        }),
        shape: vec![1, 1],
        strides: vec![1, 1],
        offset,
    };
    let structure = BlockStructure::new(vec![block(1, 1, 0), block(2, 2, 1)], 2).unwrap();
    let matrices = sector_matricizations(&structure, &[5, 7], 1, 0).unwrap();
    assert_eq!(matrices[0].data, [5, 0, 0, 7]);
}

fn square_matrix(id: usize, order: usize) -> SectorMatricization<f64> {
    SectorMatricization {
        sector: sector(id),
        rows: order,
        cols: order,
        row_trees: vec![TreeExtent {
            tree: leaf(id),
            offset: 0,
            shape: vec![order],
        }],
        col_trees: vec![TreeExtent {
            tree: leaf(id),
            offset: 0,
            shape: vec![order],
        }],
        data: vec![0.0; order * order],
    }
}

#[test]
fn null_spaces_take_what_is_behind_the_rank() {
    let matrices = [square_matrix(0, 2), square_matrix(1, 1)];
    let mut dimensions = BondDimensions::new();
    dimensions.insert(sector(0), 2);
    dimensions.insert(sector(1), 1);
    dimensions.insert(sector(3), 4);
    let ranked = [
        RankedBasis {
            rank: 1,
            basis: vec![1.0, 2.0, 3.0, 4.0],
        },
        RankedBasis {
            rank: 1,
            basis: Vec::new(),
        },
    ];
    let conj = |value: f64| -value;
    let (pairs, bond) = null_space_pairs(
        &matrices,
        &ranked,
        dimensions.clone(),
        FactorSide::Left,
        &conj,
    );
    assert_eq!(pairs.len(), 1);
    assert_eq!((pairs[0].kept, pairs[0].left.clone()), (1, vec![3.0, 4.0]));
    assert_eq!(bond.get(sector(0)), Some(1));
    assert_eq!(bond.get(sector(1)), None);
    assert_eq!(bond.get(sector(3)), Some(4));
    let (pairs, _) = null_space_pairs(&matrices, &ranked, dimensions, FactorSide::Right, &conj);
    assert_eq!(pairs[0].right, [-3.0, -4.0]);
}

#[test]
fn full_svd_publishes_both_bases_and_the_spectrum() {
    let matrices = [square_matrix(0, 2)];
    let outer = BlockStructure::new(vec![matrix_block(0, 2, 2, 0)], 4).unwrap();
    let mut dimensions = BondDimensions::new();
    dimensions.insert(sector(0), 2);
    let stages = vec![FullSvdStage {
        left: vec![1.0, 2.0, 3.0, 4.0],
        left_rows: 2,
        right: vec![5.0, 6.0, 7.0, 8.0],
        right_leading: 2,
        singular_values: vec![4, 2],
    }];
    let svd = svd_full_oriented_dyn(
        &outer,
        &outer,
        &outer,
        &matrices,
        stages,
        &dimensions,
        &dimensions,
        FactorPlacement::Direct,
        &half,
        0.0,
        1.0,
    )
    .unwrap();
    assert_eq!(svd.u, [1.0, 2.0, 3.0, 4.0]);
    assert_eq!(svd.s, [2.0, 0.0, 0.0, 1.0]);
    assert_eq!(svd.vh, [5.0, 6.0, 7.0, 8.0]);
    assert_eq!(svd.singular_values, [spectrum(0, &[4, 2])]);

    let mut pairs = vec![FactorPair {
        sector: sector(9),
        kept: 1,
        left: vec![1.0],
        left_rows: 1,
        right: vec![1.0],
        right_leading: 1,
    }];
    assert_eq!(
        build_two_sided_factors(
            &outer,
            &outer,
            &matrices,
            &mut pairs,
            &dimensions,
            &dimensions,
            FactorPlacement::Direct,
            0.0,
            1.0,
        ),
        Err(scope("factor sector absent from the source tensor"))
    );
}

fn leg(ranks: &[(usize, usize)]) -> SectorLeg {
    SectorLeg::new(ranks.iter().map(|&(id, kept)| rank(id, kept)).collect())
}

fn product(legs: Vec<SectorLeg>) -> FusionProductSpace {
    FusionProductSpace { legs }
}

#[test]
fn hom_spaces_swap_and_take_bonds() {
    let hom = FusionTreeHomSpace {
        codomain: product(vec![leg(&[(0, 2)])]),
        domain: product(vec![leg(&[(0, 3)]), leg(&[(1, 1)])]),
    };
    assert!(!hom.is_endomorphism());
    let swapped = hom.swapped();
    assert_eq!(swapped.codomain, hom.domain);
    assert_eq!(swapped.domain, hom.codomain);
    let left = hom.factor(leg(&[(0, 2)]), FactorSide::Left);
    assert!(left.is_endomorphism());
    let right = hom.factor(leg(&[(0, 2)]), FactorSide::Right);
    assert_eq!(right.codomain, product(vec![leg(&[(0, 2)])]));
    assert_eq!(right.domain, hom.domain);
    let sliced = hom.with_leg(2, leg(&[(1, 5)]));
    assert_eq!(sliced.domain.legs[1], leg(&[(1, 5)]));
    assert_eq!(sliced.codomain, hom.codomain);
    assert_eq!(leg(&[(0, 2), (1, 3)]).dimension(), Ok(5));
    assert_eq!(
        leg(&[(0, usize::MAX), (1, 1)]).dimension(),
        Err(OperationError::ElementCountOverflow)
    );
    for operation in [
        EndomorphismOperation::Eigh,
        EndomorphismOperation::Eig,
        EndomorphismOperation::Exp,
    ] {
        assert_eq!(require_endomorphism(&left, operation), Ok(()));
        assert!(require_endomorphism(&hom, operation).is_err());
    }
}

#[test]
fn factors_are_bound_to_their_spaces() {
    let space = || MapSpace {
        rule_identity: Some(1),
        provider: 0,
        homspace: FusionTreeHomSpace {
            codomain: product(vec![leg(&[(0, 2)])]),
            domain: product(vec![leg(&[(0, 2)])]),
        },
        nout: 1,
        nin: 1,
        rank: 2,
        structure: BlockStructure::new(vec![matrix_block(0, 2, 2, 0)], 4).unwrap(),
        regions: None,
    };
    let factor = BoundDynFactor::from_bound(space(), vec![1, 2, 3, 4], 1, 1).unwrap();
    assert_eq!(factor.data(), [1, 2, 3, 4]);
    assert_eq!(factor.space(), &space());
    assert_eq!(factor.into_parts(), (space(), vec![1, 2, 3, 4]));
    assert_eq!(
        BoundDynFactor::from_bound(space(), vec![1, 2, 3], 1, 1),
        Err(OperationError::DimensionMismatch {
            expected: 4,
            actual: 3
        })
    );
    assert_eq!(
        BoundDynFactor::from_bound(space(), vec![1, 2, 3, 4], 2, 1),
        Err(OperationError::RankMismatch {
            expected: 3,
            actual: 2
        })
    );
    assert!(BlockStructure::new(vec![matrix_block(0, 2, 2, 0)], 3).is_none());
}

#[test]
fn composition_contracts_the_shared_legs() {
    let axes = compose_axes(2, 3, 3).unwrap();
    assert_eq!(axes.lhs, [2, 3, 4]);
    assert_eq!(axes.rhs, [0, 1, 2]);
    assert_eq!(
        compose_axes(2, 3, 1),
        Err(OperationError::RankMismatch {
            expected: 3,
            actual: 1
        })
    );
}

#[test]
fn endomorphisms_stack_their_trees_alike() {
    let good = square_matrix(0, 2);
    assert_eq!(
        validate_endomorphism_tree_stacking(std::slice::from_ref(&good)),
        Ok(())
    );
    let mut bad = good;
    bad.col_trees[0].offset = 1;
    assert_eq!(
        validate_endomorphism_tree_stacking(&[bad]),
        Err(scope(
            "eigh requires identical endomorphism row/column fusion-tree stacking"
        ))
    );
}

#[test]
fn coupled_dimensions_follow_the_fusion_table() {
    let channel = |id: usize, multiplicity: usize| FusionChannel {
        coupled: sector(id),
        multiplicity: Some(multiplicity),
    };
    let entry = |left: usize, right: usize, channels: Vec<FusionChannel>| FusionEntry {
        left: sector(left),
        right: sector(right),
        channels,
    };
    let space = product(vec![leg(&[(1, 2)]), leg(&[(1, 3)])]);
    let mut table = FusionTable {
        entries: vec![entry(0, 1, vec![channel(1, 1)])],
    };
    assert_eq!(
        coupled_sector_block_dimensions_generic_checked(&space, sector(0), &table),
        Err(FusionError::MissingChannels {
            left: sector(1),
            right: sector(1)
        })
    );
    table.entries.push(entry(
        1,
        1,
        vec![
            channel(0, 1),
            FusionChannel {
                coupled: sector(1),
                multiplicity: None,
            },
        ],
    ));
    assert_eq!(
        coupled_sector_block_dimensions_generic_checked(&space, sector(0), &table),
        Err(FusionError::MissingMultiplicity {
            left: sector(1),
            right: sector(1),
            coupled: sector(1)
        })
    );
    table.entries[1].channels[1] = channel(1, 2);
    let dimensions =
        coupled_sector_block_dimensions_generic_checked(&space, sector(0), &table).unwrap();
    assert_eq!(dimensions.get(sector(0)), Some(6));
    assert_eq!(dimensions.get(sector(1)), Some(12));
    let huge = product(vec![leg(&[(1, 2)]), leg(&[(1, usize::MAX)])]);
    assert_eq!(
        coupled_sector_block_dimensions_generic_checked(&huge, sector(0), &table),
        Err(FusionError::Operation(OperationError::ElementCountOverflow))
    );
}

#[test]
fn sector_maps_hold_the_last_value() {
    let mut map = SectorMap::new();
    assert_eq!(map.get(sector(3)), None);
    map.insert(sector(3), 30);
    map.insert(sector(4), 40);
    map.insert(sector(3), 31);
    assert_eq!(map.get(sector(3)), Some(31));
    assert_eq!(map.get(sector(4)), Some(40));
    assert_eq!(map.get(sector(31)), None);
}

#[test]
fn bond_dimensions_stay_sorted() {
    let mut dimensions = BondDimensions::new();
    for (id, kept) in [(5, 1), (2, 2), (9, 3), (2, 4)] {
        dimensions.insert(sector(id), kept);
    }
    assert_eq!(
        (0..dimensions.len())
            .map(|index| dimensions.rank(index))
            .collect::<Vec<_>>(),
        [rank(2, 4), rank(5, 1), rank(9, 3)]
    );
    dimensions.remove(sector(5));
    assert_eq!(dimensions.get(sector(5)), None);
    assert_eq!(dimensions.len(), 2);
}

#[test]
fn tree_order_is_strict_and_total() {
    let trees = [
        leaf(0),
        leaf(1),
        FusionTreeKey {
            is_dual: vec![true],
            ..leaf(0)
        },
        FusionTreeKey {
            vertices: vec![1],
            ..leaf(0)
        },
    ];
    for a in &trees {
        assert!(!a.precedes(a));
        for b in &trees {
            assert_eq!(a.precedes(b) || b.precedes(a), !a.same(b));
            assert!(!(a.precedes(b) && b.precedes(a)));
        }
    }
}
