//! Full factorizations from the sector matrices to their published factors, and
//! compact ones on the path that their layout allows.

use std::cell::Cell;

use tenet_matrixalgebra::bond::BondDimensions;
use tenet_matrixalgebra::compact_drive::factor_by_sector_checked;
use tenet_matrixalgebra::completion::QrStage;
use tenet_matrixalgebra::direct::RouteFactors;
use tenet_matrixalgebra::eigen_full::EigenStage;
use tenet_matrixalgebra::eigh_drive::{eigh_full_on_space, judge_matrices, judge_regions};
use tenet_matrixalgebra::error::OperationError;
use tenet_matrixalgebra::factor::{FactorPlacement, SectorRank};
use tenet_matrixalgebra::factor_drive::{factor_compact_on_space, lq_compact_on_space};
use tenet_matrixalgebra::full::FullSvdStage;
use tenet_matrixalgebra::full_drive::{factor_full_by_sector, svd_full_by_sector};
use tenet_matrixalgebra::generic_drive::{
    factor_compact_generic_on_space, svd_compact_generic_on_space,
};
use tenet_matrixalgebra::geometry::{CoupledSectorRegion, SectorMatricization, TreeExtent};
use tenet_matrixalgebra::input::InputMatricizations;
use tenet_matrixalgebra::lq_drive::{lq_by_sector_checked, lq_full_by_sector};
use tenet_matrixalgebra::polar::PolarDirection;
use tenet_matrixalgebra::sector::{FusionTreeKey, FusionTreePairKey, SectorId};
use tenet_matrixalgebra::sides::{bond_leg, DriveError, Publication};
use tenet_matrixalgebra::space::{FusionProductSpace, FusionTreeHomSpace, MapSpace, SectorLeg};
use tenet_matrixalgebra::spectrum::SectorSpectrum;
use tenet_matrixalgebra::stages::BondExtent;
use tenet_matrixalgebra::structure::{Block, BlockKey, BlockStructure};
use tenet_matrixalgebra::svd_drive::svd_compact_on_space;
use tenet_matrixalgebra::svd_stage::SvdStage;

fn refusal(message: &'static str) -> OperationError {
    OperationError::UnsupportedTensorContractScope { message }
}

fn leaf(id: usize) -> FusionTreeKey {
    FusionTreeKey {
        uncoupled: vec![SectorId::new(id)],
        coupled: SectorId::new(id),
        is_dual: vec![false],
        innerlines: Vec::new(),
        vertices: Vec::new(),
    }
}

fn trees(id: usize, dimension: usize) -> Vec<TreeExtent> {
    vec![TreeExtent { tree: leaf(id), offset: 0, shape: vec![dimension] }]
}

fn matrix(id: usize, rows: usize, cols: usize, data: &[i64]) -> SectorMatricization<i64> {
    SectorMatricization {
        sector: SectorId::new(id),
        rows,
        cols,
        row_trees: trees(id, rows),
        col_trees: trees(id, cols),
        data: data.to_vec(),
    }
}

fn single(rows: usize, cols: usize, data: &[i64]) -> InputMatricizations<'static, i64> {
    InputMatricizations::Packed(vec![matrix(1, rows, cols, data)])
}

/// A space of one block for each sector, one after the other.
fn space(shapes: &[(usize, usize, usize)]) -> MapSpace {
    let leg = |ids: Vec<(usize, usize)>| FusionProductSpace {
        legs: vec![SectorLeg::new(
            ids.into_iter()
                .map(|(id, kept)| SectorRank { sector: SectorId::new(id), kept })
                .collect(),
        )],
    };
    let mut start = 0;
    let mut blocks = Vec::new();
    for &(id, rows, cols) in shapes {
        let key = FusionTreePairKey { codomain: leaf(id), domain: leaf(id) };
        blocks.push(Block {
            key: BlockKey::FusionTree(key),
            shape: vec![rows, cols],
            strides: vec![1, rows],
            offset: start,
        });
        start += rows * cols;
    }
    MapSpace {
        rule_identity: Some(1),
        provider: 7,
        homspace: FusionTreeHomSpace {
            codomain: leg(shapes.iter().map(|s| (s.0, s.1)).collect()),
            domain: leg(shapes.iter().map(|s| (s.0, s.2)).collect()),
        },
        nout: 1,
        nin: 1,
        rank: 2,
        structure: BlockStructure::new(blocks, start).unwrap(),
        regions: None,
    }
}

/// The same space with its regions.
fn regional(shapes: &[(usize, usize, usize)]) -> MapSpace {
    let mut start = 0;
    let mut regions = Vec::new();
    for &(id, rows, cols) in shapes {
        regions.push(CoupledSectorRegion {
            coupled: SectorId::new(id),
            rows,
            cols,
            start,
            end: start + rows * cols,
            row_trees: trees(id, rows),
            col_trees: trees(id, cols),
        });
        start += rows * cols;
    }
    MapSpace { regions: Some(regions), ..space(shapes) }
}

fn ranks(leg: &SectorLeg) -> Vec<(usize, usize)> {
    leg.sectors.iter().map(|rank| (rank.sector.id(), rank.kept)).collect()
}

fn dimensions(ranks: &[(usize, usize)]) -> BondDimensions {
    let mut dimensions = BondDimensions::new();
    for &(id, kept) in ranks {
        dimensions.insert(SectorId::new(id), kept);
    }
    dimensions
}

type Layout = Result<MapSpace, &'static str>;

/// Marks the first element of the matrix in a factor of this many elements.
fn marked(matrix: &[i64], weight: i64, count: usize) -> Vec<i64> {
    (0..count).map(|k| weight * matrix[0] + k as i64).collect()
}

#[test]
fn a_leg_has_the_dimensions_of_its_bond() {
    let leg = bond_leg(&dimensions(&[(4, 1), (1, 3)]));
    assert_eq!(ranks(&leg), [(1, 3), (4, 1)]);
    assert!(!leg.is_dual);
}

#[test]
fn a_full_qr_is_published_on_the_bond_of_its_rows() {
    let input = single(2, 1, &[3, 4]);
    let qr = |matrix: &[i64], rows: usize, cols: usize| {
        Ok(RouteFactors {
            left: marked(matrix, 10, rows * rows),
            right: marked(matrix, 100, rows * cols),
        })
    };
    let asked = Cell::new(String::new());
    let note = |word: &str| asked.set(asked.take() + word);
    let bond = || -> Result<BondDimensions, &'static str> {
        note("bond ");
        Ok(dimensions(&[(0, 1), (1, 2)]))
    };
    let left = |leg: &SectorLeg| -> Layout {
        note("left ");
        assert_eq!(ranks(leg), [(0, 1), (1, 2)]);
        Ok(space(&[(0, 1, 1), (1, 2, 2)]))
    };
    let right = |leg: &SectorLeg| -> Layout {
        note("right");
        assert_eq!(ranks(leg), [(0, 1), (1, 2)]);
        Ok(space(&[(1, 2, 1)]))
    };
    let rows = BondExtent::Rows;
    let found = factor_full_by_sector(&input, &qr, rows, &bond, &left, &right, 0, 1).unwrap();
    // Sector 0 is on the bond alone and gets an identity.
    assert_eq!(found.left, [1, 30, 31, 32, 33]);
    assert_eq!(found.right, [300, 301]);
    assert_eq!(asked.take(), "bond left right");
    let broken = |_: &[i64], _: usize, _: usize| -> Result<RouteFactors<i64>, OperationError> {
        Err(refusal("no convergence"))
    };
    let none = || -> Result<BondDimensions, &'static str> { Err("no bond") };
    assert_eq!(
        factor_full_by_sector(&input, &broken, rows, &none, &left, &right, 0, 1),
        Err(DriveError::Operation(refusal("no convergence")))
    );
    assert_eq!(
        factor_full_by_sector(&input, &qr, rows, &none, &left, &right, 0, 1),
        Err(DriveError::Layout("no bond"))
    );
    assert_eq!(asked.take(), "");
    let checked_left = |_: &SectorLeg| -> Layout { Ok(space(&[(1, 2, 2)])) };
    let checked =
        factor_by_sector_checked(&input, &qr, rows, &checked_left, &|_: &SectorLeg| -> Layout {
            Ok(space(&[(1, 2, 1)]))
        }, 0)
        .unwrap();
    assert_eq!(checked.left, [30, 31, 32, 33]);
    assert_eq!(checked.right, [300, 301]);
}

#[test]
fn a_full_lq_comes_from_the_qr_of_the_adjoint() {
    let input = single(1, 2, &[5, 6]);
    let negate = |value: i64| -value;
    let qr = |matrix: &[i64], rows: usize, cols: usize| {
        assert_eq!((matrix, rows, cols), (&[-5i64, -6][..], 2, 1));
        Ok(QrStage { q: marked(matrix, 10, rows * rows), r: marked(matrix, 100, rows * cols) })
    };
    let bond = || -> Result<BondDimensions, &'static str> { Ok(dimensions(&[(1, 2)])) };
    let left = |_: &SectorLeg| -> Layout { Ok(space(&[(1, 1, 2)])) };
    let right = |_: &SectorLeg| -> Layout { Ok(space(&[(1, 2, 2)])) };
    let found =
        lq_full_by_sector(&input, &negate, &qr, &bond, &left, &right, 0, 1).unwrap();
    assert_eq!(found.left, [500, 499]);
    assert_eq!(found.right, [50, 48, 49, 47]);
    let cols = BondExtent::Cols;
    let checked =
        lq_by_sector_checked(&input, cols, &negate, &qr, &left, &right, 0).unwrap();
    assert_eq!(checked, found);
    let broken = |_: &[i64], _: usize, _: usize| -> Result<QrStage<i64>, OperationError> {
        Err(refusal("no convergence"))
    };
    let failed = Err(DriveError::Operation(refusal("no convergence")));
    assert_eq!(
        lq_full_by_sector(&input, &negate, &broken, &bond, &left, &right, 0, 1),
        failed
    );
    assert_eq!(
        lq_by_sector_checked(&input, cols, &negate, &broken, &left, &right, 0),
        failed
    );
}

#[test]
fn a_full_svd_is_published_with_its_diagonal() {
    let input = single(2, 1, &[3, 4]);
    let (rows, cols) = (dimensions(&[(1, 2)]), dimensions(&[(1, 1)]));
    let scalar = |value: i64| 1000 * value;
    for publication in
        [Publication::Plain(FactorPlacement::Direct), Publication::LookedUp]
    {
        let svd = |matrix: &[i64], rows: usize, cols: usize| {
            Ok(FullSvdStage {
                left: marked(matrix, 10, rows * rows),
                left_rows: rows,
                right: marked(matrix, 100, cols * cols),
                right_leading: cols,
                singular_values: vec![7],
            })
        };
        let left = |leg: &SectorLeg| -> Layout {
            assert_eq!(ranks(leg), [(1, 2)]);
            Ok(space(&[(1, 2, 2)]))
        };
        let right = |leg: &SectorLeg| -> Layout {
            assert_eq!(ranks(leg), [(1, 1)]);
            Ok(space(&[(1, 1, 1)]))
        };
        let diagonal = |left: &SectorLeg, right: &SectorLeg| -> Layout {
            assert_eq!((ranks(left), ranks(right)), (vec![(1, 2)], vec![(1, 1)]));
            Ok(space(&[(1, 2, 1)]))
        };
        let found = svd_full_by_sector(
            &input, &rows, &cols, publication, &svd, &left, &right, &diagonal, &scalar, 0, 1,
        )
        .unwrap();
        assert_eq!(found.u, [30, 31, 32, 33]);
        assert_eq!(found.vh, [300]);
        assert_eq!(found.s, [7000, 0]);
        let values = SectorSpectrum { sector: SectorId::new(1), values: vec![7] };
        assert_eq!(found.singular_values, [values]);
        assert_eq!(found.s_space, space(&[(1, 2, 1)]));
        // A tree that the source lacks is refused before the right space is
        // asked for, and the diagonal is asked for last.
        let mut lacking = space(&[(1, 2, 2)]);
        let mut other = leaf(1);
        other.vertices = vec![9];
        let key = FusionTreePairKey { codomain: other, domain: leaf(1) };
        let block = Block {
            key: BlockKey::FusionTree(key),
            shape: vec![2, 2],
            strides: vec![1, 2],
            offset: 0,
        };
        lacking.structure = BlockStructure::new(vec![block], 4).unwrap();
        let lacks = |_: &SectorLeg| -> Layout { Ok(lacking.clone()) };
        let none = |_: &SectorLeg| -> Layout { Err("no layout") };
        assert_eq!(
            svd_full_by_sector(
                &input, &rows, &cols, publication, &svd, &lacks, &none, &diagonal, &scalar, 0, 1,
            ),
            Err(DriveError::Operation(refusal(
                "factor codomain tree absent from the source matricization"
            )))
        );
        let undefined = |_: &SectorLeg, _: &SectorLeg| -> Layout { Err("no diagonal") };
        assert_eq!(
            svd_full_by_sector(
                &input, &rows, &cols, publication, &svd, &left, &none, &undefined, &scalar, 0, 1,
            ),
            Err(DriveError::Layout("no layout"))
        );
        assert_eq!(
            svd_full_by_sector(
                &input, &rows, &cols, publication, &svd, &left, &right, &undefined, &scalar, 0, 1,
            ),
            Err(DriveError::Layout("no diagonal"))
        );
        let broken = |_: &[i64], _: usize, _: usize| {
            Err::<FullSvdStage<i64, i64>, OperationError>(refusal("no convergence"))
        };
        assert_eq!(
            svd_full_by_sector(
                &input, &rows, &cols, publication, &broken, &none, &none, &undefined, &scalar, 0,
                1,
            ),
            Err(DriveError::Operation(refusal("no convergence")))
        );
    }
}

#[test]
fn the_full_svd_of_an_adjoint_exchanges_the_dimensions() {
    let input = single(2, 1, &[3, 4]);
    let (rows, cols) = (dimensions(&[(1, 2)]), dimensions(&[(1, 1)]));
    let svd = |matrix: &[i64], rows: usize, cols: usize| {
        Ok(FullSvdStage {
            left: marked(matrix, 10, cols * cols),
            left_rows: cols,
            right: marked(matrix, 100, rows * rows),
            right_leading: rows,
            singular_values: vec![7],
        })
    };
    let left = |leg: &SectorLeg| -> Layout {
        assert_eq!(ranks(leg), [(1, 1)]);
        Ok(space(&[(1, 1, 1)]))
    };
    let right = |leg: &SectorLeg| -> Layout {
        assert_eq!(ranks(leg), [(1, 2)]);
        Ok(space(&[(1, 2, 2)]))
    };
    let diagonal = |left: &SectorLeg, right: &SectorLeg| -> Layout {
        assert_eq!((ranks(left), ranks(right)), (vec![(1, 1)], vec![(1, 2)]));
        Ok(space(&[(1, 1, 2)]))
    };
    let found = svd_full_by_sector(
        &input,
        &rows,
        &cols,
        Publication::Plain(FactorPlacement::Adjoint),
        &svd,
        &left,
        &right,
        &diagonal,
        &|value: i64| value,
        0,
        1,
    )
    .unwrap();
    assert_eq!(found.u, [30]);
    assert_eq!(found.vh, [300, 301, 302, 303]);
    assert_eq!(found.s, [7, 0]);
}

const SHAPES: [(usize, usize, usize); 2] = [(1, 2, 1), (0, 1, 2)];
const DATA: [i64; 4] = [3, 4, 5, 6];

fn compact_svd(
    matrix: &[i64],
    rows: usize,
    cols: usize,
) -> Result<SvdStage<i64, i64>, OperationError> {
    let kept = rows.min(cols);
    Ok(SvdStage {
        u: marked(matrix, 100, rows * kept),
        values: vec![matrix[0]; kept],
        vt: marked(matrix, -100, kept * cols),
    })
}

#[test]
fn a_compact_svd_takes_the_path_that_its_layout_allows() {
    let none = || -> Result<(BondDimensions, BondDimensions), &'static str> { Err("no bond") };
    for routed in [true, false] {
        let made = |shapes: &[(usize, usize, usize)]| {
            if routed {
                regional(shapes)
            } else {
                space(shapes)
            }
        };
        let source = made(&SHAPES);
        let left = |leg: &SectorLeg| -> Layout {
            assert_eq!(ranks(leg), [(1, 1), (0, 1)]);
            Ok(made(&[(0, 1, 1), (1, 2, 1)]))
        };
        let right = |_: &SectorLeg| -> Layout { Ok(made(&[(0, 1, 2), (1, 1, 1)])) };
        let found =
            svd_compact_on_space(&source, &DATA, None, &none, &left, &right, &compact_svd, 0)
                .unwrap();
        assert_eq!(found.u, [500, 300, 301]);
        assert_eq!(found.vh, [-500, -499, -300]);
        let values = |id: usize, value: i64| SectorSpectrum {
            sector: SectorId::new(id),
            values: vec![value],
        };
        assert_eq!(found.singular_values, [values(1, 3), values(0, 5)]);
        assert_eq!(found.u_space, made(&[(0, 1, 1), (1, 2, 1)]));
        // The right space is asked for after the left one.
        let refused = |_: &SectorLeg| -> Layout { Err("no layout") };
        let unasked = |_: &SectorLeg| -> Layout { unreachable!() };
        assert_eq!(
            svd_compact_on_space(&source, &DATA, None, &none, &refused, &unasked, &compact_svd, 0),
            Err(DriveError::Layout("no layout"))
        );
        // Sector 0 has more columns than rows; it is refused before any layout.
        let bonds = || -> Result<(BondDimensions, BondDimensions), &'static str> {
            Ok((dimensions(&[(0, 1), (1, 2)]), dimensions(&[(0, 2), (1, 1)])))
        };
        let direction = Some((PolarDirection::Left, PolarDirection::Left));
        assert_eq!(
            svd_compact_on_space(
                &source, &DATA, direction, &bonds, &unasked, &unasked, &compact_svd, 0
            ),
            Err(DriveError::Operation(OperationError::InvalidArgument {
                message: "left_polar requires rows >= columns in every coupled-sector matrix"
            }))
        );
        assert_eq!(
            svd_compact_on_space(
                &source, &DATA, direction, &none, &unasked, &unasked, &compact_svd, 0
            ),
            Err(DriveError::Layout("no bond"))
        );
    }
    // A source with regions needs factors with regions.
    let plain = |_: &SectorLeg| -> Layout { Ok(space(&[(0, 1, 1), (1, 2, 1)])) };
    assert_eq!(
        svd_compact_on_space(
            &regional(&SHAPES), &DATA, None, &none, &plain, &plain, &compact_svd, 0
        ),
        Err(DriveError::Operation(refusal(
            "compact left factor is not a coupled-sector matrix layout"
        )))
    );
}

#[test]
fn compact_pairs_take_the_path_that_their_layout_allows() {
    let work = |matrix: &[i64], rows: usize, cols: usize| {
        let stage = compact_svd(matrix, rows, cols)?;
        Ok(RouteFactors { left: stage.u, right: stage.vt })
    };
    let negate = |value: i64| -value;
    let qr = |matrix: &[i64], rows: usize, cols: usize| {
        let stage = compact_svd(matrix, rows, cols)?;
        Ok(QrStage { q: stage.u, r: stage.vt })
    };
    for routed in [true, false] {
        let made = |shapes: &[(usize, usize, usize)]| {
            if routed {
                regional(shapes)
            } else {
                space(shapes)
            }
        };
        let source = made(&SHAPES);
        let left = |_: &SectorLeg| -> Layout { Ok(made(&[(0, 1, 1), (1, 2, 1)])) };
        let right = |_: &SectorLeg| -> Layout { Ok(made(&[(0, 1, 2), (1, 1, 1)])) };
        let found =
            factor_compact_on_space(&source, &DATA, &left, &right, &work, 0, 1).unwrap();
        assert_eq!(found.left, [500, 300, 301]);
        assert_eq!(found.right, [-500, -499, -300]);
        // The LQ negates the source, and its factors once more.
        let found =
            lq_compact_on_space(&source, &DATA, &left, &right, &negate, &qr, 0, 1).unwrap();
        assert_eq!(found.left, [-500, -300, -301]);
        assert_eq!(found.right, [500, 499, 300]);
        let refused = |_: &SectorLeg| -> Layout { Err("no layout") };
        assert_eq!(
            factor_compact_on_space(&source, &DATA, &left, &refused, &work, 0, 1),
            Err(DriveError::Layout("no layout"))
        );
        assert_eq!(
            lq_compact_on_space(&source, &DATA, &refused, &right, &negate, &qr, 0, 1),
            Err(DriveError::Layout("no layout"))
        );
    }
}

#[test]
fn a_hermitian_eigendecomposition_takes_the_path_that_its_layout_allows() {
    let shapes = [(1, 2, 2), (0, 1, 1)];
    let data = [3, 0, 0, 4, 5];
    let eigen = |matrix: &[i64], order: usize, _: usize| {
        Ok(EigenStage {
            values: vec![matrix[0]; order],
            vectors: marked(matrix, 100, order * order),
        })
    };
    let symmetric = |matrix: &[i64], order: usize| {
        (0..order).all(|r| (0..order).all(|c| matrix[r + order * c] == matrix[c + order * r]))
    };
    for routed in [true, false] {
        let made = |shapes: &[(usize, usize, usize)]| {
            if routed {
                regional(shapes)
            } else {
                space(shapes)
            }
        };
        let layout = |leg: &SectorLeg| -> Layout {
            assert_eq!(ranks(leg), [(1, 2), (0, 1)]);
            Ok(made(&[(0, 1, 1), (1, 2, 2)]))
        };
        let run = |source: &MapSpace, data: &[i64]| {
            eigh_full_on_space(source, data, &layout, &layout, &symmetric, &eigen, 0)
        };
        let found = run(&made(&shapes), &data).unwrap();
        assert_eq!(found.vectors, [500, 300, 301, 302, 303]);
        assert_eq!(found.space, made(&[(0, 1, 1), (1, 2, 2)]));
        let values = |id: usize, values: &[i64]| SectorSpectrum {
            sector: SectorId::new(id),
            values: values.to_vec(),
        };
        assert_eq!(found.values, [values(1, &[3, 3]), values(0, &[5])]);
        assert_eq!(
            run(&made(&shapes), &[3, 1, 0, 4, 5]),
            Err(DriveError::Operation(OperationError::InvalidArgument {
                message: "eigh requires Hermitian coupled-sector blocks"
            }))
        );
        assert_eq!(
            run(&made(&SHAPES), &DATA),
            Err(DriveError::Operation(refusal(
                "eigh requires an endomorphism (codomain == domain)"
            )))
        );
    }
    let matrices = [matrix(1, 2, 1, &[3, 4])];
    assert_eq!(
        judge_matrices(&matrices, &symmetric),
        Err(refusal("eigh requires square coupled-sector matrices"))
    );
    let regions = regional(&[(1, 1, 1)]).regions.unwrap();
    assert_eq!(
        judge_regions(&[] as &[i64], &regions, &symmetric),
        Err(OperationError::ElementCountMismatch { expected: 1, actual: 0 })
    );
    assert_eq!(judge_regions(&[7], &regions, &symmetric), Ok(()));
}

#[test]
fn factors_without_the_trees_of_their_source_are_found_by_sector() {
    let work = |matrix: &[i64], rows: usize, cols: usize| {
        let stage = compact_svd(matrix, rows, cols)?;
        Ok(RouteFactors { left: stage.u, right: stage.vt })
    };
    let source = regional(&SHAPES);
    for matching in [true, false] {
        let asked = Cell::new(0);
        let left = |leg: &SectorLeg| -> Layout {
            asked.set(asked.get() + 1);
            assert_eq!(ranks(leg), [(1, 1), (0, 1)]);
            let mut left = regional(&[(0, 1, 1), (1, 2, 1)]);
            if !matching {
                // The regions name a tree that the source does not have.
                left.regions.as_mut().unwrap()[1].row_trees[0].tree.vertices = vec![9];
            }
            Ok(left)
        };
        let right = |_: &SectorLeg| -> Layout { Ok(regional(&[(0, 1, 2), (1, 1, 1)])) };
        let found =
            svd_compact_generic_on_space(&source, &DATA, &left, &right, &compact_svd, 0).unwrap();
        assert_eq!(found.u, [500, 300, 301]);
        assert_eq!(found.vh, [-500, -499, -300]);
        let pair =
            factor_compact_generic_on_space(&source, &DATA, &left, &right, &work, 0).unwrap();
        assert_eq!((pair.left, pair.right), (found.u, found.vh));
        // Without routes the spaces are asked for once more.
        assert_eq!(asked.get(), if matching { 2 } else { 4 });
    }
    // A label that the source lacks is refused before the right space is asked
    // for and before the backend works.
    let lacking = |_: &SectorLeg| -> Layout {
        let mut left = space(&[(1, 2, 1)]);
        let mut other = leaf(1);
        other.vertices = vec![9];
        let key = FusionTreePairKey { codomain: other, domain: leaf(1) };
        let block = Block {
            key: BlockKey::FusionTree(key),
            shape: vec![2, 1],
            strides: vec![1, 2],
            offset: 0,
        };
        left.structure = BlockStructure::new(vec![block], 2).unwrap();
        Ok(left)
    };
    let unasked = |_: &SectorLeg| -> Layout { unreachable!() };
    let broken = |_: &[i64], _: usize, _: usize| {
        Err::<SvdStage<i64, i64>, OperationError>(refusal("no convergence"))
    };
    assert_eq!(
        svd_compact_generic_on_space(&space(&SHAPES), &DATA, &lacking, &unasked, &broken, 0),
        Err(DriveError::Operation(refusal(
            "factor codomain tree absent from the source matricization"
        )))
    );
}
