//! What full SVDs of tensors are, with an exact backend, and how the adjoint's
//! factors stand.

use vstd::prelude::*;

use crate::compact_drive::input_geometries;
use crate::completion_laws::is_full_svd_of;
use crate::driver_laws::{holds_factor, is_output, is_source, lemma_geometry_count};
use crate::error::OperationError;
use crate::factor::{source_side, FactorPlacement, SectorRank};
use crate::full::{full_pairs, full_spectra, FullSvdStage};
use crate::full_drive::{
    by_placement, diagonal_published, full_svd_laid_out, full_svds_published, lays_out_diagonal,
    FullSvdOnSpaces,
};
use crate::fusion_laws::weighed;
use crate::geometry::{Geometry, SectorMatricization};
use crate::input::InputMatricizations;
use crate::layout::FactorSide;
use crate::layout_laws::lemma_diagonal_by_index;
use crate::probe::{packed_bytes, spectrum_values};
use crate::product_laws::{decomposes_fully, lemma_full_pairs_decompose};
use crate::publication_laws::lemma_both_sides_hold;
use crate::read_back::elements_apart;
use crate::ring::{matrix, Matrix, Ring};
use crate::sector::SectorId;
use crate::sides::{lays_out, sides_published, DriveError, FactorsOnSpaces, Publication};
use crate::space::{binding_refusal, MapSpace, SectorLeg};
use crate::space_laws::lemma_dimension_counts_states;
use crate::spectrum::{image, is_bond_block, SectorSpectrum};
use crate::stages::{factored_until, sector_input};
use crate::tensor_laws::as_scalars;
use crate::truncation_laws::value_count;
use crate::typed::{leg_dimension, some_leg_overflows};

verus! {

/// The geometry of the adjoint matrix.
pub open spec fn adjoint_geometry(geometry: Geometry) -> Geometry {
    Geometry {
        sector: geometry.sector,
        rows: geometry.cols,
        cols: geometry.rows,
        row_trees: geometry.col_trees,
        col_trees: geometry.row_trees,
    }
}

/// The factors of the adjoint stand on the trees, and on the bonds, that the
/// adjoint matrix has on their side; other factors on those of the matrix itself.
pub proof fn lemma_placement_turns_sides<T>(
    geometry: Geometry,
    side: FactorSide,
    rows: T,
    cols: T,
)
    ensures
        geometry.trees(source_side(side, FactorPlacement::Direct)) == geometry.trees(side),
        geometry.trees(source_side(side, FactorPlacement::Adjoint)) == adjoint_geometry(
            geometry,
        ).trees(side),
        by_placement(Publication::Plain(FactorPlacement::Direct), rows, cols) == rows,
        by_placement(Publication::LookedUp, rows, cols) == rows,
        by_placement(Publication::Plain(FactorPlacement::Adjoint), rows, cols) == cols,
{
}

/// The diagonal between two published factors: it stands on a space that was given
/// for both bonds, and holds the values of every sector on the diagonal of the
/// sector's blocks and zero beside it; the factors are handed on as they are.
pub proof fn lemma_published_diagonal<
    D,
    V,
    X,
    S: Fn(&SectorLeg, &SectorLeg) -> Result<MapSpace, X>,
    T: Fn(V) -> D,
>(
    found: FullSvdOnSpaces<D, V>,
    factors: FactorsOnSpaces<D>,
    spectra: Seq<SectorSpectrum<V>>,
    layout: S,
    left_dimensions: Seq<SectorRank>,
    right_dimensions: Seq<SectorRank>,
    to_scalar: T,
    zero: D,
    b: int,
    entry: int,
    i: int,
    j: int,
)
    requires
        diagonal_published(
            Ok::<FullSvdOnSpaces<D, V>, DriveError<X>>(found),
            factors,
            spectra,
            layout,
            left_dimensions,
            right_dimensions,
            to_scalar,
            zero,
        ),
        found.s_space.structure.wf(),
        elements_apart(found.s_space.structure.spec_blocks()),
        forall|k: int|
            0 <= k < found.s_space.structure.spec_blocks().len() ==> is_bond_block(
                #[trigger] found.s_space.structure.spec_blocks()[k],
                spectra,
            ),
        0 <= b < found.s_space.structure.spec_blocks().len(),
        found.s_space.structure.spec_blocks()[b].key@ is FusionTree,
        0 <= entry < spectra.len(),
        spectra[entry].sector
            == found.s_space.structure.spec_blocks()[b].key@->FusionTree_0.codomain.coupled,
        forall|later: int|
            entry < later < spectra.len() ==> (#[trigger] spectra[later]).sector
                != spectra[entry].sector,
        0 <= i < found.s_space.structure.spec_blocks()[b].shape@[0],
        0 <= j < found.s_space.structure.spec_blocks()[b].shape@[1],
    ensures
        lays_out_diagonal(
            layout,
            left_dimensions,
            right_dimensions,
            Ok::<MapSpace, X>(found.s_space),
        ),
        found.u_space == factors.left_space,
        found.u == factors.left,
        found.vh_space == factors.right_space,
        found.vh == factors.right,
        found.singular_values@ == spectra,
        ({
            let block = found.s_space.structure.spec_blocks()[b];
            found.s@[block.offset + i * block.strides@[0] + j * block.strides@[1]] == if i == j
                && i < spectra[entry].values@.len() {
                image(to_scalar, spectra[entry].values@[i])
            } else {
                zero
            }
        }),
{
    lemma_diagonal_by_index(
        found.s_space.structure,
        spectra,
        to_scalar,
        zero,
        b,
        entry,
        i,
        j,
    );
}

/// The published full SVD of a tensor: in every sector both outer spaces hold
/// square factors that are, with the values listed for the sector, a full SVD of
/// the sector's own matrix, on spaces over the bonds of its rows and its columns.
pub proof fn lemma_published_full_svd<
    D,
    V,
    X,
    F: Fn(&[D], usize, usize) -> Result<FullSvdStage<D, V>, OperationError>,
    G: Fn(&SectorLeg) -> Result<MapSpace, X>,
    H: Fn(&SectorLeg) -> Result<MapSpace, X>,
    S: Fn(&SectorLeg, &SectorLeg) -> Result<MapSpace, X>,
    T: Fn(V) -> D,
>(
    ring: Ring<D>,
    number: spec_fn(V) -> D,
    found: FullSvdOnSpaces<D, V>,
    input: InputMatricizations<'_, D>,
    svd: F,
    left_dimensions: Seq<SectorRank>,
    right_dimensions: Seq<SectorRank>,
    publication: Publication,
    left_layout: G,
    right_layout: H,
    diagonal_layout: S,
    to_scalar: T,
    one: D,
    k: int,
)
    requires
        decomposes_fully(ring, svd, number, FactorPlacement::Direct),
        publication != Publication::Plain(FactorPlacement::Adjoint),
        full_svds_published(
            Ok::<FullSvdOnSpaces<D, V>, DriveError<X>>(found),
            input,
            svd,
            left_dimensions,
            right_dimensions,
            publication,
            left_layout,
            right_layout,
            diagonal_layout,
            to_scalar,
            ring.zero,
            one,
        ),
        is_output(found.u_space.structure, FactorSide::Left),
        is_output(found.vh_space.structure, FactorSide::Right),
        is_source(input_geometries(input), FactorSide::Left),
        is_source(input_geometries(input), FactorSide::Right),
        0 <= k < input.spec_len(),
    ensures
        sector_input(input, k) is Ok,
        lays_out(left_layout, left_dimensions, Ok::<MapSpace, X>(found.u_space)),
        lays_out(right_layout, right_dimensions, Ok::<MapSpace, X>(found.vh_space)),
        found.singular_values@.len() == input.spec_len(),
        found.singular_values@[k].sector == input_geometries(input)[k].sector,
        exists|u: Matrix<D>, vh: Matrix<D>|
            {
                &&& #[trigger] is_full_svd_of(
                    ring,
                    matrix(
                        sector_input(input, k)->Ok_0.rows as int,
                        sector_input(input, k)->Ok_0.cols as int,
                        sector_input(input, k)->Ok_0.data,
                    ),
                    u,
                    as_scalars(found.singular_values@[k].values@, number),
                    vh,
                )
                &&& holds_factor(
                    found.u@,
                    found.u_space.structure,
                    input_geometries(input),
                    FactorSide::Left,
                    k,
                    u,
                )
                &&& holds_factor(
                    found.vh@,
                    found.vh_space.structure,
                    input_geometries(input),
                    FactorSide::Right,
                    k,
                    vh,
                )
            },
{
    let all = input_geometries(input);
    let result = Ok::<FullSvdOnSpaces<D, V>, DriveError<X>>(found);
    let stages = choose|stages: Seq<FullSvdStage<D, V>>|
        {
            &&& #[trigger] factored_until(stages, None, input, svd)
            &&& full_svd_laid_out(
                result,
                all,
                stages,
                left_dimensions,
                right_dimensions,
                publication,
                left_layout,
                right_layout,
                diagonal_layout,
                to_scalar,
                ring.zero,
                one,
            )
        };
    let pairs = full_pairs(all, stages, stages.len() as int);
    let factors = choose|factors: Result<FactorsOnSpaces<D>, DriveError<X>>|
        {
            &&& #[trigger] sides_published(
                factors,
                left_layout,
                right_layout,
                all,
                pairs,
                left_dimensions,
                right_dimensions,
                publication,
                ring.zero,
                one,
            )
            &&& match factors {
                Err(error) => result == Err::<FullSvdOnSpaces<D, V>, DriveError<X>>(error),
                Ok(factors) => diagonal_published(
                    result,
                    factors,
                    full_spectra(all, stages, stages.len() as int),
                    diagonal_layout,
                    left_dimensions,
                    right_dimensions,
                    to_scalar,
                    ring.zero,
                ),
            }
        };
    lemma_geometry_count(input);
    lemma_full_pairs_decompose(ring, number, stages, input, svd, FactorPlacement::Direct, k);
    assert forall|later: int| k < later < pairs.len() implies (#[trigger] pairs[later]).sector
        != all[k].sector by {
        assert(all[k].sector != all[later].sector);
    }
    let source = sector_input(input, k)->Ok_0;
    let pair = pairs[k];
    lemma_both_sides_hold(
        factors->Ok_0,
        left_layout,
        right_layout,
        all,
        pairs,
        left_dimensions,
        right_dimensions,
        publication,
        ring.zero,
        one,
        k,
        k,
        pair.right_leading as int,
    );
    let u = matrix(pair.left_rows as int, pair.kept as int, pair.left@);
    let vh = matrix(pair.right_leading as int, pair.right_leading as int, pair.right@);
    assert(is_full_svd_of(
        ring,
        matrix(
            sector_input(input, k)->Ok_0.rows as int,
            sector_input(input, k)->Ok_0.cols as int,
            sector_input(input, k)->Ok_0.data,
        ),
        u,
        as_scalars(found.singular_values@[k].values@, number),
        vh,
    ));
}

/// A leg is as large as its states are many, and legs fit exactly where none of
/// them has more states than can be counted.
pub proof fn lemma_leg_dimension_counts_states(legs: Seq<crate::space::Leg>, count: int)
    ensures
        forall|k: int|
            0 <= k < legs.len() ==> leg_dimension(#[trigger] legs[k]) == weighed(
                legs[k].sectors,
                |sector: SectorId| 1int,
            ),
        some_leg_overflows(legs, count) <==> exists|k: int|
            0 <= k < count && k < legs.len() && weighed(
                (#[trigger] legs[k]).sectors,
                |sector: SectorId| 1int,
            ) > usize::MAX,
{
    assert forall|k: int| 0 <= k < legs.len() implies leg_dimension(#[trigger] legs[k]) == weighed(
        legs[k].sectors,
        |sector: SectorId| 1int,
    ) by {
        let sectors = legs[k].sectors;
        lemma_dimension_counts_states(sectors, sectors.len() as int);
        assert(sectors.take(sectors.len() as int) =~= sectors);
    }
    if some_leg_overflows(legs, count) {
        let k = choose|k: int|
            0 <= k < count && k < legs.len() && leg_dimension(#[trigger] legs[k]) > usize::MAX;
        assert(weighed(legs[k].sectors, |sector: SectorId| 1int) > usize::MAX);
    }
    if exists|k: int|
        0 <= k < count && k < legs.len() && weighed(
            (#[trigger] legs[k]).sectors,
            |sector: SectorId| 1int,
        ) > usize::MAX {
        let k = choose|k: int|
            0 <= k < count && k < legs.len() && weighed(
                (#[trigger] legs[k]).sectors,
                |sector: SectorId| 1int,
            ) > usize::MAX;
        assert(leg_dimension(legs[k]) > usize::MAX);
    }
}

/// Data is bound to a space exactly where the leg counts and the length are those
/// of the space.
pub proof fn lemma_binding(space: MapSpace, len: int, nout: int, nin: int)
    ensures
        binding_refusal(space, len, nout, nin) is None <==> {
            &&& space.nout == nout
            &&& space.nin == nin
            &&& len == space.structure.spec_len()
        },
{
}

/// The values that are counted are all values of the spectra.
pub proof fn lemma_counted_values<V>(spectrum: Seq<SectorSpectrum<V>>, count: int)
    requires
        0 <= count <= spectrum.len(),
    ensures
        spectrum_values(spectrum, count) == value_count(spectrum.take(count)),
    decreases count,
{
    if count > 0 {
        lemma_counted_values(spectrum, count - 1);
        assert(spectrum.take(count).drop_last() =~= spectrum.take(count - 1));
        assert(spectrum.take(count).last() == spectrum[count - 1]);
    } else {
        assert(spectrum.take(0) =~= Seq::<SectorSpectrum<V>>::empty());
    }
}

/// The bytes of a list of packed matrices are those of its parts together; one
/// matrix has as many as its elements have.
pub proof fn lemma_counted_bytes<D>(
    a: Seq<SectorMatricization<D>>,
    b: Seq<SectorMatricization<D>>,
)
    ensures
        packed_bytes(a + b, (a.len() + b.len()) as int) == packed_bytes(a, a.len() as int)
            + packed_bytes(b, b.len() as int),
        a.len() == 1 ==> packed_bytes(a, 1) == a[0].data@.len() * vstd::layout::size_of::<D>(),
    decreases b.len(),
{
    reveal_with_fuel(packed_bytes, 2);
    if b.len() > 0 {
        let rest = b.drop_last();
        lemma_counted_bytes(a, rest);
        lemma_bytes_of_prefix(a + b, a + rest, (a.len() + rest.len()) as int);
        lemma_bytes_of_prefix(b, rest, rest.len() as int);
        assert((a + b)[a.len() + b.len() - 1] == b[b.len() - 1]);
    } else {
        lemma_bytes_of_prefix(a + b, a, a.len() as int);
    }
}

proof fn lemma_bytes_of_prefix<D>(
    a: Seq<SectorMatricization<D>>,
    b: Seq<SectorMatricization<D>>,
    count: int,
)
    requires
        0 <= count <= a.len(),
        count <= b.len(),
        forall|k: int| 0 <= k < count ==> #[trigger] a[k] == b[k],
    ensures
        packed_bytes(a, count) == packed_bytes(b, count),
    decreases count,
{
    if count > 0 {
        lemma_bytes_of_prefix(a, b, count - 1);
        assert(a[count - 1] == b[count - 1]);
    }
}

} // verus!
