//! Tests of whether the blocks of a layout fit an operation.

use vstd::prelude::*;

use crate::factor::FactorPair;
use crate::fits::{block_reads_inside, distinct_sectors, lemma_last_coordinate};
use crate::geometry::{geometries, sectors_distinct, SectorGeometry};
use crate::index::{
    address, block_fits, checked_extent, extent, extent_fits, lemma_leading_extent_nonnegative,
    lemma_nonempty_dimensions,
    lemma_positive_extent, partial_address,
};
use crate::layout::FactorSide;
use crate::matricize::{
    axes_suffice, col_shape, extents_agree, labelled_to, lemma_stacked_extents_fit, row_shape,
    stack_blocks, stack_structure, stackable,
};
use crate::canonical::pair_labels;
use crate::keys::{first_refusal, validate_generic_factor_keys};
use crate::pair::{
    factor_reads_fit, pair_reads_fit, paired_count, sectors_placed, whole_sector_reads_fit,
    SectorFactor,
};
use crate::placement::{
    block_placed, blocks_placed, placed_reads_fit, sector_blocks, sector_placed, PlacementIndex,
    SectorBlockGroups,
};
use crate::scaling::has_scaled_leg;
use crate::sector::{FusionTreePairKey, SectorId};
use crate::spectrum::{diagonal_is_covered, is_bond_block, last_entry, SectorSpectrum};
use crate::structure::{
    block_admitted, lemma_address_within_reach, lemma_reach_monotone, reach, Block, BlockKey,
    BlockStructure,
};
use crate::truncate::{labels_found, lemma_first_block, slice_fits, slices_fit};

verus! {

/// Whether two stacked blocks of one sector have the same extent where they
/// share a tree.
fn blocks_agree(a: &Block, b: &Block, nout: usize) -> (agree: bool)
    requires
        nout <= a.shape@.len(),
        nout <= b.shape@.len(),
        extent_fits(row_shape(*a, nout as int)),
        extent_fits(col_shape(*a, nout as int)),
        extent_fits(row_shape(*b, nout as int)),
        extent_fits(col_shape(*b, nout as int)),
    ensures
        agree == extents_agree(*a, *b, nout as int),
{
    let (x, y) = match (&a.key, &b.key) {
        (BlockKey::FusionTree(x), BlockKey::FusionTree(y)) => (x, y),
        _ => {
            return true;
        },
    };
    if x.codomain_tree().coupled() != y.codomain_tree().coupled() {
        return true;
    }
    let rows = vstd::slice::slice_subrange(a.shape.as_slice(), 0, nout);
    let cols = vstd::slice::slice_subrange(a.shape.as_slice(), nout, a.shape.len());
    let other_rows = vstd::slice::slice_subrange(b.shape.as_slice(), 0, nout);
    let other_cols = vstd::slice::slice_subrange(b.shape.as_slice(), nout, b.shape.len());
    proof {
        assert(rows@ =~= row_shape(*a, nout as int));
        assert(cols@ =~= col_shape(*a, nout as int));
        assert(other_rows@ =~= row_shape(*b, nout as int));
        assert(other_cols@ =~= col_shape(*b, nout as int));
    }
    if x.codomain_tree().same(y.codomain_tree()) && checked_extent(rows) != checked_extent(
        other_rows,
    ) {
        return false;
    }
    !x.domain_tree().same(y.domain_tree()) || checked_extent(cols) == checked_extent(other_cols)
}

/// Whether the blocks of a layout can be stacked into sector matrices.
pub fn blocks_are_stackable(structure: &BlockStructure, nout: usize) -> (fits: bool)
    ensures
        fits == stackable(structure.spec_blocks(), nout as int),
{
    let ghost blocks = structure.spec_blocks();
    let count: usize = structure.block_count();
    let mut k: usize = 0;
    while k < count
        invariant_except_break
            k <= count == blocks.len(),
            blocks == structure.spec_blocks(),
            forall|j: int| 0 <= j < k ==> (#[trigger] blocks[j]).key@ is FusionTree,
            forall|j: int| 0 <= j < k ==> nout <= (#[trigger] blocks[j]).shape@.len(),
        ensures
            axes_suffice(blocks, nout as int),
        decreases count - k,
    {
        let block = structure.block(k);
        match &block.key {
            BlockKey::Plain => {
                assert(!(blocks[k as int].key@ is FusionTree));
                break;
            },
            BlockKey::FusionTree(_) => {},
        }
        if block.shape.len() < nout {
            assert(labelled_to(blocks, k as int));
            assert(nout > blocks[k as int].shape@.len());
            return false;
        }
        k += 1;
    }
    if stack_structure::<usize>(structure, nout).is_err() {
        return true;
    }
    proof {
        assert forall|i: int| 0 <= i < count implies {
            &&& nout <= (#[trigger] blocks[i]).shape@.len()
            &&& extent_fits(row_shape(blocks[i], nout as int))
            &&& extent_fits(col_shape(blocks[i], nout as int))
        } by {
            assert forall|j: int| 0 <= j <= i implies (#[trigger] blocks[j]).key@
                is FusionTree by {
                lemma_stacked_extents_fit(blocks, nout as int, count as int, j);
            }
            assert(labelled_to(blocks, i));
            lemma_stacked_extents_fit(blocks, nout as int, count as int, i);
        }
    }
    let mut j: usize = 0;
    while j < count
        invariant
            j <= count == blocks.len(),
            blocks == structure.spec_blocks(),
            axes_suffice(blocks, nout as int),
            stack_blocks(blocks, nout as int, count as int) is Ok,
            forall|i: int|
                0 <= i < count ==> {
                    &&& nout <= (#[trigger] blocks[i]).shape@.len()
                    &&& extent_fits(row_shape(blocks[i], nout as int))
                    &&& extent_fits(col_shape(blocks[i], nout as int))
                },
            forall|i: int, k: int|
                0 <= i < j && 0 <= k < count ==> #[trigger] extents_agree(
                    blocks[i],
                    blocks[k],
                    nout as int,
                ),
        decreases count - j,
    {
        let mut k: usize = 0;
        while k < count
            invariant
                j < count,
                k <= count == blocks.len(),
                blocks == structure.spec_blocks(),
                stack_blocks(blocks, nout as int, count as int) is Ok,
                forall|i: int|
                    0 <= i < count ==> {
                        &&& nout <= (#[trigger] blocks[i]).shape@.len()
                        &&& extent_fits(row_shape(blocks[i], nout as int))
                        &&& extent_fits(col_shape(blocks[i], nout as int))
                    },
                forall|i: int|
                    0 <= i < k ==> #[trigger] extents_agree(
                        blocks[j as int],
                        blocks[i],
                        nout as int,
                    ),
            decreases count - k,
        {
            assert(nout <= blocks[j as int].shape@.len());
            assert(nout <= blocks[k as int].shape@.len());
            if !blocks_agree(structure.block(j), structure.block(k), nout) {
                assert(!extents_agree(blocks[j as int], blocks[k as int], nout as int));
                return false;
            }
            k += 1;
        }
        j += 1;
    }
    true
}

/// Whether the source has the trees of all blocks of a sector, or `None` where
/// one of them is read outside the factor before a tree is found missing.
fn walk_sector<M: SectorGeometry>(
    structure: &BlockStructure,
    groups: &SectorBlockGroups,
    index: &PlacementIndex<'_, M>,
    sector: SectorId,
    side: FactorSide,
    leading: usize,
    len: usize,
) -> (placed: Option<bool>)
    requires
        index.wf(),
        groups.wf(),
        groups.source() == structure.spec_blocks(),
        groups.side() == side,
    ensures
        placed is Some <==> whole_sector_reads_fit(
            structure.spec_blocks(),
            index.geometries(),
            sector,
            side,
            leading as int,
            len as int,
        ),
        placed is Some ==> placed->0 == sector_placed(
            structure.spec_blocks(),
            index.geometries(),
            sector,
            side,
        ),
{
    let ghost blocks = structure.spec_blocks();
    let ghost all = index.geometries();
    let total: usize = structure.block_count();
    let indices = groups.blocks(sector);
    proof {
        crate::placement::lemma_sector_blocks(blocks, side, sector, blocks.len() as int);
    }
    let mut k: usize = 0;
    while k < indices.len()
        invariant
            k <= indices@.len(),
            index.wf(),
            all == index.geometries(),
            total == blocks.len(),
            blocks == structure.spec_blocks(),
            indices@ == sector_blocks(blocks, side, sector, blocks.len() as int),
            forall|j: int| 0 <= j < indices@.len() ==> (#[trigger] indices@[j]) < blocks.len(),
            blocks_placed(blocks, indices@, all, sector, side, k as int),
            forall|j: int|
                0 <= j < k ==> placed_reads_fit(
                    blocks[#[trigger] indices@[j] as int],
                    all,
                    sector,
                    side,
                    leading as int,
                    len as int,
                ),
        decreases indices.len() - k,
    {
        assert(indices@[k as int] < blocks.len());
        let block = structure.block(indices[k]);
        if let BlockKey::FusionTree(key) = &block.key {
            let tree = match side {
                FactorSide::Left => key.codomain_tree(),
                FactorSide::Right => key.domain_tree(),
            };
            match index.placement(sector, side, tree) {
                Ok((offset, _)) => {
                    if !block_reads_inside(block, side, leading, offset, len) {
                        assert(!placed_reads_fit(
                            blocks[indices@[k as int] as int],
                            all,
                            sector,
                            side,
                            leading as int,
                            len as int,
                        ));
                        return None;
                    }
                },
                Err(_) => {
                    assert(!block_placed(blocks[indices@[k as int] as int], all, sector, side));
                    assert(placed_reads_fit(
                        blocks[indices@[k as int] as int],
                        all,
                        sector,
                        side,
                        leading as int,
                        len as int,
                    ));
                    return Some(false);
                },
            }
        }
        k += 1;
    }
    Some(true)
}

/// Whether every sector has one matrix, and the factors that are paired with the
/// matrices are read inside their buffers, up to the first refusal.
pub fn pair_reads_are_inside<D, M: SectorGeometry>(
    left_structure: &BlockStructure,
    right_structure: &BlockStructure,
    matricizations: &[M],
    pairs: &[FactorPair<D>],
) -> (inside: bool)
    ensures
        inside == (sectors_distinct(geometries(matricizations@)) && pair_reads_fit(
            left_structure.spec_blocks(),
            right_structure.spec_blocks(),
            geometries(matricizations@),
            pairs@,
        )),
{
    if !distinct_sectors(matricizations) {
        return false;
    }
    let ghost left_blocks = left_structure.spec_blocks();
    let ghost right_blocks = right_structure.spec_blocks();
    let ghost all = geometries(matricizations@);
    let index = PlacementIndex::new(matricizations);
    let left_groups = SectorBlockGroups::new(left_structure, FactorSide::Left);
    let right_groups = SectorBlockGroups::new(right_structure, FactorSide::Right);
    let count: usize = if matricizations.len() < pairs.len() {
        matricizations.len()
    } else {
        pairs.len()
    };
    let mut k: usize = 0;
    while k < count
        invariant
            k <= count == paired_count(matricizations@.len() as int, pairs@.len() as int),
            count <= matricizations@.len(),
            count <= pairs@.len(),
            left_blocks == left_structure.spec_blocks(),
            right_blocks == right_structure.spec_blocks(),
            all == geometries(matricizations@),
            sectors_distinct(all),
            index.wf(),
            index.geometries() == all,
            left_groups.wf(),
            left_groups.source() == left_blocks,
            left_groups.side() == FactorSide::Left,
            right_groups.wf(),
            right_groups.source() == right_blocks,
            right_groups.side() == FactorSide::Right,
            sectors_placed(left_blocks, all, FactorSide::Left, k as int),
            sectors_placed(right_blocks, all, FactorSide::Right, k as int),
            forall|j: int|
                0 <= j < k ==> {
                    &&& whole_sector_reads_fit(
                        left_blocks,
                        all,
                        (#[trigger] all[j]).sector,
                        FactorSide::Left,
                        pairs@[j].left_rows as int,
                        pairs@[j].left@.len() as int,
                    )
                    &&& whole_sector_reads_fit(
                        right_blocks,
                        all,
                        all[j].sector,
                        FactorSide::Right,
                        pairs@[j].right_leading as int,
                        pairs@[j].right@.len() as int,
                    )
                },
        decreases count - k,
    {
        let sector = matricizations[k].sector();
        let pair = &pairs[k];
        assert(all[k as int].sector == sector);
        let left = walk_sector(
            left_structure,
            &left_groups,
            &index,
            sector,
            FactorSide::Left,
            pair.left_rows,
            pair.left.len(),
        );
        match left {
            None => {
                return false;
            },
            Some(false) => {
                return true;
            },
            Some(true) => {},
        }
        let right = walk_sector(
            right_structure,
            &right_groups,
            &index,
            sector,
            FactorSide::Right,
            pair.right_leading,
            pair.right.len(),
        );
        match right {
            None => {
                return false;
            },
            Some(false) => {
                return true;
            },
            Some(true) => {},
        }
        k += 1;
    }
    true
}

/// Whether both factors of all pairs can be published: a key of an output is
/// refused, or the pairs are read inside their factors, as they also are where
/// the outputs have the layout of the factors.
pub fn pair_publication_is_inside<D, M: SectorGeometry>(
    left_structure: &BlockStructure,
    left_keys: &[FusionTreePairKey],
    right_structure: &BlockStructure,
    right_keys: &[FusionTreePairKey],
    matricizations: &[M],
    pairs: &[FactorPair<D>],
) -> (inside: bool)
    ensures
        inside == {
            &&& sectors_distinct(geometries(matricizations@))
            &&& {
                ||| first_refusal(
                    geometries(matricizations@),
                    FactorSide::Left,
                    pair_labels(left_keys@),
                    0,
                ) is Some
                ||| first_refusal(
                    geometries(matricizations@),
                    FactorSide::Right,
                    pair_labels(right_keys@),
                    0,
                ) is Some
                ||| pair_reads_fit(
                    left_structure.spec_blocks(),
                    right_structure.spec_blocks(),
                    geometries(matricizations@),
                    pairs@,
                )
            }
        },
{
    distinct_sectors(matricizations) && (validate_generic_factor_keys(
        left_keys,
        FactorSide::Left,
        matricizations,
        None,
    ).is_err() || validate_generic_factor_keys(
        right_keys,
        FactorSide::Right,
        matricizations,
        None,
    ).is_err() || pair_reads_are_inside(left_structure, right_structure, matricizations, pairs))
}

/// Whether every sector has one matrix, and each factor of one side is read
/// inside its buffer, up to the first refusal.
pub fn factor_reads_are_inside<D, M: SectorGeometry>(
    structure: &BlockStructure,
    matricizations: &[M],
    factors: &[SectorFactor<D>],
    side: FactorSide,
) -> (inside: bool)
    ensures
        inside == (sectors_distinct(geometries(matricizations@)) && factor_reads_fit(
            structure.spec_blocks(),
            geometries(matricizations@),
            factors@,
            side,
        )),
{
    if !distinct_sectors(matricizations) || factors.len() > matricizations.len() {
        return false;
    }
    let ghost blocks = structure.spec_blocks();
    let ghost all = geometries(matricizations@);
    let index = PlacementIndex::new(matricizations);
    let groups = SectorBlockGroups::new(structure, side);
    let mut k: usize = 0;
    while k < factors.len()
        invariant
            k <= factors@.len() <= matricizations@.len(),
            blocks == structure.spec_blocks(),
            all == geometries(matricizations@),
            sectors_distinct(all),
            index.wf(),
            index.geometries() == all,
            groups.wf(),
            groups.source() == blocks,
            groups.side() == side,
            sectors_placed(blocks, all, side, k as int),
            forall|j: int|
                0 <= j < k ==> whole_sector_reads_fit(
                    blocks,
                    all,
                    all[j].sector,
                    side,
                    (#[trigger] factors@[j]).leading as int,
                    factors@[j].data@.len() as int,
                ),
        decreases factors.len() - k,
    {
        let sector = matricizations[k].sector();
        let factor = &factors[k];
        assert(all[k as int].sector == sector);
        assert(factors@[k as int] == *factor);
        match walk_sector(
            structure,
            &groups,
            &index,
            sector,
            side,
            factor.leading,
            factor.data.len(),
        ) {
            None => {
                return false;
            },
            Some(false) => {
                return true;
            },
            Some(true) => {},
        }
        k += 1;
    }
    true
}

fn last_entry_of<V>(spectrum: &[SectorSpectrum<V>], sector: SectorId) -> (entry: Option<usize>)
    ensures
        match (entry, last_entry(spectrum@, sector, spectrum@.len() as int)) {
            (Some(at), Some(expected)) => at == expected && at < spectrum@.len(),
            (None, None) => true,
            _ => false,
        },
{
    let mut k: usize = spectrum.len();
    while k > 0
        invariant
            k <= spectrum@.len(),
            last_entry(spectrum@, sector, spectrum@.len() as int) == last_entry(
                spectrum@,
                sector,
                k as int,
            ),
        decreases k,
    {
        if spectrum[k - 1].sector == sector {
            return Some(k - 1);
        }
        k -= 1;
    }
    None
}

/// Whether every block of a sector with a spectrum is a matrix on the bond.
pub fn are_bond_blocks<V>(structure: &BlockStructure, spectrum: &[SectorSpectrum<V>]) -> (fits:
    bool)
    requires
        structure.wf(),
    ensures
        fits == forall|k: int|
            0 <= k < structure.spec_blocks().len() ==> is_bond_block(
                #[trigger] structure.spec_blocks()[k],
                spectrum@,
            ),
{
    let count: usize = structure.block_count();
    let mut k: usize = 0;
    while k < count
        invariant
            structure.wf(),
            k <= count == structure.spec_blocks().len(),
            forall|j: int|
                0 <= j < k ==> is_bond_block(#[trigger] structure.spec_blocks()[j], spectrum@),
        decreases count - k,
    {
        let block = structure.block(k);
        let mut fits = true;
        if let BlockKey::FusionTree(key) = &block.key {
            match last_entry_of(spectrum, key.codomain_tree().coupled()) {
                Some(_) => {
                    assert(block_admitted(
                        structure.spec_blocks()[k as int],
                        structure.spec_len() as int,
                    ));
                    fits = block.shape.len() == 2 && block.strides.len() == 2
                        && block.strides[0].checked_add(block.strides[1]).is_some();
                },
                None => {},
            }
        }
        if !fits {
            assert(!is_bond_block(structure.spec_blocks()[k as int], spectrum@));
            return false;
        }
        k += 1;
    }
    true
}

/// Whether the spectra cover the diagonals of their blocks.
pub fn diagonals_are_covered<V>(structure: &BlockStructure, spectrum: &[SectorSpectrum<V>]) -> (
fits: bool)
    requires
        structure.wf(),
    ensures
        fits == forall|k: int|
            0 <= k < structure.spec_blocks().len() ==> is_bond_block(
                #[trigger] structure.spec_blocks()[k],
                spectrum@,
            ) && diagonal_is_covered(structure.spec_blocks()[k], spectrum@),
{
    if !are_bond_blocks(structure, spectrum) {
        return false;
    }
    let count: usize = structure.block_count();
    let mut k: usize = 0;
    while k < count
        invariant
            k <= count == structure.spec_blocks().len(),
            forall|j: int|
                0 <= j < count ==> is_bond_block(#[trigger] structure.spec_blocks()[j], spectrum@),
            forall|j: int|
                0 <= j < k ==> diagonal_is_covered(
                    #[trigger] structure.spec_blocks()[j],
                    spectrum@,
                ),
        decreases count - k,
    {
        let block = structure.block(k);
        assert(is_bond_block(structure.spec_blocks()[k as int], spectrum@));
        let mut fits = true;
        if let BlockKey::FusionTree(key) = &block.key {
            match last_entry_of(spectrum, key.codomain_tree().coupled()) {
                Some(at) => {
                    let len: usize = spectrum[at].values.len();
                    fits = block.shape[0] <= len || block.shape[1] <= len;
                },
                None => {},
            }
        }
        if !fits {
            assert(!diagonal_is_covered(structure.spec_blocks()[k as int], spectrum@));
            return false;
        }
        k += 1;
    }
    true
}

/// The last element of a block lies at its reach.
proof fn lemma_reach_is_attained(shape: Seq<usize>, strides: Seq<usize>, axes: int)
    requires
        0 <= axes <= shape.len(),
        shape.len() == strides.len(),
        extent(shape) > 0,
    ensures
        partial_address(shape, strides, extent(shape) - 1, axes) == reach(shape, strides, axes),
    decreases axes,
{
    if axes > 0 {
        lemma_reach_is_attained(shape, strides, axes - 1);
        lemma_last_coordinate(shape, axes - 1);
    }
}

/// Whether a block of this shape lies inside a buffer.
pub fn block_is_inside(shape: &[usize], strides: &[usize], offset: usize, len: usize) -> (inside:
    bool)
    ensures
        inside == block_fits(shape@, strides@, offset as int, len as int),
{
    let rank: usize = shape.len();
    if rank != strides.len() {
        return false;
    }
    let mut axis: usize = 0;
    while axis < rank
        invariant
            axis <= rank == shape@.len(),
            rank == strides@.len(),
            forall|k: int| 0 <= k < axis ==> shape@[k] > 0,
        decreases rank - axis,
    {
        if shape[axis] == 0 {
            proof {
                lemma_leading_extent_nonnegative(shape@, rank as int);
                if extent(shape@) > 0 {
                    lemma_nonempty_dimensions(shape@, rank as int);
                }
            }
            return true;
        }
        axis += 1;
    }
    let mut last: usize = offset;
    proof {
        lemma_positive_extent(shape@, rank as int);
        lemma_reach_is_attained(shape@, strides@, rank as int);
        let n = extent(shape@) - 1;
        assert(block_fits(shape@, strides@, offset as int, len as int) <==> offset + reach(
            shape@,
            strides@,
            rank as int,
        ) < len) by {
            assert(address(shape@, strides@, n) == reach(shape@, strides@, rank as int));
            if offset + reach(shape@, strides@, rank as int) < len {
                assert forall|m: int| 0 <= m < extent(shape@) implies offset + (
                #[trigger] address(shape@, strides@, m)) < len by {
                    lemma_address_within_reach(shape@, strides@, m, rank as int);
                }
            }
        }
    }
    axis = 0;
    while axis < rank
        invariant
            axis <= rank == shape@.len(),
            rank == strides@.len(),
            forall|k: int| 0 <= k < rank ==> shape@[k] > 0,
            last == offset + reach(shape@, strides@, axis as int),
            block_fits(shape@, strides@, offset as int, len as int) <==> offset + reach(
                shape@,
                strides@,
                rank as int,
            ) < len,
        decreases rank - axis,
    {
        let steps: usize = shape[axis] - 1;
        proof {
            lemma_reach_monotone(shape@, strides@, axis + 1, rank as int);
        }
        match steps.checked_mul(strides[axis]) {
            None => {
                return false;
            },
            Some(distance) => match last.checked_add(distance) {
                None => {
                    return false;
                },
                Some(next) => {
                    last = next;
                },
            },
        }
        axis += 1;
    }
    last < len
}

/// Whether every sliced block lies inside the block that it is taken from.
pub fn slices_are_inside(full: &BlockStructure, sliced: &BlockStructure, len: usize) -> (inside:
    bool)
    ensures
        inside == slices_fit(full.spec_blocks(), sliced.spec_blocks(), len as int),
{
    let count: usize = sliced.block_count();
    let mut k: usize = 0;
    while k < count
        invariant
            k <= count == sliced.spec_blocks().len(),
            labels_found(full.spec_blocks(), sliced.spec_blocks(), k as int),
            forall|j: int|
                0 <= j < k ==> slice_fits(
                    full.spec_blocks(),
                    #[trigger] sliced.spec_blocks()[j],
                    len as int,
                ),
        decreases count - k,
    {
        let block = sliced.block(k);
        match full.find_block_index_by_key(&block.key) {
            Some(index) => {
                let total: usize = full.block_count();
                proof {
                    assert(total == full.spec_blocks().len());
                    lemma_first_block(full.spec_blocks(), block.key@, 0);
                }
                let source = full.block(index);
                if !block_is_inside(
                    block.shape.as_slice(),
                    source.strides.as_slice(),
                    source.offset,
                    len,
                ) {
                    assert(!slice_fits(
                        full.spec_blocks(),
                        sliced.spec_blocks()[k as int],
                        len as int,
                    ));
                    return false;
                }
            },
            None => {
                assert(slice_fits(
                    full.spec_blocks(),
                    sliced.spec_blocks()[k as int],
                    len as int,
                ));
                return true;
            },
        }
        k += 1;
    }
    true
}

/// Whether every block has the scaled leg, with a sector of its trees on it.
pub fn scaled_legs_exist(structure: &BlockStructure, nout: usize, axis: Option<usize>) -> (fits:
    bool)
    ensures
        fits == forall|k: int|
            0 <= k < structure.spec_blocks().len() ==> has_scaled_leg(
                #[trigger] structure.spec_blocks()[k],
                nout as int,
                axis,
            ),
{
    let count: usize = structure.block_count();
    let mut k: usize = 0;
    while k < count
        invariant
            k <= count == structure.spec_blocks().len(),
            forall|j: int|
                0 <= j < k ==> has_scaled_leg(
                    #[trigger] structure.spec_blocks()[j],
                    nout as int,
                    axis,
                ),
        decreases count - k,
    {
        let block = structure.block(k);
        let rank: usize = block.shape.len();
        let mut fits = true;
        if let BlockKey::FusionTree(key) = &block.key {
            if rank > 0 {
                let at: usize = match axis {
                    Some(axis) => axis,
                    None => rank - 1,
                };
                fits = at < rank && if at < nout {
                    at < key.codomain_tree().uncoupled().len()
                } else {
                    at - nout < key.domain_tree().uncoupled().len()
                };
            }
        }
        if !fits {
            assert(!has_scaled_leg(structure.spec_blocks()[k as int], nout as int, axis));
            return false;
        }
        k += 1;
    }
    true
}

} // verus!
