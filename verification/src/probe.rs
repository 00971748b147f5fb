//! Counters for the work of a factorization: what it packs, copies, scatters and
//! looks up. Nothing in this library counts on its own; a caller that measures
//! its work keeps the counters and records each step in them.

use vstd::layout::size_of;
use vstd::prelude::*;

use crate::factor::{concat_owned_factor_regions, concatenated, first_fits};
use crate::geometry::SectorMatricization;
use crate::layout::FactorSide;
use crate::spectrum::SectorSpectrum;

verus! {

/// A number of bytes is not negative.
proof fn lemma_bytes(elements: int, size: int)
    requires
        elements >= 0,
        size >= 0,
    ensures
        elements * size >= 0,
{
    assert(elements * size >= 0) by (nonlinear_arith)
        requires
            elements >= 0,
            size >= 0,
    ;
}

/// Copies of compact SVDs.
#[derive(Clone, Copy, Debug, PartialEq, Eq, Structural)]
pub struct CompactSvdCopyProbe {
    pub input_pack_calls: usize,
    pub input_pack_bytes: usize,
    pub output_scatter_calls: usize,
    pub output_scatter_bytes: usize,
    pub owned_output_publications: usize,
    pub owned_output_owner_reused: usize,
}

impl CompactSvdCopyProbe {
    /// All counters at zero.
    pub open spec fn zero() -> CompactSvdCopyProbe {
        CompactSvdCopyProbe {
            input_pack_calls: 0,
            input_pack_bytes: 0,
            output_scatter_calls: 0,
            output_scatter_bytes: 0,
            owned_output_publications: 0,
            owned_output_owner_reused: 0,
        }
    }
}

/// Sets all counters to zero.
pub fn reset_compact_svd_copy_probe(probe: &mut CompactSvdCopyProbe)
    ensures
        *final(probe) == CompactSvdCopyProbe::zero(),
{
    *probe = CompactSvdCopyProbe {
        input_pack_calls: 0,
        input_pack_bytes: 0,
        output_scatter_calls: 0,
        output_scatter_bytes: 0,
        owned_output_publications: 0,
        owned_output_owner_reused: 0,
    };
}

/// The counters as they stand.
pub fn compact_svd_copy_probe(probe: &CompactSvdCopyProbe) -> (counts: CompactSvdCopyProbe)
    ensures
        counts == *probe,
{
    *probe
}

/// Copies of compact QRs.
#[derive(Clone, Copy, Debug, PartialEq, Eq, Structural)]
pub struct CompactQrCopyProbe {
    pub input_pack_calls: usize,
    pub input_pack_bytes: usize,
    pub output_scatter_calls: usize,
    pub output_scatter_bytes: usize,
    pub owned_output_publications: usize,
    pub owned_output_owner_reused: usize,
}

impl CompactQrCopyProbe {
    /// All counters at zero.
    pub open spec fn zero() -> CompactQrCopyProbe {
        CompactQrCopyProbe {
            input_pack_calls: 0,
            input_pack_bytes: 0,
            output_scatter_calls: 0,
            output_scatter_bytes: 0,
            owned_output_publications: 0,
            owned_output_owner_reused: 0,
        }
    }
}

/// Sets all counters to zero.
pub fn reset_compact_qr_copy_probe(probe: &mut CompactQrCopyProbe)
    ensures
        *final(probe) == CompactQrCopyProbe::zero(),
{
    *probe = CompactQrCopyProbe {
        input_pack_calls: 0,
        input_pack_bytes: 0,
        output_scatter_calls: 0,
        output_scatter_bytes: 0,
        owned_output_publications: 0,
        owned_output_owner_reused: 0,
    };
}

/// The counters as they stand.
pub fn compact_qr_copy_probe(probe: &CompactQrCopyProbe) -> (counts: CompactQrCopyProbe)
    ensures
        counts == *probe,
{
    *probe
}

/// Copies of compact LQs.
#[derive(Clone, Copy, Debug, PartialEq, Eq, Structural)]
pub struct CompactLqCopyProbe {
    pub input_pack_calls: usize,
    pub input_pack_bytes: usize,
    pub output_scatter_calls: usize,
    pub output_scatter_bytes: usize,
    pub scratch_buffer_count: usize,
    pub scratch_capacity_bytes: usize,
    pub adjoint_scratch_fill_calls: usize,
    pub adjoint_scratch_fill_bytes: usize,
    pub final_adjoint_copy_calls: usize,
    pub final_adjoint_copy_bytes: usize,
}

impl CompactLqCopyProbe {
    /// All counters at zero.
    pub open spec fn zero() -> CompactLqCopyProbe {
        CompactLqCopyProbe {
            input_pack_calls: 0,
            input_pack_bytes: 0,
            output_scatter_calls: 0,
            output_scatter_bytes: 0,
            scratch_buffer_count: 0,
            scratch_capacity_bytes: 0,
            adjoint_scratch_fill_calls: 0,
            adjoint_scratch_fill_bytes: 0,
            final_adjoint_copy_calls: 0,
            final_adjoint_copy_bytes: 0,
        }
    }
}

/// Sets all counters to zero.
pub fn reset_compact_lq_copy_probe(probe: &mut CompactLqCopyProbe)
    ensures
        *final(probe) == CompactLqCopyProbe::zero(),
{
    *probe = CompactLqCopyProbe {
        input_pack_calls: 0,
        input_pack_bytes: 0,
        output_scatter_calls: 0,
        output_scatter_bytes: 0,
        scratch_buffer_count: 0,
        scratch_capacity_bytes: 0,
        adjoint_scratch_fill_calls: 0,
        adjoint_scratch_fill_bytes: 0,
        final_adjoint_copy_calls: 0,
        final_adjoint_copy_bytes: 0,
    };
}

/// The counters as they stand.
pub fn compact_lq_copy_probe(probe: &CompactLqCopyProbe) -> (counts: CompactLqCopyProbe)
    ensures
        counts == *probe,
{
    *probe
}

/// Copies of Hermitian eigendecompositions.
#[derive(Clone, Copy, Debug, PartialEq, Eq, Structural)]
pub struct EighCopyProbe {
    pub input_pack_calls: usize,
    pub input_pack_bytes: usize,
    pub output_scatter_calls: usize,
    pub output_scatter_bytes: usize,
}

impl EighCopyProbe {
    /// All counters at zero.
    pub open spec fn zero() -> EighCopyProbe {
        EighCopyProbe {
            input_pack_calls: 0,
            input_pack_bytes: 0,
            output_scatter_calls: 0,
            output_scatter_bytes: 0,
        }
    }
}

/// Sets all counters to zero.
pub fn reset_eigh_copy_probe(probe: &mut EighCopyProbe)
    ensures
        *final(probe) == EighCopyProbe::zero(),
{
    *probe = EighCopyProbe {
        input_pack_calls: 0,
        input_pack_bytes: 0,
        output_scatter_calls: 0,
        output_scatter_bytes: 0,
    };
}

/// The counters as they stand.
pub fn eigh_copy_probe(probe: &EighCopyProbe) -> (counts: EighCopyProbe)
    ensures
        counts == *probe,
{
    *probe
}

/// Diagonal bond tensors that were built.
#[derive(Clone, Copy, Debug, PartialEq, Eq, Structural)]
pub struct DiagonalBondBuildProbe {
    pub calls: usize,
    pub values: usize,
}

impl DiagonalBondBuildProbe {
    /// All counters at zero.
    pub open spec fn zero() -> DiagonalBondBuildProbe {
        DiagonalBondBuildProbe {
            calls: 0,
            values: 0,
        }
    }
}

/// Sets all counters to zero.
pub fn reset_diagonal_bond_build_probe(probe: &mut DiagonalBondBuildProbe)
    ensures
        *final(probe) == DiagonalBondBuildProbe::zero(),
{
    *probe = DiagonalBondBuildProbe {
        calls: 0,
        values: 0,
    };
}

/// The counters as they stand.
pub fn diagonal_bond_build_probe(probe: &DiagonalBondBuildProbe) -> (counts: DiagonalBondBuildProbe)
    ensures
        counts == *probe,
{
    *probe
}

/// Work of publishing both factors at once.
#[derive(Clone, Copy, Debug, PartialEq, Eq, Structural)]
pub struct GenericPairPublicationProbe {
    pub ordered_key_validation_events: usize,
    pub fallback_row_lookups: usize,
    pub fallback_col_lookups: usize,
    pub output_blocks_visited: usize,
    pub left_owner_reused: usize,
    pub right_owner_reused: usize,
    pub left_appended_elements: usize,
    pub right_appended_elements: usize,
    pub left_scattered_elements: usize,
    pub right_scattered_elements: usize,
    pub left_scatter_calls: usize,
    pub right_scatter_calls: usize,
    pub canonical_publications: usize,
    pub fallback_publications: usize,
}

impl GenericPairPublicationProbe {
    /// All counters at zero.
    pub open spec fn zero() -> GenericPairPublicationProbe {
        GenericPairPublicationProbe {
            ordered_key_validation_events: 0,
            fallback_row_lookups: 0,
            fallback_col_lookups: 0,
            output_blocks_visited: 0,
            left_owner_reused: 0,
            right_owner_reused: 0,
            left_appended_elements: 0,
            right_appended_elements: 0,
            left_scattered_elements: 0,
            right_scattered_elements: 0,
            left_scatter_calls: 0,
            right_scatter_calls: 0,
            canonical_publications: 0,
            fallback_publications: 0,
        }
    }
}

/// Sets all counters to zero.
pub fn reset_generic_pair_publication_probe(probe: &mut GenericPairPublicationProbe)
    ensures
        *final(probe) == GenericPairPublicationProbe::zero(),
{
    *probe = GenericPairPublicationProbe {
        ordered_key_validation_events: 0,
        fallback_row_lookups: 0,
        fallback_col_lookups: 0,
        output_blocks_visited: 0,
        left_owner_reused: 0,
        right_owner_reused: 0,
        left_appended_elements: 0,
        right_appended_elements: 0,
        left_scattered_elements: 0,
        right_scattered_elements: 0,
        left_scatter_calls: 0,
        right_scatter_calls: 0,
        canonical_publications: 0,
        fallback_publications: 0,
    };
}

/// The counters as they stand.
pub fn generic_pair_publication_probe(
    probe: &GenericPairPublicationProbe,
) -> (counts: GenericPairPublicationProbe)
    ensures
        counts == *probe,
{
    *probe
}

/// Work of publishing one factor.
#[derive(Clone, Copy, Debug, PartialEq, Eq, Structural)]
pub struct OneSidedPublicationProbe {
    pub canonical_publications: usize,
    pub fallback_publications: usize,
    pub owner_reused: usize,
    pub appended_elements: usize,
}

impl OneSidedPublicationProbe {
    /// All counters at zero.
    pub open spec fn zero() -> OneSidedPublicationProbe {
        OneSidedPublicationProbe {
            canonical_publications: 0,
            fallback_publications: 0,
            owner_reused: 0,
            appended_elements: 0,
        }
    }
}

/// Sets all counters to zero.
pub fn reset_one_sided_publication_probe(probe: &mut OneSidedPublicationProbe)
    ensures
        *final(probe) == OneSidedPublicationProbe::zero(),
{
    *probe = OneSidedPublicationProbe {
        canonical_publications: 0,
        fallback_publications: 0,
        owner_reused: 0,
        appended_elements: 0,
    };
}

/// The counters as they stand.
pub fn one_sided_publication_probe(
    probe: &OneSidedPublicationProbe,
) -> (counts: OneSidedPublicationProbe)
    ensures
        counts == *probe,
{
    *probe
}

/// Placement indices that were built and used.
#[derive(Clone, Copy, Debug, PartialEq, Eq, Structural)]
pub struct PlacementIndexProbe {
    pub index_builds: usize,
    pub indexed_sides: usize,
    pub indexed_trees: usize,
    pub lookups: usize,
}

impl PlacementIndexProbe {
    /// All counters at zero.
    pub open spec fn zero() -> PlacementIndexProbe {
        PlacementIndexProbe {
            index_builds: 0,
            indexed_sides: 0,
            indexed_trees: 0,
            lookups: 0,
        }
    }
}

/// Sets all counters to zero.
pub fn reset_placement_index_probe(probe: &mut PlacementIndexProbe)
    ensures
        *final(probe) == PlacementIndexProbe::zero(),
{
    *probe = PlacementIndexProbe {
        index_builds: 0,
        indexed_sides: 0,
        indexed_trees: 0,
        lookups: 0,
    };
}

/// The counters as they stand.
pub fn placement_index_probe(probe: &PlacementIndexProbe) -> (counts: PlacementIndexProbe)
    ensures
        counts == *probe,
{
    *probe
}

/// Output blocks that were grouped and visited.
#[derive(Clone, Copy, Debug, PartialEq, Eq, Structural)]
pub struct ScatterVisitProbe {
    pub left_grouped: usize,
    pub right_grouped: usize,
    pub left_groups_built: usize,
    pub right_groups_built: usize,
    pub left_visits: usize,
    pub right_visits: usize,
}

impl ScatterVisitProbe {
    /// All counters at zero.
    pub open spec fn zero() -> ScatterVisitProbe {
        ScatterVisitProbe {
            left_grouped: 0,
            right_grouped: 0,
            left_groups_built: 0,
            right_groups_built: 0,
            left_visits: 0,
            right_visits: 0,
        }
    }
}

/// Sets all counters to zero.
pub fn reset_scatter_visit_probe(probe: &mut ScatterVisitProbe)
    ensures
        *final(probe) == ScatterVisitProbe::zero(),
{
    *probe = ScatterVisitProbe {
        left_grouped: 0,
        right_grouped: 0,
        left_groups_built: 0,
        right_groups_built: 0,
        left_visits: 0,
        right_visits: 0,
    };
}

/// The counters as they stand.
pub fn scatter_visit_probe(probe: &ScatterVisitProbe) -> (counts: ScatterVisitProbe)
    ensures
        counts == *probe,
{
    *probe
}

/// One scatter of an SVD factor.
pub fn record_compact_svd_output_scatter<D>(probe: &mut CompactSvdCopyProbe, elements: usize)
    requires
        old(probe).output_scatter_calls + 1 <= usize::MAX,
        old(probe).output_scatter_bytes + elements * size_of::<D>() <= usize::MAX,
    ensures
        *final(probe) == (CompactSvdCopyProbe {
            output_scatter_calls: (old(probe).output_scatter_calls + 1) as usize,
            output_scatter_bytes: (old(probe).output_scatter_bytes + elements
                * size_of::<D>()) as usize,
            ..*old(probe)
        }),
{
    let size: usize = core::mem::size_of::<D>();
    proof {
        lemma_bytes(elements as int, size as int);
    }
    probe.output_scatter_calls = probe.output_scatter_calls + 1;
    probe.output_scatter_bytes = probe.output_scatter_bytes + elements * size;
}

/// Several scatters of QR factors.
pub fn record_compact_qr_output_scatter_work<D>(
    probe: &mut CompactQrCopyProbe,
    calls: usize,
    elements: usize,
)
    requires
        old(probe).output_scatter_calls + calls <= usize::MAX,
        old(probe).output_scatter_bytes + elements * size_of::<D>() <= usize::MAX,
    ensures
        *final(probe) == (CompactQrCopyProbe {
            output_scatter_calls: (old(probe).output_scatter_calls + calls) as usize,
            output_scatter_bytes: (old(probe).output_scatter_bytes + elements
                * size_of::<D>()) as usize,
            ..*old(probe)
        }),
{
    let size: usize = core::mem::size_of::<D>();
    proof {
        lemma_bytes(elements as int, size as int);
    }
    probe.output_scatter_calls = probe.output_scatter_calls + calls;
    probe.output_scatter_bytes = probe.output_scatter_bytes + elements * size;
}

/// Several scatters of LQ factors.
pub fn record_compact_lq_output_scatter_work<D>(
    probe: &mut CompactLqCopyProbe,
    calls: usize,
    elements: usize,
)
    requires
        old(probe).output_scatter_calls + calls <= usize::MAX,
        old(probe).output_scatter_bytes + elements * size_of::<D>() <= usize::MAX,
    ensures
        *final(probe) == (CompactLqCopyProbe {
            output_scatter_calls: (old(probe).output_scatter_calls + calls) as usize,
            output_scatter_bytes: (old(probe).output_scatter_bytes + elements
                * size_of::<D>()) as usize,
            ..*old(probe)
        }),
{
    let size: usize = core::mem::size_of::<D>();
    proof {
        lemma_bytes(elements as int, size as int);
    }
    probe.output_scatter_calls = probe.output_scatter_calls + calls;
    probe.output_scatter_bytes = probe.output_scatter_bytes + elements * size;
}

/// One scatter of eigenvectors.
pub fn record_eigh_output_scatter<D>(probe: &mut EighCopyProbe, elements: usize)
    requires
        old(probe).output_scatter_calls + 1 <= usize::MAX,
        old(probe).output_scatter_bytes + elements * size_of::<D>() <= usize::MAX,
    ensures
        *final(probe) == (EighCopyProbe {
            output_scatter_calls: (old(probe).output_scatter_calls + 1) as usize,
            output_scatter_bytes: (old(probe).output_scatter_bytes + elements
                * size_of::<D>()) as usize,
            ..*old(probe)
        }),
{
    let size: usize = core::mem::size_of::<D>();
    proof {
        lemma_bytes(elements as int, size as int);
    }
    probe.output_scatter_calls = probe.output_scatter_calls + 1;
    probe.output_scatter_bytes = probe.output_scatter_bytes + elements * size;
}

/// One scratch buffer.
pub fn record_compact_lq_scratch<D>(probe: &mut CompactLqCopyProbe, elements: usize)
    requires
        old(probe).scratch_buffer_count + 1 <= usize::MAX,
        old(probe).scratch_capacity_bytes + elements * size_of::<D>() <= usize::MAX,
    ensures
        *final(probe) == (CompactLqCopyProbe {
            scratch_buffer_count: (old(probe).scratch_buffer_count + 1) as usize,
            scratch_capacity_bytes: (old(probe).scratch_capacity_bytes + elements
                * size_of::<D>()) as usize,
            ..*old(probe)
        }),
{
    let size: usize = core::mem::size_of::<D>();
    proof {
        lemma_bytes(elements as int, size as int);
    }
    probe.scratch_buffer_count = probe.scratch_buffer_count + 1;
    probe.scratch_capacity_bytes = probe.scratch_capacity_bytes + elements * size;
}

/// One fill of the adjoint scratch.
pub fn record_compact_lq_adjoint_fill<D>(probe: &mut CompactLqCopyProbe, elements: usize)
    requires
        old(probe).adjoint_scratch_fill_calls + 1 <= usize::MAX,
        old(probe).adjoint_scratch_fill_bytes + elements * size_of::<D>() <= usize::MAX,
    ensures
        *final(probe) == (CompactLqCopyProbe {
            adjoint_scratch_fill_calls: (old(probe).adjoint_scratch_fill_calls + 1) as usize,
            adjoint_scratch_fill_bytes: (old(probe).adjoint_scratch_fill_bytes + elements
                * size_of::<D>()) as usize,
            ..*old(probe)
        }),
{
    let size: usize = core::mem::size_of::<D>();
    proof {
        lemma_bytes(elements as int, size as int);
    }
    probe.adjoint_scratch_fill_calls = probe.adjoint_scratch_fill_calls + 1;
    probe.adjoint_scratch_fill_bytes = probe.adjoint_scratch_fill_bytes + elements * size;
}

/// One adjoint copy into the output.
pub fn record_compact_lq_final_adjoint_copy<D>(probe: &mut CompactLqCopyProbe, elements: usize)
    requires
        old(probe).final_adjoint_copy_calls + 1 <= usize::MAX,
        old(probe).final_adjoint_copy_bytes + elements * size_of::<D>() <= usize::MAX,
    ensures
        *final(probe) == (CompactLqCopyProbe {
            final_adjoint_copy_calls: (old(probe).final_adjoint_copy_calls + 1) as usize,
            final_adjoint_copy_bytes: (old(probe).final_adjoint_copy_bytes + elements
                * size_of::<D>()) as usize,
            ..*old(probe)
        }),
{
    let size: usize = core::mem::size_of::<D>();
    proof {
        lemma_bytes(elements as int, size as int);
    }
    probe.final_adjoint_copy_calls = probe.final_adjoint_copy_calls + 1;
    probe.final_adjoint_copy_bytes = probe.final_adjoint_copy_bytes + elements * size;
}

/// One scatter of QR factors.
pub fn record_compact_qr_output_scatter<D>(probe: &mut CompactQrCopyProbe, elements: usize)
    requires
        old(probe).output_scatter_calls + 1 <= usize::MAX,
        old(probe).output_scatter_bytes + elements * size_of::<D>() <= usize::MAX,
    ensures
        *final(probe) == (CompactQrCopyProbe {
            output_scatter_calls: (old(probe).output_scatter_calls + 1) as usize,
            output_scatter_bytes: (old(probe).output_scatter_bytes + elements
                * size_of::<D>()) as usize,
            ..*old(probe)
        }),
{
    record_compact_qr_output_scatter_work::<D>(probe, 1, elements);
}

/// One scatter of LQ factors.
pub fn record_compact_lq_output_scatter<D>(probe: &mut CompactLqCopyProbe, elements: usize)
    requires
        old(probe).output_scatter_calls + 1 <= usize::MAX,
        old(probe).output_scatter_bytes + elements * size_of::<D>() <= usize::MAX,
    ensures
        *final(probe) == (CompactLqCopyProbe {
            output_scatter_calls: (old(probe).output_scatter_calls + 1) as usize,
            output_scatter_bytes: (old(probe).output_scatter_bytes + elements
                * size_of::<D>()) as usize,
            ..*old(probe)
        }),
{
    record_compact_lq_output_scatter_work::<D>(probe, 1, elements);
}

/// Bytes of the first `count` packed matrices.
pub open spec fn packed_bytes<D>(matrices: Seq<SectorMatricization<D>>, count: int) -> int
    decreases count,
{
    if count <= 0 {
        0
    } else {
        packed_bytes(matrices, count - 1) + matrices[count - 1].data@.len() * size_of::<D>()
    }
}

proof fn lemma_packed_bytes_grow<D>(matrices: Seq<SectorMatricization<D>>, low: int, high: int)
    requires
        0 <= low <= high <= matrices.len(),
    ensures
        0 <= packed_bytes(matrices, low) <= packed_bytes(matrices, high),
    decreases high,
{
    if high > 0 {
        let a = matrices[high - 1].data@.len() as int;
        let b = size_of::<D>() as int;
        lemma_bytes(a, b);
        if low < high {
            lemma_packed_bytes_grow(matrices, low, high - 1);
        } else {
            lemma_packed_bytes_grow(matrices, low - 1, high - 1);
        }
    }
}

/// Bytes of all packed matrices.
fn count_packed_bytes<D>(matrices: &[SectorMatricization<D>]) -> (bytes: usize)
    requires
        packed_bytes(matrices@, matrices@.len() as int) <= usize::MAX,
    ensures
        bytes == packed_bytes(matrices@, matrices@.len() as int),
{
    let size: usize = core::mem::size_of::<D>();
    let mut bytes: usize = 0;
    let mut k: usize = 0;
    while k < matrices.len()
        invariant
            k <= matrices@.len(),
            size == size_of::<D>(),
            packed_bytes(matrices@, matrices@.len() as int) <= usize::MAX,
            bytes == packed_bytes(matrices@, k as int),
        decreases matrices.len() - k,
    {
        proof {
            lemma_packed_bytes_grow(matrices@, k + 1, matrices@.len() as int);
            lemma_packed_bytes_grow(matrices@, 0, k as int);
        }
        bytes = bytes + matrices[k].data.len() * size;
        k += 1;
    }
    bytes
}

/// The packing of all sector matrices of an input.
pub fn record_compact_svd_input_pack<D>(
    probe: &mut CompactSvdCopyProbe,
    matrices: &[SectorMatricization<D>],
)
    requires
        old(probe).input_pack_calls + matrices@.len() <= usize::MAX,
        old(probe).input_pack_bytes + packed_bytes(matrices@, matrices@.len() as int)
            <= usize::MAX,
    ensures
        *final(probe) == (CompactSvdCopyProbe {
            input_pack_calls: (old(probe).input_pack_calls + matrices@.len()) as usize,
            input_pack_bytes: (old(probe).input_pack_bytes + packed_bytes(
                matrices@,
                matrices@.len() as int,
            )) as usize,
            ..*old(probe)
        }),
{
    let bytes: usize = count_packed_bytes(matrices);
    probe.input_pack_calls = probe.input_pack_calls + matrices.len();
    probe.input_pack_bytes = probe.input_pack_bytes + bytes;
}

/// The packing of all sector matrices of an input.
pub fn record_compact_qr_input_pack<D>(
    probe: &mut CompactQrCopyProbe,
    matrices: &[SectorMatricization<D>],
)
    requires
        old(probe).input_pack_calls + matrices@.len() <= usize::MAX,
        old(probe).input_pack_bytes + packed_bytes(matrices@, matrices@.len() as int)
            <= usize::MAX,
    ensures
        *final(probe) == (CompactQrCopyProbe {
            input_pack_calls: (old(probe).input_pack_calls + matrices@.len()) as usize,
            input_pack_bytes: (old(probe).input_pack_bytes + packed_bytes(
                matrices@,
                matrices@.len() as int,
            )) as usize,
            ..*old(probe)
        }),
{
    let bytes: usize = count_packed_bytes(matrices);
    probe.input_pack_calls = probe.input_pack_calls + matrices.len();
    probe.input_pack_bytes = probe.input_pack_bytes + bytes;
}

/// The packing of all sector matrices of an input.
pub fn record_compact_lq_input_pack<D>(
    probe: &mut CompactLqCopyProbe,
    matrices: &[SectorMatricization<D>],
)
    requires
        old(probe).input_pack_calls + matrices@.len() <= usize::MAX,
        old(probe).input_pack_bytes + packed_bytes(matrices@, matrices@.len() as int)
            <= usize::MAX,
    ensures
        *final(probe) == (CompactLqCopyProbe {
            input_pack_calls: (old(probe).input_pack_calls + matrices@.len()) as usize,
            input_pack_bytes: (old(probe).input_pack_bytes + packed_bytes(
                matrices@,
                matrices@.len() as int,
            )) as usize,
            ..*old(probe)
        }),
{
    let bytes: usize = count_packed_bytes(matrices);
    probe.input_pack_calls = probe.input_pack_calls + matrices.len();
    probe.input_pack_bytes = probe.input_pack_bytes + bytes;
}

/// The packing of all sector matrices of an input.
pub fn record_eigh_input_pack<D>(probe: &mut EighCopyProbe, matrices: &[SectorMatricization<D>])
    requires
        old(probe).input_pack_calls + matrices@.len() <= usize::MAX,
        old(probe).input_pack_bytes + packed_bytes(matrices@, matrices@.len() as int)
            <= usize::MAX,
    ensures
        *final(probe) == (EighCopyProbe {
            input_pack_calls: (old(probe).input_pack_calls + matrices@.len()) as usize,
            input_pack_bytes: (old(probe).input_pack_bytes + packed_bytes(
                matrices@,
                matrices@.len() as int,
            )) as usize,
            ..*old(probe)
        }),
{
    let bytes: usize = count_packed_bytes(matrices);
    probe.input_pack_calls = probe.input_pack_calls + matrices.len();
    probe.input_pack_bytes = probe.input_pack_bytes + bytes;
}

/// Number of values of the first `count` entries.
pub open spec fn spectrum_values<V>(spectrum: Seq<SectorSpectrum<V>>, count: int) -> int
    decreases count,
{
    if count <= 0 {
        0
    } else {
        spectrum_values(spectrum, count - 1) + spectrum[count - 1].values@.len()
    }
}

proof fn lemma_spectrum_values_grow<V>(spectrum: Seq<SectorSpectrum<V>>, low: int, high: int)
    requires
        0 <= low <= high <= spectrum.len(),
    ensures
        spectrum_values(spectrum, low) <= spectrum_values(spectrum, high),
    decreases high - low,
{
    if low < high {
        lemma_spectrum_values_grow(spectrum, low, high - 1);
    }
}

/// One diagonal bond tensor.
pub fn record_diagonal_bond_build<V>(
    probe: &mut DiagonalBondBuildProbe,
    spectrum: &[SectorSpectrum<V>],
)
    requires
        old(probe).calls + 1 <= usize::MAX,
        old(probe).values + spectrum_values(spectrum@, spectrum@.len() as int) <= usize::MAX,
    ensures
        *final(probe) == (DiagonalBondBuildProbe {
            calls: (old(probe).calls + 1) as usize,
            values: (old(probe).values + spectrum_values(
                spectrum@,
                spectrum@.len() as int,
            )) as usize,
        }),
{
    let ghost start = probe.values;
    let mut k: usize = 0;
    probe.calls = probe.calls + 1;
    while k < spectrum.len()
        invariant
            k <= spectrum@.len(),
            start == old(probe).values,
            probe.calls == old(probe).calls + 1,
            start + spectrum_values(spectrum@, spectrum@.len() as int) <= usize::MAX,
            probe.values == start + spectrum_values(spectrum@, k as int),
        decreases spectrum.len() - k,
    {
        proof {
            lemma_spectrum_values_grow(spectrum@, k + 1, spectrum@.len() as int);
        }
        probe.values = probe.values + spectrum[k].values.len();
        k += 1;
    }
}

/// Sets the number of inputs of value computations that had to be packed to zero.
pub fn reset_values_matricization_fallbacks(count: &mut usize)
    ensures
        *final(count) == 0,
{
    *count = 0;
}

/// The number of inputs of value computations that had to be packed.
pub fn values_matricization_fallbacks(count: &usize) -> (calls: usize)
    ensures
        calls == *count,
{
    *count
}

/// Sets the number of compact factor plans that were finished to zero.
pub fn reset_generic_factor_plan_finish_calls(count: &mut usize)
    ensures
        *final(count) == 0,
{
    *count = 0;
}

/// The number of compact factor plans that were finished.
pub fn generic_factor_plan_finish_calls(count: &usize) -> (calls: usize)
    ensures
        calls == *count,
{
    *count
}

/// One more input of a value computation that had to be packed.
pub fn record_values_matricization_fallback(count: &mut usize)
    requires
        *old(count) < usize::MAX,
    ensures
        *final(count) == *old(count) + 1,
{
    *count = *count + 1;
}

/// Sets the numbers of factor buffers to zero.
pub fn reset_factor_buffer_build_counts_for_test(counts: &mut (usize, usize))
    ensures
        *final(counts) == (0usize, 0usize),
{
    *counts = (0, 0);
}

/// The numbers of left and right factor buffers.
pub fn factor_buffer_build_counts_for_test(counts: &(usize, usize)) -> (built: (usize, usize))
    ensures
        built == *counts,
{
    *counts
}

/// One comparison of a key with the expected order.
pub fn record_generic_pair_ordered_key_validation(probe: &mut GenericPairPublicationProbe)
    requires
        old(probe).ordered_key_validation_events + 1 <= usize::MAX,
    ensures
        *final(probe) == (GenericPairPublicationProbe {
            ordered_key_validation_events: (old(probe).ordered_key_validation_events + 1) as usize,
            ..*old(probe)
        }),
{
    probe.ordered_key_validation_events = probe.ordered_key_validation_events + 1;
}

/// One output block that was visited.
pub fn record_generic_pair_output_block_visit(probe: &mut GenericPairPublicationProbe)
    requires
        old(probe).output_blocks_visited + 1 <= usize::MAX,
    ensures
        *final(probe) == (GenericPairPublicationProbe {
            output_blocks_visited: (old(probe).output_blocks_visited + 1) as usize,
            ..*old(probe)
        }),
{
    probe.output_blocks_visited = probe.output_blocks_visited + 1;
}

/// One factor that was scattered.
pub fn record_one_sided_fallback_publication(probe: &mut OneSidedPublicationProbe)
    requires
        old(probe).fallback_publications + 1 <= usize::MAX,
    ensures
        *final(probe) == (OneSidedPublicationProbe {
            fallback_publications: (old(probe).fallback_publications + 1) as usize,
            ..*old(probe)
        }),
{
    probe.fallback_publications = probe.fallback_publications + 1;
}

/// Elements that were appended to an output.
pub fn record_generic_pair_appended(
    probe: &mut GenericPairPublicationProbe,
    left: usize,
    right: usize,
)
    requires
        old(probe).left_appended_elements + left <= usize::MAX,
        old(probe).right_appended_elements + right <= usize::MAX,
    ensures
        *final(probe) == (GenericPairPublicationProbe {
            left_appended_elements: (old(probe).left_appended_elements + left) as usize,
            right_appended_elements: (old(probe).right_appended_elements + right) as usize,
            ..*old(probe)
        }),
{
    probe.left_appended_elements = probe.left_appended_elements + left;
    probe.right_appended_elements = probe.right_appended_elements + right;
}

/// One output block that a scatter visits.
pub fn record_scatter_visit(probe: &mut ScatterVisitProbe, side: FactorSide)
    requires
        side == FactorSide::Left ==> old(probe).left_visits < usize::MAX,
        side == FactorSide::Right ==> old(probe).right_visits < usize::MAX,
    ensures
        *final(probe) == match side {
            FactorSide::Left => ScatterVisitProbe {
                left_visits: (old(probe).left_visits + 1) as usize,
                ..*old(probe)
            },
            FactorSide::Right => ScatterVisitProbe {
                right_visits: (old(probe).right_visits + 1) as usize,
                ..*old(probe)
            },
        },
{
    match side {
        FactorSide::Left => {
            probe.left_visits = probe.left_visits + 1;
        },
        FactorSide::Right => {
            probe.right_visits = probe.right_visits + 1;
        },
    }
}

/// One lookup of a key out of order.
pub fn record_generic_pair_fallback_lookup(
    probe: &mut GenericPairPublicationProbe,
    side: FactorSide,
)
    requires
        side == FactorSide::Left ==> old(probe).fallback_row_lookups < usize::MAX,
        side == FactorSide::Right ==> old(probe).fallback_col_lookups < usize::MAX,
    ensures
        *final(probe) == match side {
            FactorSide::Left => GenericPairPublicationProbe {
                fallback_row_lookups: (old(probe).fallback_row_lookups + 1) as usize,
                ..*old(probe)
            },
            FactorSide::Right => GenericPairPublicationProbe {
                fallback_col_lookups: (old(probe).fallback_col_lookups + 1) as usize,
                ..*old(probe)
            },
        },
{
    match side {
        FactorSide::Left => {
            probe.fallback_row_lookups = probe.fallback_row_lookups + 1;
        },
        FactorSide::Right => {
            probe.fallback_col_lookups = probe.fallback_col_lookups + 1;
        },
    }
}

/// The operation that looked at a checked compact input.
#[derive(Clone, Copy, Debug, PartialEq, Eq, Structural)]
pub enum CheckedCompactOperation {
    Qr,
    Svd,
    Lq,
}

/// Where an operation found its input, the sector matrix and the adjoint of it.
#[derive(Clone, Copy, Debug, PartialEq, Eq)]
pub struct CheckedCompactInputObservation {
    pub operation: CheckedCompactOperation,
    pub input_pointer: usize,
    pub matrix_pointer: usize,
    pub adjoint_pointer: Option<usize>,
    pub elements: usize,
}

/// Forgets the factors of checked compact SVDs.
pub fn reset_checked_compact_svd_stage_pointers(trace: &mut Vec<(usize, usize)>)
    ensures
        final(trace)@ == Seq::<(usize, usize)>::empty(),
{
    trace.clear();
}

/// The addresses of the factors of checked compact SVDs.
pub fn checked_compact_svd_stage_pointers(trace: &Vec<(usize, usize)>) -> (addresses: Vec<(usize, usize)>)
    ensures
        addresses@ == trace@,
{
    vstd::slice::slice_to_vec(trace.as_slice())
}

/// Notes the addresses of a pair of factors.
pub fn record_checked_compact_svd_stage_gauge(trace: &mut Vec<(usize, usize)>, u: usize, vt: usize)
    ensures
        final(trace)@ == old(trace)@.push((u, vt)),
{
    trace.push((u, vt));
}

/// Forgets the factors of packed compact SVDs.
pub fn reset_generic_compact_svd_fallback_pointers(trace: &mut Vec<(usize, usize)>)
    ensures
        final(trace)@ == Seq::<(usize, usize)>::empty(),
{
    trace.clear();
}

/// The addresses of the factors of packed compact SVDs.
pub fn generic_compact_svd_fallback_pointers(trace: &Vec<(usize, usize)>) -> (addresses: Vec<(usize, usize)>)
    ensures
        addresses@ == trace@,
{
    vstd::slice::slice_to_vec(trace.as_slice())
}

/// Notes the addresses of a pair of factors.
pub fn record_generic_compact_svd_fallback_gauge(trace: &mut Vec<(usize, usize)>, u: usize, vt: usize)
    ensures
        final(trace)@ == old(trace)@.push((u, vt)),
{
    trace.push((u, vt));
}

/// Forgets the factors of packed multiplicity-free SVDs.
pub fn reset_mf_compact_svd_fallback_pointers(trace: &mut Vec<(usize, usize)>)
    ensures
        final(trace)@ == Seq::<(usize, usize)>::empty(),
{
    trace.clear();
}

/// The addresses of the factors of packed multiplicity-free SVDs.
pub fn mf_compact_svd_fallback_pointers(trace: &Vec<(usize, usize)>) -> (addresses: Vec<(usize, usize)>)
    ensures
        addresses@ == trace@,
{
    vstd::slice::slice_to_vec(trace.as_slice())
}

/// Notes the addresses of a pair of factors.
pub fn record_mf_compact_svd_fallback_gauge(trace: &mut Vec<(usize, usize)>, u: usize, vt: usize)
    ensures
        final(trace)@ == old(trace)@.push((u, vt)),
{
    trace.push((u, vt));
}

/// Forgets eigenvectors before their scatter.
pub fn reset_eigh_owned_vector_pointers(trace: &mut Vec<usize>)
    ensures
        final(trace)@ == Seq::<usize>::empty(),
{
    trace.clear();
}

/// The addresses of eigenvectors before their scatter.
pub fn eigh_owned_vector_pointers(trace: &Vec<usize>) -> (addresses: Vec<usize>)
    ensures
        addresses@ == trace@,
{
    vstd::slice::slice_to_vec(trace.as_slice())
}

/// Notes the address of eigenvectors before their scatter.
pub fn record_eigh_owned_vector_before_scatter(trace: &mut Vec<usize>, vectors: usize)
    ensures
        final(trace)@ == old(trace)@.push(vectors),
{
    trace.push(vectors);
}

/// Forgets the pairs of a checked eigendecomposition.
pub fn reset_checked_eigh_pair_pointers(trace: &mut Vec<usize>)
    ensures
        final(trace)@ == Seq::<usize>::empty(),
{
    trace.clear();
}

/// The addresses of the pairs of a checked eigendecomposition.
pub fn checked_eigh_pair_pointers(trace: &Vec<usize>) -> (addresses: Vec<usize>)
    ensures
        addresses@ == trace@,
{
    vstd::slice::slice_to_vec(trace.as_slice())
}

/// Notes the addresses of the pairs of a checked eigendecomposition.
pub fn record_checked_eigh_pair_pointers(trace: &mut Vec<usize>, pairs: &[usize])
    ensures
        final(trace)@ == pairs@,
{
    *trace = vstd::slice::slice_to_vec(pairs);
}

/// Forgets checked compact inputs.
pub fn reset_checked_compact_input_observations(trace: &mut Vec<CheckedCompactInputObservation>)
    ensures
        final(trace)@ == Seq::<CheckedCompactInputObservation>::empty(),
{
    trace.clear();
}

/// The addresses of checked compact inputs.
pub fn checked_compact_input_observations(
    trace: &Vec<CheckedCompactInputObservation>,
) -> (addresses: Vec<CheckedCompactInputObservation>)
    ensures
        addresses@ == trace@,
{
    vstd::slice::slice_to_vec(trace.as_slice())
}

/// Notes where an operation found its input.
pub fn record_checked_compact_input(
    trace: &mut Vec<CheckedCompactInputObservation>,
    operation: CheckedCompactOperation,
    input_pointer: usize,
    matrix_pointer: usize,
    adjoint_pointer: Option<usize>,
    elements: usize,
)
    ensures
        final(trace)@ == old(trace)@.push(
            CheckedCompactInputObservation {
                operation,
                input_pointer,
                matrix_pointer,
                adjoint_pointer,
                elements,
            },
        ),
{
    trace.push(
        CheckedCompactInputObservation {
            operation,
            input_pointer,
            matrix_pointer,
            adjoint_pointer,
            elements,
        },
    );
}

/// Where a buffer starts: `Vec::as_ptr`, as a number. The allocator chooses it,
/// so nothing is claimed of it.
#[verifier::external_body]
fn buffer_address<D>(buffer: &Vec<D>) -> usize {
    buffer.as_ptr() as usize
}

/// Whether some region is there.
pub open spec fn some_region<D>(regions: Seq<Option<Vec<D>>>) -> bool {
    exists|i: int| 0 <= i < regions.len() && #[trigger] regions[i] is Some
}

/// The address of the first region that is there.
fn first_region_address<D>(regions: &Vec<Option<Vec<D>>>) -> (address: Option<usize>)
    ensures
        address is Some <==> some_region(regions@),
{
    let mut next: usize = 0;
    while next < regions.len()
        invariant
            next <= regions.len(),
            forall|i: int| 0 <= i < next ==> #[trigger] regions@[i] is None,
        decreases regions.len() - next,
    {
        if let Some(region) = &regions[next] {
            assert(regions@[next as int] is Some);
            return Some(buffer_address(region));
        }
        next = next + 1;
    }
    None
}

/// Joins the regions that are there into one buffer and counts the output, and
/// counts it as reused where the output starts where the first region did.
/// Without a region nothing is reused; with one, the allocator decides.
pub fn concat_compact_factor_regions<D>(
    regions: Vec<Option<Vec<D>>>,
    required_len: usize,
    probe: &mut CompactQrCopyProbe,
) -> (output: Vec<D>)
    requires
        first_fits(regions@, required_len as int),
        old(probe).owned_output_publications < usize::MAX,
        old(probe).owned_output_owner_reused < usize::MAX,
    ensures
        output@ == concatenated(regions@),
        final(probe).owned_output_owner_reused == old(probe).owned_output_owner_reused || (
        some_region(regions@) && final(probe).owned_output_owner_reused == old(
            probe,
        ).owned_output_owner_reused + 1),
        *final(probe) == (CompactQrCopyProbe {
            owned_output_publications: (old(probe).owned_output_publications + 1) as usize,
            owned_output_owner_reused: final(probe).owned_output_owner_reused,
            ..*old(probe)
        }),
{
    let first = first_region_address(&regions);
    let output = concat_owned_factor_regions(regions, required_len);
    probe.owned_output_publications = probe.owned_output_publications + 1;
    if let Some(address) = first {
        if address == buffer_address(&output) {
            probe.owned_output_owner_reused = probe.owned_output_owner_reused + 1;
        }
    }
    output
}

/// Joins the regions that are there into one buffer and counts the output, and
/// counts it as reused where the output starts where the first region did.
/// Without a region nothing is reused; with one, the allocator decides.
pub fn concat_compact_svd_factor_regions<D>(
    regions: Vec<Option<Vec<D>>>,
    required_len: usize,
    probe: &mut CompactSvdCopyProbe,
) -> (output: Vec<D>)
    requires
        first_fits(regions@, required_len as int),
        old(probe).owned_output_publications < usize::MAX,
        old(probe).owned_output_owner_reused < usize::MAX,
    ensures
        output@ == concatenated(regions@),
        final(probe).owned_output_owner_reused == old(probe).owned_output_owner_reused || (
        some_region(regions@) && final(probe).owned_output_owner_reused == old(
            probe,
        ).owned_output_owner_reused + 1),
        *final(probe) == (CompactSvdCopyProbe {
            owned_output_publications: (old(probe).owned_output_publications + 1) as usize,
            owned_output_owner_reused: final(probe).owned_output_owner_reused,
            ..*old(probe)
        }),
{
    let first = first_region_address(&regions);
    let output = concat_owned_factor_regions(regions, required_len);
    probe.owned_output_publications = probe.owned_output_publications + 1;
    if let Some(address) = first {
        if address == buffer_address(&output) {
            probe.owned_output_owner_reused = probe.owned_output_owner_reused + 1;
        }
    }
    output
}

} // verus!
