//! Block-sparse matrix algebra on fusion-tree tensors.

pub mod admission_laws;
pub mod bond;
pub mod bond_laws;
pub mod canonical;
pub mod compact_drive;
pub mod compact_fits;
pub mod completion;
pub mod completion_laws;
pub mod dense;
pub mod dense_calls;
pub mod dense_output;
pub mod direct;
pub mod driver_laws;
pub mod eigen;
pub mod eigen_drive;
pub mod eigen_full;
pub mod eigen_laws;
pub mod eigh_drive;
pub mod equivalence;
pub mod error;
pub mod exact;
pub mod exponential;
pub mod exponential_laws;
pub mod factor;
pub mod factor_drive;
pub mod factor_routes;
pub mod fits;
pub mod full;
pub mod full_drive;
pub mod full_laws;
pub mod fusion;
pub mod fusion_laws;
pub mod gauge;
pub mod gauge_laws;
pub mod generic_drive;
pub mod generic_laws;
pub mod geometry;
pub mod index;
pub mod index_laws;
pub mod input;
pub mod keys;
pub mod labelled_laws;
pub mod layout;
pub mod layout_fits;
pub mod layout_laws;
pub mod leg_laws;
pub mod lq_drive;
pub mod matricize;
pub mod matricize_laws;
pub mod matrix_functions;
pub mod null;
pub mod null_drive;
pub mod null_laws;
pub mod order_laws;
pub mod outcome;
pub mod packed_laws;
pub mod pair;
pub mod pair_drive;
pub mod pair_read_back;
pub mod phase_laws;
pub mod phases;
pub mod pinv_drive;
pub mod placement;
pub mod polar;
pub mod polar_drive;
pub mod probe;
pub mod product_laws;
pub mod publication_laws;
pub mod publication_walk;
pub mod publish;
pub mod read_back;
pub mod region_fits;
pub mod region_laws;
pub mod reorder_laws;
pub mod results;
pub mod ring;
pub mod route_drive;
pub mod route_fits;
pub mod route_laws;
pub mod routed_laws;
pub mod routes;
pub mod routing_laws;
pub mod scaling;
pub mod scaling_laws;
pub mod scatter_laws;
pub mod sector;
pub mod sector_drive;
pub mod sector_map;
pub mod sector_solve;
pub mod solve_drive;
pub mod solve_routes;
pub mod shapes;
pub mod sides;
pub mod space;
pub mod space_laws;
pub mod spectrum;
pub mod stage_fits;
pub mod stages;
pub mod structure;
pub mod svd_drive;
pub mod svd_laws;
pub mod svd_stage;
pub mod tensor_laws;
pub mod tree_order;
pub mod tree_table;
pub mod truncate;
pub mod truncation_laws;
pub mod typed;
pub mod vector_laws;
pub mod writes;
