pub mod arith;
pub mod cell_laws;
pub mod cell_map;
pub mod cells;
pub mod centroids;
pub mod drain;
pub mod drain_finish;
pub mod drain_laws;
pub mod drain_run;
pub mod families;
pub mod fanout;
pub mod fanout_laws;
pub mod hashing;
pub mod log_laws;
pub mod mutation;
pub mod open_ranges;
pub mod order;
pub mod packed;
pub mod pass_laws;
pub mod probe_laws;
pub mod publish;
pub mod publish_laws;
pub mod row_laws;
pub mod rows;
pub mod serving;
pub mod shared_bytes;
pub mod slow_state;
pub mod split;
pub mod split_laws;
pub mod split_pass;
pub mod split_run;
pub mod state_laws;
pub mod step_laws;
pub mod superfile;
pub mod superseded;
pub mod text;
pub mod text_laws;
pub mod wal_store;
pub mod wire;
pub mod writer;
pub mod writer_laws;
