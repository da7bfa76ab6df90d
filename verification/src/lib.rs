//! Verified core of the riskanvil tree scorer.

pub mod arith;
pub mod assets;
pub mod atlas_file;
pub mod atlases;
pub mod bands;
pub mod bare;
pub mod base_score;
pub mod batches;
pub mod buffers;
pub mod bundle;
pub mod calibration;
pub mod certain;
pub mod certify;
pub mod certify_file;
pub mod compact;
pub mod continuation;
pub mod cpus;
pub mod descend;
pub mod dispatch;
pub mod exact;
pub mod exp_v1;
pub mod features;
pub mod figures;
pub mod files;
pub mod forest;
pub mod hot;
pub mod hot_pack;
pub mod http;
pub mod json;
pub mod kept;
pub mod kernel;
pub mod kernel_batch;
pub mod kinds;
pub mod layout;
pub mod le;
pub mod leaf_set;
pub mod loads;
pub mod mamba;
pub mod minpack;
pub mod network;
pub mod online;
pub mod pack_check;
pub mod packages;
pub mod packet_file;
pub mod packets;
pub mod paths;
pub mod policy;
pub mod prefix_runtime;
pub mod prefix_v2;
pub mod qs_batch;
pub mod qs_extract;
pub mod qs_features;
pub mod qs_pack;
pub mod qs_prefix;
pub mod qs_rows;
pub mod qs_score;
pub mod quantize;
pub mod rank;
pub mod ready;
pub mod records;
pub mod replies;
pub mod rescue;
pub mod routes;
pub mod row_meta;
pub mod runtime_load;
pub mod scan;
pub mod schedules;
pub mod segments;
pub mod server;
pub mod shadow;
pub mod single;
pub mod sorting;
pub mod stage_plan;
pub mod stages;
pub mod stash;
pub mod sums;
pub mod tail;
pub mod takeovers;
pub mod talk;
pub mod tensors;
pub mod text;
pub mod trace;
pub mod traverse;
pub mod v4;
pub mod verdicts;
pub mod ways;
pub mod wire;
