//! Fraud scoring by nearest-neighbour search over an inverted-file index.

pub mod balancer;
pub mod build_index;
pub mod bytes;
pub mod calendar;
pub mod centroid_dists;
pub mod data;
pub mod dataset;
pub mod engine_clusters;
pub mod evaluation;
pub mod float_bits;
pub mod gz;
pub mod http;
pub mod index;
pub mod json;
pub mod json_utils;
pub mod kmeans;
pub mod knn;
pub mod laws_clustering;
pub mod laws_http;
pub mod laws_index;
pub mod laws_scoring;
pub mod laws_search;
pub mod laws_transactions;
pub mod normalize;
pub mod quantized;
pub mod query;
pub mod rank;
pub mod reload;
pub mod repeatable;
pub mod responses;
pub mod search;
pub mod seeding;
pub mod text;
pub mod vector;
