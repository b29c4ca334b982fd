//! Lloyd's k-means clustering of 2-D integer points, with three ways of
//! choosing the starting centers. Centers are held exactly, as the sum of
//! their points over the count, so every comparison is exact.
pub mod cluster;
pub mod cost;
pub mod geometry;
pub mod init;
pub mod random;
pub mod theorems;

pub use cluster::{
    assign_clusters, calculate_centroid, k_means_algo, nearest_index, recompute_centroids,
    same_centroids, ClusterError,
};
pub use geometry::{
    is_strictly_closer, same_place, sq_distance, Centroid, Point, MAX_COORD, MAX_POINTS,
};
pub use init::{select_by_cumulative, Centroids};
pub use random::generate_points;
