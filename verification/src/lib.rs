//! Core of an approximate-nearest-neighbor vector search engine.
//!
//! The library holds a dense vector store, a registry of named distance
//! measures, a dimensionality-reduction projection, a k-means tree
//! partitioner, a query-time retrieval engine, and an order-preserving
//! binary key codec.
//!
//! Vector components are bounded integers; fractional quantities (cosine
//! similarity, square roots) are represented as exact fixed-point integers
//! so that every computation has a precise mathematical contract.

pub mod assets;
pub mod dataset;
pub mod distance;
pub mod error;
pub mod projection;
pub mod proto;
pub mod retrieval;
pub mod serialize;
pub mod trees;

pub use assets::populate_assets;
pub use dataset::DatapointPtr;
pub use dataset::DenseDataset;
pub use distance::DistanceMeasure;
pub use distance::get_distance_measure;
pub use distance::get_distance_measure_by_name;
pub use error::ErrorKind;
pub use error::ScannError;
pub use error::invalid_argument_error;
pub use error::failed_precondition_error;
pub use projection::PcaProjection;
pub use projection::RandomOrthogonalProjection;
pub use retrieval::ScannRetriever;
pub use trees::KMeansTreeTrainingOptions;
