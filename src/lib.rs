//! Star history of GitHub owners and repositories: the batching scheduler that
//! pages through a GraphQL API, the decoder of its responses, the merge of
//! stargazer events into per-series sets, and the cumulative series for plotting.
pub mod decode;
pub mod engine;
pub mod json;
pub mod log;
pub mod query;
pub mod series;
pub mod stars;
pub mod text;
