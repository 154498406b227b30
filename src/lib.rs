//! Ranking of items against a query string by edit-distance similarity,
//! with an edit-distance matrix that follows a query as it is edited.
pub mod levenshtein;
pub mod search_engine;
