//! Blood-pressure and pulse readings kept in an append-only text store,
//! with a newest-first report over them.
pub mod reading;
pub mod time;
pub mod decimal;
pub mod split;
pub mod store;
pub mod report;
