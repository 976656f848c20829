//! Verified core of a YML catalog exporter: scanning of XML chunks,
//! filtering of offers, and the rewriting of feed documents through
//! quick-xml.
pub mod bytes;
pub mod text;
pub mod xml;
pub mod feed;
pub mod scan;
pub mod query;
pub mod offers;
