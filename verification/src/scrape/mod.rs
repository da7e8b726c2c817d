//! Web scraping: HTML parsing, conversion to Markdown, links and crawling.
pub mod converter;
pub mod crawler;
pub mod dom;
pub mod fetch;
pub mod link_extractor;
pub mod order;
pub mod parser;
