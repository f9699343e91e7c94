//! A small web ecosystem: the `wisp://` message framing and handshake, an
//! HTML and CSS parser with a style cascade, colour values, an inverted
//! search index with ranked search, the pages of the search engine and the
//! answers of the static-file server, and the parts of rendering that need
//! no geometry.
pub mod text;
pub mod message;
pub mod roundtrip;
pub mod handshake;
pub mod css;
pub mod html;
pub mod style;
pub mod values;
pub mod index;
pub mod search_page;
pub mod client;
pub mod site;
pub mod render;
pub mod tls;
pub mod crawl;
