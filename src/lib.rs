//! A parser for SIP messages carried in UDP datagrams, and the canonical
//! rendering of what it parses.
//!
//! Every rule of the grammar is a spec function over the input bytes and a
//! start position that gives the end of the match and the value read (or no
//! match); every executable parser is proved to return exactly that.  Values
//! have views in plain mathematical types, and renderers are proved to
//! produce the text that spec functions describe.
//!
//! - `parse_utils`: byte classes, literals, whitespace and separators,
//!   numbers, quoted strings, and the shapes of results.
//! - `method`: request methods and status codes.
//! - `uri`: `sip:`, `sips:` and absolute URIs.
//! - `address`: display names, generic parameters, name-addr / addr-spec.
//! - `via`: the Via header.
//! - `header`: header names, typed values and header lines.
//! - `map`: the header section with its case-insensitive name index.
//! - `start_line`: request-lines and status-lines.
//! - `message`: whole messages framed by Content-Length, and raw datagrams.
pub mod parse_utils;
pub mod method;
pub mod uri;
pub mod address;
pub mod via;
pub mod header;
pub mod map;
pub mod start_line;
pub mod message;
