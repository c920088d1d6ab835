//! Building blocks of a random number generator that draws its bytes from the
//! operating system: assembling words out of drawn bytes, and the bookkeeping
//! that fills a buffer completely from a byte stream that may hand out fewer
//! bytes per read than were asked for.
pub mod words;
pub mod fill;
