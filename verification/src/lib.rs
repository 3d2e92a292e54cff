//! HTTP range responses.
//!
//! [`Ranged`] takes the `Range` header of a request and a body of known size, and decides what to
//! send: the whole body, one range of it, several ranges as a multipart document, or a refusal.
//! Bodies implement [`RangeBody`]; [`KnownSize`] makes one of anything whose size is known.
//!
//! Nothing here reads a body. A [`RangedStream`] or [`MultipartStream`] says what to do with it next
//! and is told what came of it, so that whoever holds the body can read it as it likes.
//!
//! * [`header`] and [`selection`]: from the header to the ranges to send.
//! * [`respond`] and [`response`]: from the ranges to status, header fields and body.
//! * [`stream`] and [`multipart`]: from the body to the bytes of the response.
//!
//! What holds of all of this as a whole is stated apart:
//!
//! * [`text_laws`] and [`reading`]: of texts, and of what is read from a header.
//! * [`choosing`] and [`laws`]: of what is chosen of a body, and of the reply.
//! * [`answers`] and [`wire`]: of the response, its fields and its content.
//! * [`sending`]: of the streams, whatever a body does.
pub mod answers;
pub mod body;
pub mod boundary;
pub mod byte_range;
pub mod choosing;
pub mod coalesce;
pub mod content;
pub mod header;
pub mod laws;
pub mod multipart;
pub mod outside;
pub mod reading;
pub mod respond;
pub mod response;
pub mod selection;
pub mod sending;
pub mod stream;
pub mod text;
pub mod text_laws;
pub mod wire;

pub use body::{KnownSize, RangeBody};
pub use boundary::{boundary_at, extract_boundary, generate_boundary};
pub use byte_range::{Bound, ByteRange};
pub use content::{ContentLength, ContentRange};
pub use header::{parse_range_header, parse_ranges, ParseRangesError};
pub use multipart::{MultipartAction, MultipartState, MultipartStream};
pub use respond::{RangeNotSatisfiable, Ranged, RangedResponse};
pub use response::{fits_field, Response, ResponseBody};
pub use selection::{byte_ranges, RangeHeader};
pub use stream::{RangedStream, StreamAction, StreamEvent, StreamState};
