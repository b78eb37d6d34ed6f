//! Distils an image down to a short, ranked list of its dominant colours.
//!
//! The interesting pixels of an image are quantized to a palette of fixed
//! size, the colours of that palette are counted, colours that are
//! perceptually too close to a more frequent one are folded into it, and
//! what is left is ranked by count.
//!
//! Colours are compared in the L\*a\*b\* space. The library carries their
//! coordinates through without reading them. The one place that needs
//! arithmetic on them is the centroid of a cluster and a colour folded into
//! it, which the caller hands in as `blend`: a function of the cluster's
//! colour and running count and of the colour and its count, meant to give
//! the colour whose coordinates are the means of theirs, weighted by the
//! two counts.
//!
//! The library does not decode an image either. `check_format` tells from
//! the first bytes whether an encoded image is to be decoded at all, and
//! `distil_decoded` takes what the decoder made of it: the pixels, or the
//! decoder's error, which it passes on.

pub mod color;
pub mod count;
pub mod error;
pub mod filter;
pub mod format;
pub mod merge;
pub mod palette;
pub mod quantize;
pub mod rank;

pub use crate::error::DistilError;
pub use crate::palette::{check_format, distil_decoded, Distil};
