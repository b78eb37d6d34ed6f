//! The ways in which distilling an image can fail.

use vstd::prelude::*;
use vstd::string::StringExecFns;

use image::ImageError;

verus! {

/// `image::ImageError`: what the decoder reports, opaque to the verifier.
#[verifier::external_type_specification]
#[verifier::external_body]
pub struct ExImageError(ImageError);

/// Why an image could not be distilled.
#[derive(Debug)]
pub enum DistilError {
    /// The image could not be parsed. Holds the place that tried and what
    /// the decoder reported.
    Io(String, ImageError),
    /// The image isn't a JPEG or a PNG.
    UnsupportedFormat,
    /// No "interesting" colour was found in the image. A colour is
    /// interesting if it is opaque and falls between RGB(8, 8, 8) and
    /// RGB(247, 247, 247).
    Uninteresting,
}

/// The message of a parse failure whose cause reads `cause`.
pub open spec fn parse_failure(cause: Seq<char>) -> Seq<char> {
    "Distil failed to parse the passed image: "@ + cause
}

/// Renders a decoder error through its `Display` impl. For an error of the
/// operating system the words are the system's own, so nothing is promised
/// of the text.
#[verifier::external_body]
fn cause_text(err: &ImageError) -> (text: String) {
    err.to_string()
}

/// Puts the words that say what failed before the text of the cause.
pub fn parse_failure_message(cause: &str) -> (text: String)
    ensures
        text@ == parse_failure(cause@),
{
    "Distil failed to parse the passed image: ".to_owned().concat(cause)
}

impl DistilError {
    /// Whether `text` is a message of this error: the fixed words of its
    /// kind, with the text of some cause behind them for a parse failure.
    pub open spec fn reads(&self, text: Seq<char>) -> bool {
        match self {
            DistilError::Io(_, _) => exists|cause: Seq<char>| text == #[trigger] parse_failure(cause),
            DistilError::UnsupportedFormat => text == "The passed image isn't a JPEG or a PNG"@,
            DistilError::Uninteresting => text
                == "The passed image does not contain any interesting colours"@,
        }
    }

    /// Renders this error as a message for a reader.
    pub fn message(&self) -> (text: String)
        ensures
            self.reads(text@),
    {
        match self {
            DistilError::Io(_, err) => {
                let cause = cause_text(err);
                parse_failure_message(cause.as_str())
            },
            DistilError::UnsupportedFormat => "The passed image isn't a JPEG or a PNG".to_owned(),
            DistilError::Uninteresting => "The passed image does not contain any interesting colours".to_owned(),
        }
    }
}

} // verus!
