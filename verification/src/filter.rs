//! Picking the pixels that are worth quantizing.
//!
//! A pixel is four channel bytes: red, green, blue and alpha.

use vstd::prelude::*;

use crate::error::DistilError;

verus! {

/// Channels below this are too dark to be interesting.
pub const MIN_BLACK: u8 = 8;

/// Channels above this are too light to be interesting.
pub const MAX_WHITE: u8 = 247;

/// Whether the pixel is not fully opaque.
pub open spec fn transparent(rgba: [u8; 4]) -> bool {
    rgba[3] != 255
}

/// Whether all three colour channels are below `MIN_BLACK`.
pub open spec fn black(rgba: [u8; 4]) -> bool {
    rgba[0] < MIN_BLACK && rgba[1] < MIN_BLACK && rgba[2] < MIN_BLACK
}

/// Whether all three colour channels are above `MAX_WHITE`.
pub open spec fn white(rgba: [u8; 4]) -> bool {
    rgba[0] > MAX_WHITE && rgba[1] > MAX_WHITE && rgba[2] > MAX_WHITE
}

/// Whether the pixel is opaque and neither too dark nor too light.
pub open spec fn interesting(rgba: [u8; 4]) -> bool {
    !transparent(rgba) && !black(rgba) && !white(rgba)
}

/// The channels of the interesting pixels of `pixels`, four bytes for each,
/// in the order of the pixels.
pub open spec fn sample_of(pixels: Seq<[u8; 4]>) -> Seq<u8>
    decreases pixels.len(),
{
    if pixels.len() == 0 {
        Seq::empty()
    } else if interesting(pixels.last()) {
        sample_of(pixels.drop_last()) + pixels.last()@
    } else {
        sample_of(pixels.drop_last())
    }
}

/// Checks if the passed pixel is opaque or not.
pub fn has_transparency(rgba: &[u8; 4]) -> (yes: bool)
    ensures
        yes == transparent(*rgba),
{
    rgba[3] != 255
}

/// Checks if the passed pixel is too dark to be interesting.
pub fn is_black(rgba: &[u8; 4]) -> (yes: bool)
    ensures
        yes == black(*rgba),
{
    rgba[0] < MIN_BLACK && rgba[1] < MIN_BLACK && rgba[2] < MIN_BLACK
}

/// Checks if the passed pixel is too light to be interesting.
pub fn is_white(rgba: &[u8; 4]) -> (yes: bool)
    ensures
        yes == white(*rgba),
{
    rgba[0] > MAX_WHITE && rgba[1] > MAX_WHITE && rgba[2] > MAX_WHITE
}

/// An opaque pixel whose colour channels all lie strictly between
/// `MIN_BLACK` and `MAX_WHITE` is interesting, and a pixel that is not fully
/// opaque never is, whatever its colour.
pub proof fn lemma_interesting_classes(rgba: [u8; 4])
    ensures
        rgba[3] == 255 && (forall|c: int| 0 <= c < 3 ==> MIN_BLACK < #[trigger] rgba[c] < MAX_WHITE)
            ==> interesting(rgba),
        rgba[3] != 255 ==> !interesting(rgba),
{
    if rgba[3] == 255 && (forall|c: int| 0 <= c < 3 ==> MIN_BLACK < #[trigger] rgba[c] < MAX_WHITE) {
        assert(MIN_BLACK < rgba[0]);
    }
}

/// The sample holds four bytes for each interesting pixel and nothing else:
/// it is empty exactly where no pixel is interesting.
pub proof fn lemma_sample_empty(pixels: Seq<[u8; 4]>)
    ensures
        sample_of(pixels).len() % 4 == 0,
        sample_of(pixels).len() <= 4 * pixels.len(),
        sample_of(pixels).len() == 0 <==> forall|i: int|
            0 <= i < pixels.len() ==> !interesting(#[trigger] pixels[i]),
    decreases pixels.len(),
{
    if pixels.len() > 0 {
        let front = pixels.drop_last();
        lemma_sample_empty(front);
        assert(pixels.last()@.len() == 4);
        if sample_of(pixels).len() == 0 {
            assert forall|i: int| 0 <= i < pixels.len() implies !interesting(
                #[trigger] pixels[i],
            ) by {
                if i < front.len() {
                    assert(front[i] == pixels[i]);
                }
            }
        } else if !interesting(pixels.last()) {
            let i = choose|i: int| 0 <= i < front.len() && interesting(#[trigger] front[i]);
            assert(pixels[i] == front[i]);
        }
    }
}

/// Goes through the passed pixels, leaves out any that are transparent or
/// too light or too dark to be interesting, and returns the channels of
/// the others, ready to be fed into the quantizer. Fails with
/// `Uninteresting` where no pixel is left.
pub fn get_pixels(pixels: &Vec<[u8; 4]>) -> (sample: Result<Vec<u8>, DistilError>)
    ensures
        match sample {
            Ok(channels) => channels@ == sample_of(pixels@) && channels@.len() > 0,
            Err(err) => err is Uninteresting && sample_of(pixels@).len() == 0,
        },
{
    let mut channels: Vec<u8> = Vec::new();
    let mut i: usize = 0;
    while i < pixels.len()
        invariant
            i <= pixels.len(),
            channels@ == sample_of(pixels@.take(i as int)),
        decreases pixels.len() - i,
    {
        let px = &pixels[i];
        proof {
            assert(pixels@.take(i + 1).drop_last() =~= pixels@.take(i as int));
            assert(pixels@.take(i + 1).last() == pixels@[i as int]);
        }
        if !(has_transparency(px) || is_black(px) || is_white(px)) {
            let ghost before = channels@;
            channels.push(px[0]);
            channels.push(px[1]);
            channels.push(px[2]);
            channels.push(px[3]);
            proof {
                assert(px@.len() == 4);
                assert(channels@ =~= before + px@);
            }
        }
        i += 1;
    }
    proof {
        assert(pixels@.take(i as int) =~= pixels@);
    }
    if channels.len() == 0 {
        return Err(DistilError::Uninteresting);
    }
    Ok(channels)
}

} // verus!
