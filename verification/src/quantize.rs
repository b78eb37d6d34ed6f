//! Reducing the interesting pixels of an image to a palette of fixed size.

use vstd::prelude::*;

use color_quant::NeuQuant;

use crate::error::DistilError;
use crate::filter::{get_pixels, sample_of};

verus! {

/// The fraction of the sample that the quantizer is trained on: one pixel
/// in so many.
pub const NQ_SAMPLE_FACTION: i32 = 10;

/// The number of colours that the quantizer reduces an image to.
pub const NQ_PALETTE_SIZE: usize = 256;

/// The colour map, three bytes for each colour, that a NeuQuant network of
/// `colors` neurons holds after training on `pixels` with the sampling
/// factor `samplefac`.
pub uninterp spec fn neuquant_color_map(samplefac: i32, colors: usize, pixels: Seq<u8>) -> Seq<u8>;

/// Trains a network with `color_quant::NeuQuant::new` and reads its colour
/// map with `color_map_rgb`. The training reads the pixels, four bytes
/// each, in a fixed order and draws on nothing else, so the map is
/// `neuquant_color_map` of the arguments; it holds red, green and blue for
/// each of the `colors` neurons. The sampling factor is a divisor and must
/// lie between 1 and 30; the network is made for 64 to 256 colours.
#[verifier::external_body]
fn train_color_map(samplefac: i32, colors: usize, pixels: &[u8]) -> (map: Vec<u8>)
    requires
        1 <= samplefac <= 30,
        64 <= colors <= 256,
    ensures
        map@ == neuquant_color_map(samplefac, colors, pixels@),
        map@.len() == 3 * colors,
{
    NeuQuant::new(samplefac, colors, pixels).color_map_rgb()
}

/// The colours of a colour map that holds three bytes for each.
pub open spec fn triples(map: Seq<u8>) -> Seq<[u8; 3]> {
    Seq::new((map.len() / 3) as nat, |i: int| [map[3 * i], map[3 * i + 1], map[3 * i + 2]])
}

/// The palette that the quantizer makes of a sample.
pub open spec fn quantized(sample: Seq<u8>) -> Seq<[u8; 3]> {
    triples(neuquant_color_map(NQ_SAMPLE_FACTION, NQ_PALETTE_SIZE, sample))
}

/// Cuts a colour map into its colours.
pub fn split_color_map(map: &Vec<u8>) -> (colors: Vec<[u8; 3]>)
    ensures
        colors@ == triples(map@),
        colors@.len() == map@.len() / 3,
{
    let count: usize = map.len() / 3;
    let mut colors: Vec<[u8; 3]> = Vec::new();
    let mut i: usize = 0;
    while i < count
        invariant
            i <= count,
            count == map@.len() / 3,
            3 * count <= map@.len(),
            colors@.len() == i,
            forall|k: int| 0 <= k < i ==> #[trigger] colors@[k] == triples(map@)[k],
        decreases count - i,
    {
        assert(3 * i + 2 < map.len());
        let rgb: [u8; 3] = [map[3 * i], map[3 * i + 1], map[3 * i + 2]];
        proof {
            assert(rgb =~= triples(map@)[i as int]);
        }
        colors.push(rgb);
        i += 1;
    }
    proof {
        assert(colors@ =~= triples(map@));
    }
    colors
}

/// Uses the NeuQuant quantization algorithm to reduce the interesting
/// pixels of the passed image to a palette of `NQ_PALETTE_SIZE` colours.
/// Fails with `Uninteresting`, without quantizing anything, where the image
/// has no interesting pixel.
pub fn quantize(pixels: &Vec<[u8; 4]>) -> (palette: Result<Vec<[u8; 3]>, DistilError>)
    ensures
        match palette {
            Ok(colors) => {
                &&& sample_of(pixels@).len() > 0
                &&& colors@ == quantized(sample_of(pixels@))
                &&& colors@.len() == NQ_PALETTE_SIZE
            },
            Err(err) => err is Uninteresting && sample_of(pixels@).len() == 0,
        },
{
    match get_pixels(pixels) {
        Ok(sample) => {
            let map = train_color_map(NQ_SAMPLE_FACTION, NQ_PALETTE_SIZE, sample.as_slice());
            Ok(split_color_map(&map))
        },
        Err(err) => Err(err),
    }
}

} // verus!
