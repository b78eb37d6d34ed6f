//! The distilled palette of an image, and the way from an image to it.

use vstd::prelude::*;

use image::ImageError;
use lab::Lab;
use std::collections::BTreeMap;

use crate::color::rgb_of_lab;
use crate::count::{count_colors_as_lab, counted, lemma_counted_total};
use crate::error::DistilError;
use crate::filter::sample_of;
use crate::format::{get_image_format, is_supported_format, sniffed, supported};
use crate::merge::{
    lemma_refined_conserves, lemma_refined_unique, refined_from, remove_similar_colors,
    single_valued,
};
use crate::quantize::{quantize, quantized, NQ_PALETTE_SIZE};
use crate::rank::total_count;

verus! {

/// Represents a distilled image.
#[derive(Debug, Clone)]
pub struct Distil {
    /// `colors` contains all of the RGB values the image was distilled down
    /// into organised from most-frequent to least-frequent.
    pub colors: Vec<[u8; 3]>,
    /// `color_count` maps the index of each color in `colors` to the total
    /// number of colors that were distilled down into that same color from a
    /// palette of 256.
    ///
    /// It can be used, for example, to weight a colors importance when
    /// distilling multiple palettes into one.
    pub color_count: BTreeMap<usize, usize>,
}

/// The RGB values of the colours of `palette`, in its order.
pub open spec fn colors_of(palette: Seq<(Lab, usize)>) -> Seq<[u8; 3]> {
    Seq::new(palette.len(), |i: int| rgb_of_lab(palette[i].0))
}

/// The counts of `palette`, each under the index of its entry.
pub open spec fn counts_of(palette: Seq<(Lab, usize)>) -> Map<usize, usize> {
    Map::new(|i: usize| i < palette.len(), |i: usize| palette[i as int].1)
}

/// The sum of the counts that `counts` holds under the indices below `n`.
pub open spec fn count_sum(counts: Map<usize, usize>, n: nat) -> nat
    decreases n,
{
    if n == 0 {
        0
    } else {
        count_sum(counts, (n - 1) as nat) + counts[(n - 1) as usize] as nat
    }
}

/// The first `palette_size` of `colors`, or all of them where there are
/// fewer.
pub open spec fn first_of(colors: Seq<[u8; 3]>, palette_size: usize) -> Seq<[u8; 3]> {
    if palette_size < colors.len() {
        colors.take(palette_size as int)
    } else {
        colors
    }
}

/// The palette that the quantizer and the count make of the pixels of an
/// image, before similar colours are removed.
pub open spec fn counted_palette(pixels: Seq<[u8; 4]>) -> Seq<(Lab, usize)> {
    counted(quantized(sample_of(pixels)))
}

/// Whether `refined` is the palette of the pixels of an image with similar
/// colours removed, where `blend` gives the centroids.
pub open spec fn refined_palette<F: Fn(Lab, usize, Lab, usize) -> Lab>(
    blend: &F,
    pixels: Seq<[u8; 4]>,
    refined: Seq<(Lab, usize)>,
) -> bool {
    refined_from(blend, counted_palette(pixels), refined)
}

impl Distil {
    /// Whether this holds the colours and counts of `palette`, entry by
    /// entry.
    pub open spec fn holds(&self, palette: Seq<(Lab, usize)>) -> bool {
        self.colors@ == colors_of(palette) && self.color_count@ == counts_of(palette)
    }

    /// The sum of the counts of all colours.
    pub open spec fn total(&self) -> nat {
        count_sum(self.color_count@, self.colors@.len())
    }

    /// Whether there is a count for each colour, under its index, and no
    /// other count.
    pub open spec fn well_formed(&self) -> bool {
        forall|i: usize| self.color_count@.contains_key(i) <==> i < self.colors@.len()
    }

    /// Whether no colour is followed by one with a larger count.
    pub open spec fn most_frequent_first(&self) -> bool {
        forall|i: usize, j: usize|
            i < j < self.colors@.len() ==> self.color_count@[i] >= self.color_count@[j]
    }

    /// Whether every colour has a count of at least 1.
    pub open spec fn counts_positive(&self) -> bool {
        forall|i: usize| i < self.colors@.len() ==> self.color_count@[i] >= 1
    }

    /// Whether this is what the pixels of an image distil to, where `blend`
    /// gives the centroids, with all that follows for any `blend`: one count
    /// for each colour, at least 1 and in descending order, and between 1
    /// and `NQ_PALETTE_SIZE` colours, whose counts sum to `NQ_PALETTE_SIZE`.
    pub open spec fn distils<F: Fn(Lab, usize, Lab, usize) -> Lab>(
        &self,
        blend: &F,
        pixels: Seq<[u8; 4]>,
    ) -> bool {
        &&& self.distilled_from(blend, pixels)
        &&& self.well_formed()
        &&& self.most_frequent_first()
        &&& self.counts_positive()
        &&& 1 <= self.colors@.len() <= NQ_PALETTE_SIZE
        &&& self.total() == NQ_PALETTE_SIZE
    }

    /// Whether this is what the pixels of an image distil to, where `blend`
    /// gives the centroids.
    pub open spec fn distilled_from<F: Fn(Lab, usize, Lab, usize) -> Lab>(
        &self,
        blend: &F,
        pixels: Seq<[u8; 4]>,
    ) -> bool {
        exists|refined: Seq<(Lab, usize)>|
            self.holds(refined) && #[trigger] refined_palette(blend, pixels, refined)
    }

    /// Distils the pixels of an image: quantizes the interesting ones,
    /// counts the colours of the palette, removes the similar ones and
    /// organises what is left. `blend` gives the centroid of two weighted
    /// colours. Fails with `Uninteresting` where no pixel is interesting.
    pub fn new<F: Fn(Lab, usize, Lab, usize) -> Lab>(pixels: &Vec<[u8; 4]>, blend: &F) -> (distil:
        Result<Distil, DistilError>)
        requires
            forall|x: Lab, n: usize, y: Lab, m: usize| call_requires(*blend, (x, n, y, m)),
        ensures
            match distil {
                Ok(distilled) => sample_of(pixels@).len() > 0 && distilled.distils(blend, pixels@),
                Err(err) => err is Uninteresting && sample_of(pixels@).len() == 0,
            },
    {
        match quantize(pixels) {
            Ok(quantized_img) => {
                proof {
                    lemma_counted_total(quantized_img@);
                }
                let color_count = count_colors_as_lab(quantized_img);
                let palette = remove_similar_colors(color_count, blend);
                let ghost refined = palette@;
                proof {
                    assert(refined.len() == palette.len());
                    assert(refined_palette(blend, pixels@, refined));
                    lemma_refined_conserves(blend, counted_palette(pixels@), refined);
                    lemma_count_sum(refined, refined.len());
                    assert(refined.take(refined.len() as int) =~= refined);
                    assert(refined.len() > 0) by {
                        if refined.len() == 0 {
                            assert(total_count(refined) == 0);
                        }
                    }
                }
                let distilled = distil_palette(palette);
                proof {
                    assert(distilled.colors@.len() == refined.len());
                }
                Ok(distilled)
            },
            Err(err) => Err(err),
        }
    }

    /// The first `palette_size` colours, or all of them where there are
    /// fewer.
    pub fn palette(&self, palette_size: usize) -> (colors: Vec<[u8; 3]>)
        ensures
            colors@ == first_of(self.colors@, palette_size),
            palette_size < self.colors@.len() ==> colors@.len() == palette_size,
            palette_size >= self.colors@.len() ==> colors@ == self.colors@,
            forall|i: int| 0 <= i < colors@.len() ==> colors@[i] == self.colors@[i],
    {
        let mut colors: Vec<[u8; 3]> = Vec::new();
        let mut i: usize = 0;
        while i < self.colors.len() && i < palette_size
            invariant
                i <= self.colors@.len(),
                i <= palette_size,
                colors@ == self.colors@.take(i as int),
            decreases self.colors.len() - i,
        {
            colors.push(self.colors[i]);
            proof {
                assert(colors@ =~= self.colors@.take(i + 1));
            }
            i += 1;
        }
        proof {
            assert(colors@ =~= first_of(self.colors@, palette_size));
        }
        colors
    }
}

/// Whether the order of indices is the one that an ordered map relies on.
pub open spec fn indices_ordered() -> bool {
    vstd::laws_cmp::obeys_cmp::<usize>()
}

/// Organises the produced color palette into something that's useful for a
/// user: the RGB value of each colour, in the order of the palette, and its
/// count under its index.
pub fn distil_palette(palette: Vec<(Lab, usize)>) -> (distilled: Distil)
    ensures
        distilled.holds(palette@),
        distilled.well_formed(),
        distilled.colors@.len() == palette@.len(),
{
    let mut colors: Vec<[u8; 3]> = Vec::new();
    let mut color_count: BTreeMap<usize, usize> = BTreeMap::new();
    let mut i: usize = 0;
    proof {
        assert(indices_ordered());
        assert(color_count@ =~= counts_of(palette@.take(0)));
    }
    while i < palette.len()
        invariant
            i <= palette.len(),
            indices_ordered(),
            colors@ == colors_of(palette@.take(i as int)),
            color_count@ == counts_of(palette@.take(i as int)),
        decreases palette.len() - i,
    {
        let (lab_color, count) = palette[i];
        colors.push(lab_color.to_rgb());
        color_count.insert(i, count);
        proof {
            assert(colors@ =~= colors_of(palette@.take(i + 1)));
            assert(color_count@ =~= counts_of(palette@.take(i + 1)));
        }
        i += 1;
    }
    proof {
        assert(palette@.take(i as int) =~= palette@);
    }
    Distil { colors, color_count }
}

/// Whether `outcome` is what distilling the pixels of an image and taking
/// the first `palette_size` colours gives: the distilled image together with
/// those colours, or `Uninteresting` where no pixel is interesting.
pub open spec fn processed<F: Fn(Lab, usize, Lab, usize) -> Lab>(
    blend: &F,
    pixels: Seq<[u8; 4]>,
    palette_size: usize,
    outcome: Result<(Distil, Vec<[u8; 3]>), DistilError>,
) -> bool {
    match outcome {
        Ok((distilled, colors)) => {
            &&& sample_of(pixels).len() > 0
            &&& distilled.distils(blend, pixels)
            &&& colors@ == first_of(distilled.colors@, palette_size)
        },
        Err(err) => err is Uninteresting && sample_of(pixels).len() == 0,
    }
}

/// Whether `outcome` is what is owed for what the decoder made of an image:
/// for its pixels, what distilling them gives; for its error, `Io` with an
/// empty path and that very error as the cause.
pub open spec fn processed_decoded<F: Fn(Lab, usize, Lab, usize) -> Lab>(
    blend: &F,
    decoded: Result<Vec<[u8; 4]>, ImageError>,
    palette_size: usize,
    outcome: Result<(Distil, Vec<[u8; 3]>), DistilError>,
) -> bool {
    match decoded {
        Ok(pixels) => processed(blend, pixels@, palette_size, outcome),
        Err(cause) => match outcome {
            Err(DistilError::Io(path, held)) => path@.len() == 0 && held == cause,
            _ => false,
        },
    }
}

/// Whether two outcomes are the same: the same colours and counts and the
/// same palette, or the same kind of error with the same cause.
pub open spec fn same_outcome(
    first: Result<(Distil, Vec<[u8; 3]>), DistilError>,
    second: Result<(Distil, Vec<[u8; 3]>), DistilError>,
) -> bool {
    match (first, second) {
        (Ok((distilled, colors)), Ok((other, others))) => {
            &&& distilled.colors@ == other.colors@
            &&& distilled.color_count@ == other.color_count@
            &&& colors@ == others@
        },
        (Err(DistilError::Io(path, held)), Err(DistilError::Io(place, cause))) => path@ =~= place@
            && held == cause,
        (Err(DistilError::UnsupportedFormat), Err(DistilError::UnsupportedFormat)) => true,
        (Err(DistilError::Uninteresting), Err(DistilError::Uninteresting)) => true,
        _ => false,
    }
}

/// Whether the bytes begin with the signature of a PNG or a JPEG.
pub open spec fn accepted(buffer: Seq<u8>) -> bool {
    match sniffed(buffer) {
        Some(format) => supported(format),
        None => false,
    }
}

/// Tells from the bytes that an encoded image begins with whether it is a
/// PNG or a JPEG, and fails with `UnsupportedFormat` where it is neither:
/// such a buffer is not to be decoded.
pub fn check_format(buffer: &[u8]) -> (gate: Result<(), DistilError>)
    ensures
        gate is Ok <==> accepted(buffer@),
        gate is Err ==> gate->Err_0 is UnsupportedFormat,
{
    match get_image_format(buffer) {
        Ok(format) => is_supported_format(format),
        Err(err) => Err(err),
    }
}

/// Distils the pixels of an image and gives the distilled image together
/// with the `palette_size` most frequent of its colours, or with all of
/// them where there are fewer. Fails with `Uninteresting` where no pixel is
/// interesting.
pub fn process_img<F: Fn(Lab, usize, Lab, usize) -> Lab>(
    pixels: &Vec<[u8; 4]>,
    palette_size: usize,
    blend: &F,
) -> (outcome: Result<(Distil, Vec<[u8; 3]>), DistilError>)
    requires
        forall|x: Lab, n: usize, y: Lab, m: usize| call_requires(*blend, (x, n, y, m)),
    ensures
        processed(blend, pixels@, palette_size, outcome),
{
    match Distil::new(pixels, blend) {
        Ok(distil) => {
            let colors = distil.palette(palette_size);
            Ok((distil, colors))
        },
        Err(err) => Err(err),
    }
}

/// Takes what the decoder made of an encoded image. Where it is the pixels,
/// they are distilled as by `process_img`. Where it is the decoder's error,
/// this fails with `Io`, which holds that error unchanged and an empty path.
pub fn distil_decoded<F: Fn(Lab, usize, Lab, usize) -> Lab>(
    decoded: Result<Vec<[u8; 4]>, ImageError>,
    palette_size: usize,
    blend: &F,
) -> (outcome: Result<(Distil, Vec<[u8; 3]>), DistilError>)
    requires
        forall|x: Lab, n: usize, y: Lab, m: usize| call_requires(*blend, (x, n, y, m)),
    ensures
        processed_decoded(blend, decoded, palette_size, outcome),
{
    match decoded {
        Ok(pixels) => process_img(&pixels, palette_size, blend),
        Err(cause) => Err(DistilError::Io(String::new(), cause)),
    }
}

/// The counts under the first `n` indices sum to what the counts of the
/// first `n` entries of the palette sum to.
pub proof fn lemma_count_sum(palette: Seq<(Lab, usize)>, n: nat)
    requires
        n <= palette.len() <= usize::MAX,
    ensures
        count_sum(counts_of(palette), n) == total_count(palette.take(n as int)),
    decreases n,
{
    if n > 0 {
        lemma_count_sum(palette, (n - 1) as nat);
        assert(palette.take(n as int).drop_last() =~= palette.take(n - 1));
    }
}

/// Distilling is repeatable: with a `blend` that gives one centroid only,
/// the same pixels distil to the same colours and the same counts.
pub proof fn lemma_distilled_unique<F: Fn(Lab, usize, Lab, usize) -> Lab>(
    blend: &F,
    pixels: Seq<[u8; 4]>,
    first: Distil,
    second: Distil,
)
    requires
        single_valued(blend),
        first.distilled_from(blend, pixels),
        second.distilled_from(blend, pixels),
    ensures
        first.colors@ == second.colors@,
        first.color_count@ == second.color_count@,
{
    let refined_first = choose|refined: Seq<(Lab, usize)>|
        first.holds(refined) && #[trigger] refined_palette(blend, pixels, refined);
    let refined_second = choose|refined: Seq<(Lab, usize)>|
        second.holds(refined) && #[trigger] refined_palette(blend, pixels, refined);
    lemma_refined_unique(blend, counted_palette(pixels), refined_first, refined_second);
}

/// The whole way from what the decoder made of an image to the palette is
/// repeatable: with a `blend` that gives one centroid only, two outcomes
/// that are owed for the same decoded image and the same palette size are
/// the same.
pub proof fn lemma_outcome_unique<F: Fn(Lab, usize, Lab, usize) -> Lab>(
    blend: &F,
    decoded: Result<Vec<[u8; 4]>, ImageError>,
    palette_size: usize,
    first: Result<(Distil, Vec<[u8; 3]>), DistilError>,
    second: Result<(Distil, Vec<[u8; 3]>), DistilError>,
)
    requires
        single_valued(blend),
        processed_decoded(blend, decoded, palette_size, first),
        processed_decoded(blend, decoded, palette_size, second),
    ensures
        same_outcome(first, second),
{
    if let Ok(pixels) = decoded {
        if let Ok((distilled, colors)) = first {
            if let Ok((other, others)) = second {
                lemma_distilled_unique(blend, pixels@, distilled, other);
                assert(colors@ == others@);
            }
        } else {
            assert(first->Err_0 is Uninteresting);
            assert(second->Err_0 is Uninteresting);
        }
    }
}

} // verus!
