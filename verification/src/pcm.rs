//! Decoded audio: samples out of bytes, and the integer side of the spectrum's bands.

use vstd::prelude::*;
use crate::frame;

verus! {

/// The samples per second.
pub const SAMPLE_RATE: usize = 44100;

/// The samples that are analysed at a time.
pub const CHUNK_FRAMES: usize = 2048;

/// The bytes of that many samples.
pub const CHUNK_BYTES: usize = 4096;

/// The frequency bins that an analysis of `CHUNK_FRAMES` samples gives.
pub const CHUNK_BINS: usize = 1024;

/// The sample in two bytes, the low byte first.
pub open spec fn sample(low: u8, high: u8) -> int {
    if high < 128 {
        high * 256 + low
    } else {
        (high - 256) * 256 + low
    }
}

/// The samples in the bytes, two bytes for each; a byte that is left over counts for nothing.
pub open spec fn samples_in(bytes: Seq<u8>) -> Seq<i16> {
    Seq::new((bytes.len() / 2) as nat, |i: int| sample(bytes[2 * i], bytes[2 * i + 1]) as i16)
}

/// One turn of the reader of decoded audio: the samples to hand on, when a chunk was read, and
/// nothing, for the end, when the read failed.
pub fn pcm_thread(chunk: Option<&[u8]>) -> (samples: Option<Vec<i16>>)
    ensures
        match chunk {
            Some(bytes) => samples matches Some(s) && s@ == samples_in(bytes@),
            None => samples is None,
        },
        samples matches Some(s) ==> forall|i: int|
            0 <= i < s@.len() ==> #[trigger] s@[i] as int == sample(
                chunk.unwrap()@[2 * i],
                chunk.unwrap()@[2 * i + 1],
            ),
{
    let bytes: &[u8] = match chunk {
        Some(bytes) => bytes,
        None => return None,
    };
    let mut samples: Vec<i16> = Vec::new();
    let mut i: usize = 0;
    let len: usize = bytes.len();
    while i < len / 2
        invariant
            i <= len / 2,
            len == bytes@.len(),
            samples@.len() == i,
            forall|k: int|
                0 <= k < i ==> #[trigger] samples@[k] as int == sample(
                    bytes@[2 * k],
                    bytes@[2 * k + 1],
                ),
        decreases len - i,
    {
        let low: i16 = bytes[2 * i] as i16;
        let high: i16 = bytes[2 * i + 1] as i16;
        samples.push(
            if high < 128 {
                high * 256 + low
            } else {
                (high - 256) * 256 + low
            },
        );
        i = i + 1;
    }
    assert(samples@ =~= samples_in(bytes@));
    Some(samples)
}

/// The two bytes of a sample, the low byte first.
pub open spec fn bytes_of(s: i16) -> (u8, u8) {
    let n = if s < 0 {
        s + 65536
    } else {
        s as int
    };
    ((n % 256) as u8, (n / 256) as u8)
}

/// The bytes of the samples.
pub open spec fn encoded(samples: Seq<i16>) -> Seq<u8> {
    Seq::new(
        2 * samples.len(),
        |i: int|
            if i % 2 == 0 {
                bytes_of(samples[i / 2]).0
            } else {
                bytes_of(samples[i / 2]).1
            },
    )
}

/// Samples come back from the bytes that carry them.
pub proof fn law_samples_come_back(samples: Seq<i16>)
    ensures
        samples_in(encoded(samples)) == samples,
{
    let bytes = encoded(samples);
    assert forall|i: int| 0 <= i < samples.len() implies samples_in(bytes)[i] == samples[i] by {
        assert((2 * i) % 2 == 0 && (2 * i) / 2 == i);
        assert((2 * i + 1) % 2 == 1 && (2 * i + 1) / 2 == i);
        let (low, high) = bytes_of(samples[i]);
        assert(sample(low, high) == samples[i]);
    }
    assert(samples_in(bytes) =~= samples);
}

/// The samples that are analysed: the first of `samples`, and silence where there are none.
pub fn analysed(samples: &[i16]) -> (out: Vec<i16>)
    ensures
        out@ == Seq::new(
            CHUNK_FRAMES as nat,
            |i: int|
                if i < samples@.len() {
                    samples@[i]
                } else {
                    0
                },
        ),
{
    let mut out: Vec<i16> = Vec::new();
    while out.len() < CHUNK_FRAMES
        invariant
            out@.len() <= CHUNK_FRAMES,
            forall|i: int|
                0 <= i < out@.len() ==> #[trigger] out@[i] == (if i < samples@.len() {
                    samples@[i]
                } else {
                    0
                }),
        decreases CHUNK_FRAMES - out@.len(),
    {
        let i: usize = out.len();
        out.push(
            if i < samples.len() {
                samples[i]
            } else {
                0
            },
        );
    }
    assert(out@ =~= Seq::new(
        CHUNK_FRAMES as nat,
        |i: int|
            if i < samples@.len() {
                samples@[i]
            } else {
                0
            },
    ));
    out
}

/// The bins of a band between two edges, the end excluded: at least one bin, and none beyond
/// the spectrum.
pub open spec fn band_bins(from: usize, to: usize) -> (usize, usize) {
    let end = if to > from + 1 {
        to as int
    } else {
        from + 1
    };
    (
        from,
        (if end < CHUNK_BINS {
            end
        } else {
            CHUNK_BINS as int
        }) as usize,
    )
}

/// The bins of the bands between the edges: one band fewer than there are edges.
pub open spec fn bands(edges: Seq<usize>) -> Seq<(usize, usize)> {
    Seq::new(
        (if edges.len() > 0 {
            edges.len() - 1
        } else {
            0
        }) as nat,
        |i: int| band_bins(edges[i], edges[i + 1]),
    )
}

/// The bins of the bands between the edges, where an edge is the bin that a band's frequency
/// falls into.
pub fn set_bands(edges: &Vec<usize>) -> (bins: Vec<(usize, usize)>)
    requires
        forall|i: int| 0 <= i < edges@.len() - 1 ==> #[trigger] edges@[i] < usize::MAX,
    ensures
        bins@ == bands(edges@),
{
    let mut bins: Vec<(usize, usize)> = Vec::new();
    let mut i: usize = 1;
    while i < edges.len()
        invariant
            1 <= i,
            i <= edges@.len() || (i == 1 && edges@.len() == 0),
            forall|i: int| 0 <= i < edges@.len() - 1 ==> #[trigger] edges@[i] < usize::MAX,
            bins@.len() == i - 1,
            forall|k: int|
                0 <= k < bins@.len() ==> #[trigger] bins@[k] == band_bins(
                    edges@[k],
                    edges@[k + 1],
                ),
        decreases edges@.len() - i,
    {
        let from: usize = edges[i - 1];
        let to: usize = edges[i];
        let end: usize = if to > from + 1 {
            to
        } else {
            from + 1
        };
        bins.push(
            (
                from,
                if end < CHUNK_BINS {
                    end
                } else {
                    CHUNK_BINS
                },
            ),
        );
        i = i + 1;
    }
    assert(bins@ =~= bands(edges@));
    bins
}

/// The bands that the spectrum has now.
pub struct Bands {
    /// How many there are.
    pub n: usize,
    /// How many there may be; fewer where the screen has no room for them.
    pub max_n: usize,
    /// The bins of each, the end excluded.
    pub bins: Vec<(usize, usize)>,
}

impl Bands {
    /// What holds of all bands that `new` and `resize` give.
    pub open spec fn wf(self) -> bool {
        self.bins@.len() == self.n
    }

    /// No bands yet, and at most `max_n` later.
    pub fn new(max_n: usize) -> (b: Bands)
        ensures
            b.wf(),
            b.n == 0,
            b.max_n == max_n,
    {
        Bands { n: 0, max_n, bins: Vec::new() }
    }

    /// The number of bands that a screen of `w` columns and `h` rows asks for, where it is
    /// another than there are now; a screen that is too small to draw on asks for none.
    pub open spec fn refit_count(self, w: int, h: int) -> Option<int> {
        if !frame::too_small(w, h) && frame::bars_for(w, self.max_n as int) != self.n {
            Some(frame::bars_for(w, self.max_n as int))
        } else {
            None
        }
    }

    /// Says whether the bands are to be replaced for a screen, and by how many; they are kept,
    /// with their levels, as long as the number stays the same.
    pub fn refit(&self, w: u16, h: u16) -> (n: Option<usize>)
        requires
            frame::too_small(w as int, h as int) || self.max_n >= 1,
        ensures
            match n {
                Some(k) => self.refit_count(w as int, h as int) == Some(k as int),
                None => self.refit_count(w as int, h as int) is None,
            },
    {
        match frame::bar_area(w, h, self.max_n) {
            Some((k, _)) => if k != self.n {
                Some(k)
            } else {
                None
            },
            None => None,
        }
    }

    /// Replaces the bands by those between the edges.
    pub fn resize(&mut self, edges: &Vec<usize>)
        requires
            edges@.len() > 0,
            forall|i: int| 0 <= i < edges@.len() - 1 ==> #[trigger] edges@[i] < usize::MAX,
        ensures
            final(self).wf(),
            final(self).n == edges@.len() - 1,
            final(self).bins@ == bands(edges@),
            final(self).max_n == old(self).max_n,
    {
        self.bins = set_bands(edges);
        self.n = edges.len() - 1;
    }
}

/// Once the bands were replaced as a screen asks for, it asks for nothing more, and there are
/// as many as it has bars; a screen that asks for nothing already had them, unless it is too
/// small.
pub proof fn law_refit_settles(before: Bands, after: Bands, w: int, h: int)
    requires
        after.max_n == before.max_n,
        match before.refit_count(w, h) {
            Some(k) => after.n == k,
            None => after.n == before.n,
        },
    ensures
        after.refit_count(w, h) is None,
        !frame::too_small(w, h) ==> after.n == frame::bars_for(w, after.max_n as int),
        frame::too_small(w, h) ==> after.n == before.n,
{
}

/// Some edges, at least two, that rise from inside the spectrum to its end at most.
pub open spec fn rising(edges: Seq<usize>) -> bool {
    &&& edges.len() >= 2
    &&& forall|j: int, k: int| 0 <= j <= k < edges.len() ==> edges[j] <= edges[k]
    &&& forall|j: int| 0 <= j < edges.len() - 1 ==> #[trigger] edges[j] < CHUNK_BINS
    &&& edges.last() <= CHUNK_BINS
}

/// Between rising edges each band has a bin and stays within the spectrum, from the first edge
/// on. The first band begins at the first edge, the last one reaches the last edge, and each
/// begins no later than where the one before it ends.
pub proof fn law_bands_cover(edges: Seq<usize>)
    requires
        rising(edges),
    ensures
        bands(edges).len() == edges.len() - 1,
        forall|i: int|
            0 <= i < bands(edges).len() ==> edges[0] <= (#[trigger] bands(edges)[i]).0 < bands(
                edges,
            )[i].1 <= CHUNK_BINS,
        bands(edges)[0].0 == edges[0],
        bands(edges).last().1 >= edges.last(),
        forall|i: int, j: int|
            0 <= i && j == i + 1 && j < bands(edges).len() ==> (#[trigger] bands(edges)[i]).0 <= (
            #[trigger] bands(edges)[j]).0 <= bands(edges)[i].1,
{
}

/// Between rising edges no bin is left out: every one from the first edge to the last is in
/// some band.
pub proof fn law_no_bin_is_left_out(edges: Seq<usize>, bin: int)
    requires
        rising(edges),
        edges[0] <= bin < edges.last(),
    ensures
        exists|i: int|
            0 <= i < bands(edges).len() && (#[trigger] bands(edges)[i]).0 <= bin < bands(
                edges,
            )[i].1,
{
    lemma_band_of(edges, bin, edges.len() - 1);
}

/// A bin before the edge `n` is in a band before that edge.
proof fn lemma_band_of(edges: Seq<usize>, bin: int, n: int)
    requires
        rising(edges),
        1 <= n < edges.len(),
        edges[0] <= bin < edges[n],
    ensures
        exists|i: int|
            0 <= i < n && (#[trigger] bands(edges)[i]).0 <= bin < bands(edges)[i].1,
    decreases n,
{
    if edges[n - 1] <= bin {
        assert(bands(edges)[n - 1].0 <= bin < bands(edges)[n - 1].1);
    } else {
        lemma_band_of(edges, bin, n - 1);
    }
}

/// Each two bytes that were read are one sample, the low byte first and the high byte with the
/// sign, in order, and no sample is left out; a byte that is left over counts for nothing. When
/// the read failed there are no samples.
pub proof fn law_samples_are_two_bytes_each(
    bytes: &[u8],
    samples: Option<Vec<i16>>,
    none: Option<Vec<i16>>,
    i: int,
)
    requires
        call_ensures(pcm_thread, (Some(bytes),), samples),
        call_ensures(pcm_thread, (None::<&[u8]>,), none),
    ensures
        none is None,
        samples is Some,
        2 * samples.unwrap()@.len() <= bytes@.len() <= 2 * samples.unwrap()@.len() + 1,
        0 <= i < samples.unwrap()@.len() ==> ({
            let low = bytes@[2 * i] as int;
            let high = bytes@[2 * i + 1] as int;
            let s = samples.unwrap()@[i] as int;
            &&& high <= 127 ==> s == low + 256 * high
            &&& high >= 128 ==> s + 65536 == low + 256 * high
        }),
{
}

/// A chunk is 2048 samples of two bytes each, at 44100 a second, and its spectrum has half as
/// many bins.
pub proof fn law_chunks_and_bins()
    ensures
        SAMPLE_RATE == 44100 && CHUNK_FRAMES == 2048,
        CHUNK_BYTES == 2 * CHUNK_FRAMES,
        2 * CHUNK_BINS == CHUNK_FRAMES,
{
}

/// Always 2048 samples are analysed: those that there are, in order, then silence.
pub proof fn law_silence_fills_up(samples: &[i16], out: Vec<i16>, i: int)
    requires
        call_ensures(analysed, (samples,), out),
        0 <= i < 2048,
    ensures
        out@.len() == 2048,
        i < samples@.len() ==> out@[i] == samples@[i],
        i >= samples@.len() ==> out@[i] == 0,
{
}

/// Between two edges there is one band: from the first edge to before the second, or one bin
/// where the second is not beyond the first, and never past the 1024 bins of the spectrum.
pub proof fn law_band_is_between_its_edges(edges: &Vec<usize>, bins: Vec<(usize, usize)>, i: int)
    requires
        call_ensures(set_bands, (edges,), bins),
    ensures
        edges@.len() == 0 ==> bins@.len() == 0,
        edges@.len() > 0 ==> bins@.len() == edges@.len() - 1,
        0 <= i < edges@.len() - 1 ==> {
            &&& bins@[i].0 == edges@[i]
            &&& edges@[i] < edges@[i + 1] <= 1024 ==> bins@[i].1 == edges@[i + 1]
            &&& edges@[i + 1] <= edges@[i] < 1024 ==> bins@[i].1 == edges@[i] + 1
            &&& edges@[i] >= 1024 || edges@[i + 1] >= 1024 ==> bins@[i].1 == 1024
        },
{
}

/// The bands are replaced by those between the edges, whatever they were, and how many there may
/// be stays as it was.
pub proof fn law_resize_replaces_the_bands(b: &mut Bands, edges: &Vec<usize>, i: int)
    requires
        call_ensures(Bands::resize, (b, edges), ()),
        edges@.len() > 0,
    ensures
        final(b).max_n == old(b).max_n,
        final(b).n == edges@.len() - 1,
        final(b).bins@.len() == edges@.len() - 1,
        0 <= i < edges@.len() - 1 ==> {
            let band = final(b).bins@[i];
            &&& band.0 == edges@[i]
            &&& edges@[i] < edges@[i + 1] <= 1024 ==> band.1 == edges@[i + 1]
            &&& edges@[i + 1] <= edges@[i] < 1024 ==> band.1 == edges@[i] + 1
            &&& edges@[i] >= 1024 || edges@[i + 1] >= 1024 ==> band.1 == 1024
        },
{
}

/// There are no bands at first, and at most as many as were asked for later.
pub proof fn law_no_bands_at_first(max_n: usize, b: Bands)
    requires
        call_ensures(Bands::new, (max_n,), b),
    ensures
        b.n == 0 && b.bins@.len() == 0 && b.max_n == max_n,
{
}

/// The bands are to be replaced when there are not as many as the screen has room for: three
/// columns for each, two more free, and no more than there may be. On a screen of fewer than
/// six rows or ten columns they are kept.
pub proof fn law_refit_follows_the_screen(b: &Bands, w: u16, h: u16, n: Option<usize>)
    requires
        call_ensures(Bands::refit, (b, w, h), n),
        b.max_n >= 1,
    ensures
        h < 6 || w < 10 ==> n is None,
        h >= 6 && w >= 10 ==> {
            let bars = match n {
                Some(k) => k as int,
                None => b.n as int,
            };
            &&& n is Some ==> n.unwrap() != b.n
            &&& 1 <= bars <= b.max_n
            &&& 3 * bars + 2 <= w
            &&& bars == b.max_n || 3 * (bars + 1) + 2 > w
        },
{
}

} // verus!
