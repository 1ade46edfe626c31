//! Mapping of sector ranges onto the pixels of a flattened canvas, and the
//! two ways of colouring a chunk of events on it.
use vstd::prelude::*;

use crate::trace::{drawn_end_of, ending_fits, ending_sector_of, Event, READ, WRITE};

verus! {

/// Maps sectors in `[start_sector, end_sector]` onto a canvas of
/// `width` by `height` pixels laid out row after row.
pub struct Visualizer {
    pub start_sector: u64,
    pub end_sector: u64,
    pub width: u16,
    pub height: u16,
}

impl Visualizer {
    /// A sector range in order and a canvas of at least one pixel.
    pub open spec fn wf(&self) -> bool {
        self.start_sector <= self.end_sector && self.width >= 1 && self.height >= 1
    }

    /// Number of pixels on the canvas.
    pub open spec fn pixel_count(&self) -> int {
        self.width as int * self.height as int
    }

    /// The pixel index of sector `s`: its offset in the sector range scaled
    /// onto the indices `0..pixel_count - 1` and rounded down. Sectors outside
    /// the range are taken to its nearer edge; a range of a single sector
    /// maps everything to pixel 0.
    pub open spec fn index_of(&self, s: int) -> int {
        if self.end_sector == self.start_sector {
            0
        } else {
            let c = if s < self.start_sector {
                self.start_sector as int
            } else if s > self.end_sector {
                self.end_sector as int
            } else {
                s
            };
            (c - self.start_sector) * (self.pixel_count() - 1) / (self.end_sector
                - self.start_sector)
        }
    }

    /// The half-open pixel range an event is drawn over: from the index of
    /// its first sector to the index of its drawn end, and never empty.
    pub open spec fn range_of(&self, e: Event) -> (int, int) {
        let s = self.index_of(e.sector as int);
        let t = self.index_of(drawn_end_of(e.sector, e.bytes));
        (s, if t > s { t } else { s + 1 })
    }

    /// Whether an event is drawn over pixel `p`.
    pub open spec fn covers(&self, e: Event, p: int) -> bool {
        self.range_of(e).0 <= p < self.range_of(e).1
    }

    pub fn new(start_sector: u64, end_sector: u64, width: u16, height: u16) -> (r: Self)
        requires
            start_sector <= end_sector,
            width >= 1,
            height >= 1,
        ensures
            r.wf(),
            r.start_sector == start_sector,
            r.end_sector == end_sector,
            r.width == width,
            r.height == height,
    {
        Visualizer { start_sector, end_sector, width, height }
    }

    proof fn lemma_pixel_count(&self)
        requires
            self.wf(),
        ensures
            1 <= self.pixel_count() <= 4294836225,
    {
        let w = self.width as int;
        let h = self.height as int;
        assert(1 <= w * h <= 4294836225) by (nonlinear_arith)
            requires
                1 <= w <= 65535,
                1 <= h <= 65535,
        ;
    }

    /// Every sector has its index on the canvas.
    pub proof fn lemma_index_in_canvas(&self, s: int)
        requires
            self.wf(),
        ensures
            0 <= self.index_of(s) < self.pixel_count(),
    {
        self.lemma_pixel_count();
        if self.end_sector != self.start_sector {
            let lo = self.start_sector as int;
            let hi = self.end_sector as int;
            let c = if s < lo {
                lo
            } else if s > hi {
                hi
            } else {
                s
            };
            let m = self.pixel_count() - 1;
            vstd::arithmetic::mul::lemma_mul_inequality(c - lo, hi - lo, m);
            vstd::arithmetic::mul::lemma_mul_nonnegative(c - lo, m);
            vstd::arithmetic::div_mod::lemma_div_is_ordered(0, (c - lo) * m, hi - lo);
            vstd::arithmetic::div_mod::lemma_div_is_ordered((c - lo) * m, (hi - lo) * m, hi - lo);
            vstd::arithmetic::mul::lemma_mul_is_commutative(hi - lo, m);
            vstd::arithmetic::div_mod::lemma_div_multiples_vanish(m, hi - lo);
        }
    }

    /// Every event is drawn over at least one pixel, and inside the canvas.
    pub proof fn lemma_range_nonempty(&self, e: Event)
        requires
            self.wf(),
        ensures
            0 <= self.range_of(e).0 < self.range_of(e).1 <= self.pixel_count(),
    {
        self.lemma_index_in_canvas(e.sector as int);
        self.lemma_index_in_canvas(drawn_end_of(e.sector, e.bytes));
    }

    fn scaled_index(&self, s: u128) -> (r: usize)
        requires
            self.wf(),
        ensures
            r == self.index_of(s as int),
    {
        proof {
            self.lemma_index_in_canvas(s as int);
            self.lemma_pixel_count();
        }
        if self.end_sector == self.start_sector {
            return 0;
        }
        let lo = self.start_sector as u128;
        let hi = self.end_sector as u128;
        let c = if s < lo {
            lo
        } else if s > hi {
            hi
        } else {
            s
        };
        let max_index = self.width as u128 * self.height as u128 - 1;
        proof {
            let a = (c - lo) as int;
            let m = max_index as int;
            assert(a * m <= 18446744073709551615 * 4294836225) by (nonlinear_arith)
                requires
                    0 <= a <= 18446744073709551615,
                    0 <= m <= 4294836225,
            ;
        }
        let q = (c - lo) * max_index / (hi - lo);
        q as usize
    }

    /// The half-open pixel range `(start, end)` that `event` is drawn over.
    pub fn event_to_range(&self, event: &Event) -> (r: (usize, usize))
        requires
            self.wf(),
        ensures
            r.0 == self.range_of(*event).0,
            r.1 == self.range_of(*event).1,
            r.0 < r.1 <= self.pixel_count(),
    {
        proof {
            self.lemma_range_nonempty(*event);
            self.lemma_pixel_count();
        }
        let sector = event.sector as u128;
        let ending = sector + (event.bytes as u128 + 511) / 512;
        let drawn_end = if ending > sector + 1 {
            ending
        } else {
            sector + 1
        };
        let start_index = self.scaled_index(sector);
        let end_index = self.scaled_index(drawn_end);
        if end_index > start_index {
            (start_index, end_index)
        } else {
            (start_index, start_index + 1)
        }
    }
}

/// Pixel value of a pixel that no read or write is drawn over.
pub const IDLE_SHADE: u8 = 255;
/// Pixel value of a pixel last drawn over by a read.
pub const READ_SHADE: u8 = 170;
/// Pixel value of a pixel last drawn over by a write.
pub const WRITE_SHADE: u8 = 10;

/// The shade an event paints with: writes before reads, and none for an
/// event that is neither.
pub open spec fn shade_of(e: Event) -> Option<u8> {
    if e.category.bits & WRITE != 0 {
        Some(WRITE_SHADE)
    } else if e.category.bits & READ != 0 {
        Some(READ_SHADE)
    } else {
        None
    }
}

/// The largest value of `s`, or 2 where every value is below 2.
pub open spec fn is_peak(s: Seq<usize>, m: usize) -> bool {
    &&& m >= 2
    &&& forall|p: int| 0 <= p < s.len() ==> s[p] <= m
    &&& (m == 2 || exists|p: int| 0 <= p < s.len() && s[p] == m)
}

/// One frame of the heatmap: how many events of a chunk are drawn over each
/// pixel, and the scale's top frequency.
pub struct HeatmapFrame {
    pub width: u16,
    pub height: u16,
    pub frequencies: Vec<usize>,
    pub max_frequency: usize,
}

/// One frame of the categorical view: one shade per pixel.
pub struct CategoricalFrame {
    pub width: u16,
    pub height: u16,
    pub pixels: Vec<u8>,
}

/// The largest value of `buffer`, at least 2.
fn peak_frequency(buffer: &Vec<usize>) -> (r: usize)
    ensures
        is_peak(buffer@, r),
{
    let mut m: usize = 2;
    let mut i: usize = 0;
    while i < buffer.len()
        invariant
            i <= buffer@.len(),
            m >= 2,
            forall|p: int| 0 <= p < i ==> buffer@[p] <= m,
            m == 2 || exists|p: int| 0 <= p < i && buffer@[p] == m,
        decreases buffer@.len() - i,
    {
        if buffer[i] > m {
            m = buffer[i];
        }
        i = i + 1;
    }
    m
}

fn shade(e: &Event) -> (r: Option<u8>)
    ensures
        r == shade_of(*e),
{
    if e.category.intersects(WRITE) {
        Some(WRITE_SHADE)
    } else if e.category.intersects(READ) {
        Some(READ_SHADE)
    } else {
        None
    }
}

impl Visualizer {
    /// How many events of `s` are drawn over pixel `p`.
    pub open spec fn frequency(&self, s: Seq<Event>, p: int) -> nat
        decreases s.len(),
    {
        if s.len() == 0 {
            0
        } else {
            self.frequency(s.drop_last(), p) + if self.covers(s.last(), p) {
                1nat
            } else {
                0nat
            }
        }
    }

    /// The shade of pixel `p` after painting the events of `s` in order on an
    /// idle canvas: that of the last read or write drawn over it.
    pub open spec fn painted(&self, s: Seq<Event>, p: int) -> u8
        decreases s.len(),
    {
        if s.len() == 0 {
            IDLE_SHADE
        } else if self.covers(s.last(), p) && shade_of(s.last()) is Some {
            shade_of(s.last()).unwrap()
        } else {
            self.painted(s.drop_last(), p)
        }
    }

    proof fn lemma_frequency_bound(&self, s: Seq<Event>, p: int)
        ensures
            self.frequency(s, p) <= s.len(),
        decreases s.len(),
    {
        if s.len() > 0 {
            self.lemma_frequency_bound(s.drop_last(), p);
        }
    }

    /// Counts, for each pixel, the events of `events` drawn over it, and
    /// finds the top of the frequency scale.
    pub fn events_to_heatmap_frame(&self, events: &[Event]) -> (r: HeatmapFrame)
        requires
            self.wf(),
        ensures
            r.width == self.width,
            r.height == self.height,
            r.frequencies@.len() == self.pixel_count(),
            forall|p: int|
                0 <= p < self.pixel_count() ==> r.frequencies@[p] == self.frequency(events@, p),
            is_peak(r.frequencies@, r.max_frequency),
    {
        proof {
            self.lemma_pixel_count();
        }
        let n: usize = self.width as usize * self.height as usize;
        let mut buffer: Vec<usize> = Vec::new();
        while buffer.len() < n
            invariant
                buffer@.len() <= n,
                forall|p: int| 0 <= p < buffer@.len() ==> buffer@[p] == 0,
            decreases n - buffer@.len(),
        {
            buffer.push(0);
        }
        let mut i: usize = 0;
        while i < events.len()
            invariant
                self.wf(),
                n == self.pixel_count(),
                i <= events@.len(),
                buffer@.len() == n,
                forall|p: int|
                    0 <= p < n ==> buffer@[p] == self.frequency(events@.take(i as int), p),
            decreases events@.len() - i,
        {
            assert(events@.take(0) =~= Seq::<Event>::empty());
            let (a, b) = self.event_to_range(&events[i]);
            let mut j: usize = a;
            while j < b
                invariant
                    self.wf(),
                    a <= j <= b <= n,
                    i < events@.len(),
                    events@.len() == events.len(),
                    buffer@.len() == n,
                    forall|p: int|
                        0 <= p < n ==> buffer@[p] == self.frequency(events@.take(i as int), p) + if a
                            <= p < j {
                            1nat
                        } else {
                            0nat
                        },
                decreases b - j,
            {
                proof {
                    self.lemma_frequency_bound(events@.take(i as int), j as int);
                    assert(buffer@[j as int] <= i);
                }
                buffer.set(j, buffer[j] + 1);
                j = j + 1;
            }
            proof {
                let t = events@.take(i + 1);
                assert(t.drop_last() =~= events@.take(i as int));
                assert(t.last() == events@[i as int]);
            }
            i = i + 1;
        }
        assert(events@.take(events@.len() as int) =~= events@);
        let max_frequency = peak_frequency(&buffer);
        HeatmapFrame { width: self.width, height: self.height, frequencies: buffer, max_frequency }
    }

    /// Paints the events of `events` in order on an idle canvas, each over
    /// its pixel range: writes in the write shade, reads in the read shade,
    /// and other events not at all.
    pub fn events_to_categorical_frame(&self, events: &[Event]) -> (r: CategoricalFrame)
        requires
            self.wf(),
        ensures
            r.width == self.width,
            r.height == self.height,
            r.pixels@.len() == self.pixel_count(),
            forall|p: int|
                0 <= p < self.pixel_count() ==> r.pixels@[p] == self.painted(events@, p),
    {
        proof {
            self.lemma_pixel_count();
        }
        let n: usize = self.width as usize * self.height as usize;
        let mut pixels: Vec<u8> = Vec::new();
        while pixels.len() < n
            invariant
                pixels@.len() <= n,
                forall|p: int| 0 <= p < pixels@.len() ==> pixels@[p] == IDLE_SHADE,
            decreases n - pixels@.len(),
        {
            pixels.push(IDLE_SHADE);
        }
        let mut i: usize = 0;
        assert(events@.take(0) =~= Seq::<Event>::empty());
        while i < events.len()
            invariant
                self.wf(),
                n == self.pixel_count(),
                i <= events@.len(),
                pixels@.len() == n,
                forall|p: int|
                    0 <= p < n ==> pixels@[p] == self.painted(events@.take(i as int), p),
            decreases events@.len() - i,
        {
            let (a, b) = self.event_to_range(&events[i]);
            let ghost before = pixels@;
            match shade(&events[i]) {
                Some(c) => {
                    let mut j: usize = a;
                    while j < b
                        invariant
                            a <= j <= b <= n,
                            pixels@.len() == n,
                            before.len() == n,
                            forall|p: int|
                                0 <= p < n ==> pixels@[p] == if a <= p < j {
                                    c
                                } else {
                                    before[p]
                                },
                        decreases b - j,
                    {
                        pixels.set(j, c);
                        j = j + 1;
                    }
                },
                None => {},
            }
            proof {
                let t = events@.take(i + 1);
                assert(t.drop_last() =~= events@.take(i as int));
                assert(t.last() == events@[i as int]);
            }
            i = i + 1;
        }
        assert(events@.take(events@.len() as int) =~= events@);
        CategoricalFrame { width: self.width, height: self.height, pixels }
    }
}

/// Why a set of events cannot be laid out on a canvas.
#[derive(Clone, Copy, Debug, PartialEq, Eq, Structural)]
pub enum RenderError {
    /// There are no events to draw.
    NoEvents,
    /// An event's ending sector does not fit in 64 bits.
    SectorOverflow,
}

/// The sector range spanned by `events`: from the lowest first sector to the
/// highest ending sector.
pub fn sector_bounds(events: &[Event]) -> (r: Result<(u64, u64), RenderError>)
    ensures
        match r {
            Ok((lo, hi)) => {
                &&& events@.len() > 0
                &&& forall|i: int| 0 <= i < events@.len() ==> ending_fits(#[trigger] events@[i])
                &&& forall|i: int| 0 <= i < events@.len() ==> lo <= #[trigger] events@[i].sector
                &&& exists|i: int| 0 <= i < events@.len() && events@[i].sector == lo
                &&& forall|i: int|
                    0 <= i < events@.len() ==> ending_sector_of(
                        #[trigger] events@[i].sector,
                        events@[i].bytes,
                    ) <= hi
                &&& exists|i: int|
                    0 <= i < events@.len() && ending_sector_of(events@[i].sector, events@[i].bytes)
                        == hi
                &&& lo <= hi
            },
            Err(RenderError::NoEvents) => events@.len() == 0,
            Err(RenderError::SectorOverflow) => {
                &&& events@.len() > 0
                &&& exists|i: int| 0 <= i < events@.len() && !ending_fits(events@[i])
            },
        },
{
    if events.len() == 0 {
        return Err(RenderError::NoEvents);
    }
    let mut lo: u64 = events[0].sector;
    let mut hi: u64 = 0;
    let mut i: usize = 0;
    while i < events.len()
        invariant
            0 < events@.len(),
            i <= events@.len(),
            forall|k: int| 0 <= k < i ==> ending_fits(#[trigger] events@[k]),
            forall|k: int| 0 <= k < i ==> lo <= #[trigger] events@[k].sector,
            exists|k: int| 0 <= k < events@.len() && events@[k].sector == lo,
            forall|k: int|
                0 <= k < i ==> ending_sector_of(#[trigger] events@[k].sector, events@[k].bytes)
                    <= hi,
            i == 0 ==> hi == 0,
            i > 0 ==> exists|k: int|
                0 <= k < i && ending_sector_of(events@[k].sector, events@[k].bytes) == hi,
        decreases events@.len() - i,
    {
        let e = &events[i];
        let sectors = (e.bytes as u64 + 511) / 512;
        if e.sector > u64::MAX - sectors {
            assert(!ending_fits(events@[i as int]));
            return Err(RenderError::SectorOverflow);
        }
        let ending = e.ending_sector();
        if e.sector < lo {
            lo = e.sector;
        }
        if ending > hi {
            hi = ending;
        }
        i = i + 1;
    }
    proof {
        let k = choose|k: int| 0 <= k < events@.len() && events@[k].sector == lo;
        assert(lo <= ending_sector_of(events@[k].sector, events@[k].bytes) <= hi);
    }
    Ok((lo, hi))
}

/// Splits `len` items into consecutive chunks of `chunk_size`, the last of
/// which may be shorter: the `(start, end)` bounds of each chunk, in order.
pub fn chunk_bounds(len: usize, chunk_size: usize) -> (r: Vec<(usize, usize)>)
    requires
        chunk_size > 0,
    ensures
        len == 0 ==> r@.len() == 0,
        len > 0 ==> r@.len() > 0 && r@[0].0 == 0 && r@.last().1 == len,
        forall|k: int| 0 <= k < r@.len() ==> (#[trigger] r@[k]).0 < r@[k].1 <= len,
        forall|k: int|
            0 <= k < r@.len() - 1 ==> (#[trigger] r@[k]).1 == r@[k + 1].0 && r@[k].1 - r@[k].0 == chunk_size,
        r@.len() > 0 ==> r@.last().1 - r@.last().0 <= chunk_size,
        0 < len <= chunk_size ==> r@.len() == 1,
{
    let mut r: Vec<(usize, usize)> = Vec::new();
    let mut start: usize = 0;
    while start < len
        invariant
            chunk_size > 0,
            start <= len,
            r@.len() == 0 ==> start == 0,
            r@.len() > 0 ==> r@[0].0 == 0 && r@.last().1 == start,
            forall|k: int| 0 <= k < r@.len() ==> (#[trigger] r@[k]).0 < r@[k].1 <= len,
            forall|k: int|
                0 <= k < r@.len() - 1 ==> (#[trigger] r@[k]).1 == r@[k + 1].0 && r@[k].1 - r@[k].0
                    == chunk_size,
            r@.len() > 0 ==> r@.last().1 - r@.last().0 <= chunk_size,
            r@.len() > 0 && r@.last().1 < len ==> r@.last().1 - r@.last().0 == chunk_size,
            len <= chunk_size ==> r@.len() <= 1,
        decreases len - start,
    {
        let end = if len - start > chunk_size {
            start + chunk_size
        } else {
            len
        };
        r.push((start, end));
        start = end;
    }
    r
}

} // verus!
