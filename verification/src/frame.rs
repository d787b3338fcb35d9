//! The frame: a grid of charxels (a character and a colour) and, behind each
//! cell, `N` shade samples kept with their depths.
use vstd::prelude::*;

use crate::binary32::{
    bits_less_than, is_nan, lemma_less_than_asymmetric, lemma_less_than_irreflexive,
    lemma_less_than_transitive, lemma_less_than_trichotomy, less_than, MAX_FINITE_BITS,
    POSITIVE_ZERO_BITS,
};
use crate::depth::{
    drawn, lemma_drawn_push, lemma_run_fits_same_shape, lemma_run_plotted_outside,
    lemma_run_plotted_shape, lemma_row_sites_step, lemma_sites_so_far_prefix,
    lemma_scan_sites_step, plotted, row_sites, run_fits, run_plotted, run_views, same_shape,
    scan_sites, site_slot,
};
use crate::scan::{
    answers, lemma_drawn_only_nearer, only_nearer_drawn, runs_fit, scanned, stopped_at,
};
use crate::shader::{scale_glyph, SimpleShader};

verus! {

/// An RGB colour.
pub type Rgb = (u8, u8, u8);

/// A character cell as it is printed: the glyph and its colour.
pub type Charxel = (char, (u8, u8, u8));

/// The contents of a frame buffer, row after row.
pub type Framebuffer = Vec<(char, (u8, u8, u8))>;

/// The charxel of an empty cell: a space in black.
pub open spec fn blank_charxel() -> Charxel {
    (' ', (0u8, 0u8, 0u8))
}

/// The colour of a cell that no triangle has covered.
pub open spec fn black() -> Rgb {
    (0u8, 0u8, 0u8)
}

/// One shade sample: the depth `z` and the `shade` as the bits of binary32
/// numbers, and the colour of the triangle that drew it, if any did.
#[derive(Clone, Copy, Debug)]
pub struct Pixel {
    pub z: u32,
    pub shade: u32,
    pub color: Option<(u8, u8, u8)>,
}

impl Pixel {
    /// The empty sample: infinitely far (the largest finite depth), unlit
    /// (shade zero) and uncoloured.
    pub open spec fn spec_blank() -> Pixel {
        Pixel { z: MAX_FINITE_BITS, shade: POSITIVE_ZERO_BITS, color: None }
    }

    /// Makes the empty sample.
    pub fn blank() -> (p: Self)
        ensures
            p == Pixel::spec_blank(),
    {
        Pixel { z: MAX_FINITE_BITS, shade: POSITIVE_ZERO_BITS, color: None }
    }
}

/// The sample that `max_by` on the shade picks from a non-empty run of
/// samples: scanning left to right, a later sample replaces the one kept
/// unless the kept one is strictly brighter; so among equal shades the last
/// wins, and a NaN shade on either side lets the later sample in.
pub open spec fn brightest(s: Seq<Pixel>) -> Pixel
    decreases s.len(),
{
    if s.len() <= 1 {
        s[0]
    } else {
        let kept = brightest(s.drop_last());
        if less_than(s.last().shade, kept.shade) {
            kept
        } else {
            s.last()
        }
    }
}

/// The colour a cell is shown in: the centre sample's colour when it has
/// one, otherwise the colour of the brightest sample, otherwise black.
pub open spec fn dominant(s: Seq<Pixel>) -> Rgb {
    match s[(s.len() / 2) as int].color {
        Some(c) => c,
        None => match brightest(s).color {
            Some(c) => c,
            None => black(),
        },
    }
}

/// The sample `max_by` on the shade picks from a run without NaN shades is
/// the last of the brightest: no sample is strictly brighter, and every
/// later sample is strictly darker.
pub proof fn lemma_brightest_is_last_maximum(s: Seq<Pixel>)
    requires
        s.len() > 0,
        forall|k: int| 0 <= k < s.len() ==> !is_nan(#[trigger] s[k].shade),
    ensures
        exists|j: int|
            0 <= j < s.len() && s[j] == brightest(s) && (forall|k: int|
                0 <= k < s.len() ==> !less_than(s[j].shade, #[trigger] s[k].shade)) && (forall|k: int|
                j < k < s.len() ==> less_than(#[trigger] s[k].shade, s[j].shade)),
    decreases s.len(),
{
    if s.len() == 1 {
        assert(s[0] == brightest(s));
    } else {
        let front = s.drop_last();
        let last = s.last();
        assert forall|k: int| 0 <= k < front.len() implies !is_nan(#[trigger] front[k].shade) by {
            assert(front[k] == s[k]);
        }
        lemma_brightest_is_last_maximum(front);
        let kept = brightest(front);
        let j = choose|j: int|
            0 <= j < front.len() && front[j] == kept && (forall|k: int|
                0 <= k < front.len() ==> !less_than(front[j].shade, #[trigger] front[k].shade)) && (
            forall|k: int| j < k < front.len() ==> less_than(#[trigger] front[k].shade, front[j].shade));
        assert(s[s.len() - 1] == last);
        if less_than(last.shade, kept.shade) {
            assert(brightest(s) == kept);
            assert(s[j] == kept);
            assert forall|k: int| 0 <= k < s.len() implies !less_than(s[j].shade, #[trigger] s[k].shade) by {
                if k < front.len() {
                    assert(front[k] == s[k]);
                } else {
                    lemma_less_than_asymmetric(last.shade, kept.shade);
                }
            }
            assert forall|k: int| j < k < s.len() implies less_than(#[trigger] s[k].shade, s[j].shade) by {
                if k < front.len() {
                    assert(front[k] == s[k]);
                }
            }
        } else {
            assert(brightest(s) == last);
            lemma_less_than_trichotomy(last.shade, kept.shade);
            assert forall|k: int| 0 <= k < s.len() implies !less_than(
                s[s.len() - 1].shade,
                #[trigger] s[k].shade,
            ) by {
                if k < front.len() {
                    assert(front[k] == s[k]);
                    if less_than(last.shade, s[k].shade) && less_than(kept.shade, last.shade) {
                        lemma_less_than_transitive(kept.shade, last.shade, s[k].shade);
                    }
                } else {
                    lemma_less_than_irreflexive(last.shade);
                }
            }
            assert(exists|j: int|
                0 <= j < s.len() && s[j] == brightest(s) && (forall|k: int|
                    0 <= k < s.len() ==> !less_than(s[j].shade, #[trigger] s[k].shade)) && (forall|k: int|
                    j < k < s.len() ==> less_than(#[trigger] s[k].shade, s[j].shade))) by {
                assert(s[s.len() - 1] == brightest(s));
            }
        }
    }
}

/// For every run, NaN shades included, the sample `max_by` on the shade
/// picks is the first one that every later sample is strictly darker than.
pub proof fn lemma_brightest_is_first_dominating(s: Seq<Pixel>)
    requires
        s.len() > 0,
    ensures
        exists|j: int|
            #![trigger s[j]]
            0 <= j < s.len() && s[j] == brightest(s) && (forall|k: int|
                j < k < s.len() ==> less_than(#[trigger] s[k].shade, s[j].shade)) && (forall|i: int|
                #![trigger s[i]]
                0 <= i < j ==> exists|k: int|
                    i < k < s.len() && !less_than(#[trigger] s[k].shade, s[i].shade)),
    decreases s.len(),
{
    if s.len() == 1 {
        assert(s[0] == brightest(s));
    } else {
        let front = s.drop_last();
        let last = s.last();
        let n = s.len() - 1;
        lemma_brightest_is_first_dominating(front);
        let kept = brightest(front);
        let j = choose|j: int|
            #![trigger front[j]]
            0 <= j < front.len() && front[j] == kept && (forall|k: int|
                j < k < front.len() ==> less_than(#[trigger] front[k].shade, front[j].shade)) && (
            forall|i: int|
                #![trigger front[i]]
                0 <= i < j ==> exists|k: int|
                    i < k < front.len() && !less_than(#[trigger] front[k].shade, front[i].shade));
        assert(s[n] == last);
        assert(s[j] == front[j]);
        assert forall|i: int| #![trigger s[i]] 0 <= i < j implies exists|k: int|
            i < k < s.len() && !less_than(#[trigger] s[k].shade, s[i].shade) by {
            let k = choose|k: int| i < k < front.len() && !less_than(#[trigger] front[k].shade, front[i].shade);
            assert(front[k] == s[k] && front[i] == s[i]);
        }
        if less_than(last.shade, kept.shade) {
            assert(brightest(s) == kept);
            assert forall|k: int| j < k < s.len() implies less_than(#[trigger] s[k].shade, s[j].shade) by {
                if k < n {
                    assert(front[k] == s[k]);
                }
            }
        } else {
            assert(brightest(s) == last);
            assert forall|i: int| #![trigger s[i]] 0 <= i < n implies exists|k: int|
                i < k < s.len() && !less_than(#[trigger] s[k].shade, s[i].shade) by {
                if i > j {
                    assert(front[i] == s[i]);
                    assert(less_than(s[i].shade, kept.shade));
                    if less_than(last.shade, s[i].shade) {
                        lemma_less_than_transitive(last.shade, s[i].shade, kept.shade);
                    }
                    assert(!less_than(s[n].shade, s[i].shade));
                } else if i == j {
                    assert(!less_than(s[n].shade, s[i].shade));
                }
            }
            assert(s[n] == brightest(s));
        }
    }
}

/// The colour of a cell: the centre sample's colour when it has one. When
/// it has none and no shade of the cell is a NaN, it is the colour (black
/// for none) of the last of the brightest samples of the whole cell: no
/// sample of the cell is strictly brighter, and every later one is strictly
/// darker.
pub proof fn lemma_dominant_law(s: Seq<Pixel>)
    requires
        s.len() > 0,
    ensures
        s[(s.len() / 2) as int].color matches Some(c) ==> dominant(s) == c,
        s[(s.len() / 2) as int].color is None && (forall|k: int|
            0 <= k < s.len() ==> !is_nan(#[trigger] s[k].shade)) ==> exists|j: int|
            #![trigger s[j]]
            0 <= j < s.len() && dominant(s) == (match s[j].color {
                Some(c) => c,
                None => (0u8, 0u8, 0u8),
            }) && (forall|k: int| 0 <= k < s.len() ==> !less_than(s[j].shade, #[trigger] s[k].shade))
                && (forall|k: int| j < k < s.len() ==> less_than(#[trigger] s[k].shade, s[j].shade)),
{
    if s[(s.len() / 2) as int].color is None && (forall|k: int|
        0 <= k < s.len() ==> !is_nan(#[trigger] s[k].shade)) {
        lemma_brightest_is_last_maximum(s);
        let j = choose|j: int|
            0 <= j < s.len() && s[j] == brightest(s) && (forall|k: int|
                0 <= k < s.len() ==> !less_than(s[j].shade, #[trigger] s[k].shade)) && (forall|k: int|
                j < k < s.len() ==> less_than(#[trigger] s[k].shade, s[j].shade));
        assert(dominant(s) == (match s[j].color {
            Some(c) => c,
            None => (0u8, 0u8, 0u8),
        }));
    }
}

/// The colour of a cell whose centre sample has no colour, whatever the
/// shades (NaNs included): the colour (black for none) of the first sample
/// that every later sample of the whole cell is strictly darker than.
pub proof fn lemma_dominant_any_shades(s: Seq<Pixel>)
    requires
        s.len() > 0,
    ensures
        s[(s.len() / 2) as int].color is None ==> exists|j: int|
            #![trigger s[j]]
            0 <= j < s.len() && dominant(s) == (match s[j].color {
                Some(c) => c,
                None => (0u8, 0u8, 0u8),
            }) && (forall|k: int| j < k < s.len() ==> less_than(#[trigger] s[k].shade, s[j].shade))
                && (forall|i: int|
                #![trigger s[i]]
                0 <= i < j ==> exists|k: int|
                    i < k < s.len() && !less_than(#[trigger] s[k].shade, s[i].shade)),
{
    if s[(s.len() / 2) as int].color is None {
        lemma_brightest_is_first_dominating(s);
        let j = choose|j: int|
            #![trigger s[j]]
            0 <= j < s.len() && s[j] == brightest(s) && (forall|k: int|
                j < k < s.len() ==> less_than(#[trigger] s[k].shade, s[j].shade)) && (forall|i: int|
                #![trigger s[i]]
                0 <= i < j ==> exists|k: int|
                    i < k < s.len() && !less_than(#[trigger] s[k].shade, s[i].shade));
        assert(dominant(s) == (match s[j].color {
            Some(c) => c,
            None => (0u8, 0u8, 0u8),
        }));
    }
}

/// The colour a cell with samples `point` is shown in (see [`dominant`]).
pub fn dominant_color(point: &[Pixel]) -> (c: Rgb)
    requires
        point@.len() > 0,
    ensures
        c == dominant(point@),
{
    let n = point.len();
    let centre = point[n / 2];
    match centre.color {
        Some(c) => c,
        None => {
            let mut kept = point[0];
            let mut i: usize = 1;
            while i < n
                invariant
                    1 <= i <= n,
                    n == point@.len(),
                    kept == brightest(point@.take(i as int)),
                decreases n - i,
            {
                assert(point@.take(i + 1).drop_last() =~= point@.take(i as int));
                let next = point[i];
                if !bits_less_than(next.shade, kept.shade) {
                    kept = next;
                }
                i = i + 1;
            }
            assert(point@.take(n as int) =~= point@);
            match kept.color {
                Some(c) => c,
                None => (0, 0, 0),
            }
        },
    }
}

/// What the terminal shows of a frame buffer `fb` of `width` columns, rows
/// `0..rows`: each row's charxels left to right, each row followed by a line
/// break (`None`) when `newlines` is set.
pub open spec fn displayed(fb: Seq<Charxel>, width: int, rows: nat, newlines: bool) -> Seq<
    Option<Charxel>,
>
    decreases rows,
{
    if rows == 0 {
        Seq::empty()
    } else {
        let y = rows - 1;
        displayed(fb, width, (rows - 1) as nat, newlines) + Seq::new(
            width as nat,
            |x: int| Some(fb[x + y * width]),
        ) + if newlines {
            seq![None]
        } else {
            Seq::empty()
        }
    }
}

/// A frame of `width` by `height` cells, each with `N` shade samples.
pub struct Frame<const N: usize> {
    pub width: usize,
    pub height: usize,
    pub frame_buffer: Vec<(char, (u8, u8, u8))>,
    pub shader_buffer: Vec<Vec<Pixel>>,
}

impl<const N: usize> Frame<N> {
    /// The number of cells.
    pub open spec fn cells(&self) -> int {
        self.width * self.height
    }

    /// The samples of every slot of the sample buffer.
    pub open spec fn samples(&self) -> Seq<Seq<Pixel>> {
        self.shader_buffer@.map_values(|r: Vec<Pixel>| r@)
    }

    /// Both buffers hold one entry per cell, and every cell `N` samples.
    pub open spec fn wf(&self) -> bool {
        &&& self.frame_buffer@.len() == self.cells()
        &&& self.samples().len() == self.cells()
        &&& forall|i: int| 0 <= i < self.samples().len() ==> #[trigger] self.samples()[i].len() == N
    }

    /// Every charxel is blank and every sample empty.
    pub open spec fn is_blank(&self) -> bool {
        &&& forall|i: int|
            0 <= i < self.frame_buffer@.len() ==> #[trigger] self.frame_buffer@[i]
                == blank_charxel()
        &&& forall|i: int, j: int|
            0 <= i < self.samples().len() && 0 <= j < self.samples()[i].len()
                ==> #[trigger] self.samples()[i][j] == Pixel::spec_blank()
    }

    /// The cell at column `x` of row `y` in the frame buffer.
    pub open spec fn spec_charxel_at(&self, x: int, y: int) -> Charxel {
        self.frame_buffer@[x + y * self.width]
    }

    /// The sample slot that column `x`, row `y` and half-cell `segment`
    /// address in the sample buffer: each column steps two slots.
    pub open spec fn slot(&self, x: int, y: int, segment: int) -> int {
        y * self.width + x * 2 + segment
    }

    /// A blank frame of `width` by `height` cells.
    pub fn blank(width: usize, height: usize) -> (f: Self)
        requires
            width * height <= usize::MAX,
        ensures
            f.width == width,
            f.height == height,
            f.wf(),
            f.is_blank(),
    {
        let cells = width * height;
        let (frame_buffer, shader_buffer) = Self::blank_buffers(cells);
        Frame { width, height, frame_buffer, shader_buffer }
    }

    /// A blank frame buffer and sample buffer of `cells` entries each.
    fn blank_buffers(cells: usize) -> (r: (Vec<(char, (u8, u8, u8))>, Vec<Vec<Pixel>>))
        ensures
            r.0@.len() == cells,
            r.1@.len() == cells,
            forall|i: int| 0 <= i < cells ==> #[trigger] r.0@[i] == blank_charxel(),
            forall|i: int| 0 <= i < cells ==> #[trigger] r.1@[i]@.len() == N,
            forall|i: int, j: int|
                0 <= i < cells && 0 <= j < N ==> #[trigger] r.1@[i]@[j] == Pixel::spec_blank(),
    {
        let mut samples: Vec<Pixel> = Vec::new();
        let mut k: usize = 0;
        while k < N
            invariant
                k <= N,
                samples@.len() == k,
                forall|j: int| 0 <= j < k ==> #[trigger] samples@[j] == Pixel::spec_blank(),
            decreases N - k,
        {
            samples.push(Pixel::blank());
            k = k + 1;
        }
        let mut frame_buffer: Vec<(char, (u8, u8, u8))> = Vec::new();
        let mut shader_buffer: Vec<Vec<Pixel>> = Vec::new();
        let mut i: usize = 0;
        while i < cells
            invariant
                i <= cells,
                samples@.len() == N,
                forall|j: int| 0 <= j < N ==> #[trigger] samples@[j] == Pixel::spec_blank(),
                frame_buffer@.len() == i,
                shader_buffer@.len() == i,
                forall|a: int| 0 <= a < i ==> #[trigger] frame_buffer@[a] == blank_charxel(),
                forall|a: int| 0 <= a < i ==> #[trigger] shader_buffer@[a]@ == samples@,
            decreases cells - i,
        {
            frame_buffer.push((' ', (0, 0, 0)));
            let row = Self::copy_samples(&samples);
            shader_buffer.push(row);
            i = i + 1;
        }
        assert forall|a: int| 0 <= a < cells implies #[trigger] shader_buffer@[a]@.len() == N by {
            assert(shader_buffer@[a]@ == samples@);
        }
        assert forall|a: int, j: int| 0 <= a < cells && 0 <= j < N implies #[trigger] shader_buffer@[
            a
        ]@[j] == Pixel::spec_blank() by {
            assert(shader_buffer@[a]@ == samples@);
        }
        (frame_buffer, shader_buffer)
    }

    /// A copy of a run of samples.
    fn copy_samples(samples: &Vec<Pixel>) -> (r: Vec<Pixel>)
        ensures
            r@ == samples@,
    {
        let mut r: Vec<Pixel> = Vec::new();
        let mut j: usize = 0;
        while j < samples.len()
            invariant
                j <= samples@.len(),
                r@ == samples@.take(j as int),
            decreases samples@.len() - j,
        {
            r.push(samples[j]);
            j = j + 1;
            assert(r@ =~= samples@.take(j as int));
        }
        assert(samples@.take(samples@.len() as int) =~= samples@);
        r
    }

    /// Blanks both buffers, keeping the frame's size.
    pub fn clear(&mut self)
        requires
            old(self).width * old(self).height <= usize::MAX,
        ensures
            final(self).width == old(self).width,
            final(self).height == old(self).height,
            final(self).wf(),
            final(self).is_blank(),
    {
        let cells = self.width * self.height;
        let (frame_buffer, shader_buffer) = Self::blank_buffers(cells);
        self.frame_buffer = frame_buffer;
        self.shader_buffer = shader_buffer;
    }

    /// Sets every charxel of the frame buffer to `charxel`; the samples stay.
    pub fn fill(&mut self, charxel: (char, (u8, u8, u8)))
        ensures
            final(self).width == old(self).width,
            final(self).height == old(self).height,
            final(self).shader_buffer@ == old(self).shader_buffer@,
            final(self).frame_buffer@.len() == old(self).frame_buffer@.len(),
            forall|i: int|
                0 <= i < final(self).frame_buffer@.len() ==> #[trigger] final(self).frame_buffer@[i]
                    == charxel,
    {
        let n = self.frame_buffer.len();
        let mut i: usize = 0;
        while i < n
            invariant
                i <= n,
                n == self.frame_buffer@.len(),
                self.width == old(self).width,
                self.height == old(self).height,
                self.shader_buffer@ == old(self).shader_buffer@,
                forall|a: int| 0 <= a < i ==> #[trigger] self.frame_buffer@[a] == charxel,
            decreases n - i,
        {
            self.frame_buffer.set(i, charxel);
            i = i + 1;
        }
    }

    /// The charxel at column `x` of row `y`, which is entry `x + y * width`
    /// of the frame buffer.
    pub fn charxel_at(&self, x: usize, y: usize) -> (c: Charxel)
        requires
            x + y * self.width < self.frame_buffer@.len(),
        ensures
            c == self.spec_charxel_at(x as int, y as int),
    {
        let len = self.frame_buffer.len();
        proof {
            lemma_product_bound(y as int, self.width as int);
            assert(x + y * self.width < len);
        }
        self.frame_buffer[x + y * self.width]
    }

    /// The order in which the frame is written to the terminal: row by
    /// row, each cell at `x + y * width`, with a line break (`None`) after
    /// each row when `newlines` is set.
    pub fn display_order(&self, newlines: bool) -> (out: Vec<Option<Charxel>>)
        requires
            self.frame_buffer@.len() >= self.width * self.height,
        ensures
            out@ == displayed(self.frame_buffer@, self.width as int, self.height as nat, newlines),
    {
        let w = self.width;
        let h = self.height;
        let n = self.frame_buffer.len();
        let mut out: Vec<Option<Charxel>> = Vec::new();
        let mut y: usize = 0;
        while y < h
            invariant
                y <= h,
                w == self.width,
                h == self.height,
                n == self.frame_buffer@.len(),
                n >= w * h,
                out@ == displayed(self.frame_buffer@, w as int, y as nat, newlines),
            decreases h - y,
        {
            let ghost before = out@;
            let mut x: usize = 0;
            while x < w
                invariant
                    x <= w,
                    y < h,
                    w == self.width,
                    h == self.height,
                    n == self.frame_buffer@.len(),
                    n >= w * h,
                    before == displayed(self.frame_buffer@, w as int, y as nat, newlines),
                    out@ == before + Seq::new(
                        x as nat,
                        |j: int| Some(self.frame_buffer@[j + y * w]),
                    ),
                decreases w - x,
            {
                proof {
                    lemma_cell_in_grid(x as int, y as int, w as int, h as int);
                }
                let c = self.frame_buffer[x + y * w];
                out.push(Some(c));
                x = x + 1;
                assert(out@ =~= before + Seq::new(
                    x as nat,
                    |j: int| Some(self.frame_buffer@[j + y * w]),
                ));
            }
            if newlines {
                out.push(None);
            }
            y = y + 1;
            assert(out@ =~= displayed(self.frame_buffer@, w as int, y as nat, newlines));
        }
        out
    }

    /// The sample slot addressed by column `x`, row `y` and half-cell
    /// `segment`, if it lies inside the sample buffer.
    pub fn cell_index(&self, x: usize, y: usize, segment: usize) -> (r: Option<usize>)
        ensures
            r == (if 0 <= self.slot(x as int, y as int, segment as int) < self.samples().len() {
                Some(self.slot(x as int, y as int, segment as int) as usize)
            } else {
                None
            }),
            r matches Some(c) ==> c as int == self.slot(x as int, y as int, segment as int),
    {
        let len = self.shader_buffer.len();
        let row = y.checked_mul(self.width);
        match row {
            None => {
                proof {
                    lemma_product_bound(y as int, self.width as int);
                }
                None
            },
            Some(row) => {
                let col = x.checked_mul(2);
                match col {
                    None => None,
                    Some(col) => match row.checked_add(col) {
                        None => None,
                        Some(s) => match s.checked_add(segment) {
                            None => None,
                            Some(slot) => {
                                if slot < len {
                                    Some(slot)
                                } else {
                                    None
                                }
                            },
                        },
                    },
                }
            },
        }
    }

    /// The depth test: writes `pixel` into sample `index` of slot `cell`
    /// exactly when its depth is strictly nearer than the stored one, and
    /// says whether it did.
    pub fn plot(&mut self, cell: usize, index: usize, pixel: Pixel) -> (written: bool)
        requires
            cell < old(self).samples().len(),
            index < old(self).samples()[cell as int].len(),
        ensures
            written == less_than(pixel.z, old(self).samples()[cell as int][index as int].z),
            final(self).samples() == plotted(old(self).samples(), cell as int, index as int, pixel),
            final(self).width == old(self).width,
            final(self).height == old(self).height,
            final(self).frame_buffer@ == old(self).frame_buffer@,
    {
        let stored = self.shader_buffer[cell][index].z;
        if bits_less_than(pixel.z, stored) {
            self.shader_buffer[cell][index] = pixel;
            assert(self.samples() =~= old(self).samples().update(
                cell as int,
                old(self).samples()[cell as int].update(index as int, pixel),
            ));
            true
        } else {
            false
        }
    }

    /// Whether the covered samples of `run` fit the slot `cell` (`None`
    /// for a slot outside the buffer, where only a run without covered
    /// samples fits).
    fn fits(&self, cell: Option<usize>, run: &Vec<Option<Pixel>>) -> (r: bool)
        ensures
            r == (match cell {
                Some(c) => run_fits(self.samples(), c as int, run@),
                None => forall|j: int| 0 <= j < run@.len() ==> (#[trigger] run@[j]) is None,
            }),
    {
        let n = self.shader_buffer.len();
        let mut j: usize = 0;
        while j < run.len()
            invariant
                j <= run@.len(),
                n == self.samples().len(),
                forall|k: int|
                    0 <= k < j && (#[trigger] run@[k]) is Some ==> match cell {
                        Some(c) => 0 <= c < n && k < self.samples()[c as int].len(),
                        None => false,
                    },
            decreases run@.len() - j,
        {
            if run[j].is_some() {
                match cell {
                    None => {
                        return false;
                    },
                    Some(c) => {
                        if c >= n {
                            return false;
                        }
                        assert(self.shader_buffer@[c as int]@ == self.samples()[c as int]);
                        if j >= self.shader_buffer[c].len() {
                            return false;
                        }
                    },
                }
            }
            j = j + 1;
        }
        true
    }

    /// Draws a run of samples at slot `cell`: each covered sample `j` goes
    /// through the depth test at sample `j` of the slot.
    fn plot_run(&mut self, cell: usize, run: &Vec<Option<Pixel>>)
        requires
            run_fits(old(self).samples(), cell as int, run@),
        ensures
            final(self).samples() == run_plotted(old(self).samples(), cell as int, run@),
            final(self).width == old(self).width,
            final(self).height == old(self).height,
            final(self).frame_buffer@ == old(self).frame_buffer@,
    {
        let mut j: usize = 0;
        while j < run.len()
            invariant
                j <= run@.len(),
                run_fits(old(self).samples(), cell as int, run@),
                self.samples() == run_plotted(old(self).samples(), cell as int, run@.take(j as int)),
                self.width == old(self).width,
                self.height == old(self).height,
                self.frame_buffer@ == old(self).frame_buffer@,
            decreases run@.len() - j,
        {
            proof {
                lemma_run_plotted_shape(old(self).samples(), cell as int, run@.take(j as int));
            }
            assert(run@.take(j + 1).drop_last() =~= run@.take(j as int));
            match run[j] {
                Some(p) => {
                    assert(run@[j as int] is Some);
                    self.plot(cell, j, p);
                },
                None => {},
            }
            j = j + 1;
        }
        assert(run@.take(run@.len() as int) =~= run@);
    }

    /// The scan of a triangle's window: for every site of the columns
    /// `x0..x1` and rows `y0..y1`, in scan order (see [`scan_sites`]),
    /// asks `sample` for the run of sub-samples of that site (a covered
    /// sub-sample is `Some`) and draws it at the site's slot through the
    /// depth test. Stops with the site as error at the first site whose
    /// covered sub-samples do not fit the buffer.
    pub fn draw_samples<F>(&mut self, x0: usize, x1: usize, y0: usize, y1: usize, sample: F) -> (r:
        Result<(), (usize, usize, usize)>) where F: Fn(usize, usize, usize) -> Vec<Option<Pixel>>
        requires
            forall|x: usize, y: usize, seg: usize| sample.requires((x, y, seg)),
        ensures
            final(self).width == old(self).width,
            final(self).height == old(self).height,
            final(self).frame_buffer@ == old(self).frame_buffer@,
            same_shape(final(self).samples(), old(self).samples()),
            only_nearer_drawn(
                sample,
                old(self).samples(),
                old(self).width as int,
                scan_sites(x0, x1, y0, y1),
                final(self).samples(),
            ),
            r is Ok ==> scanned(
                sample,
                old(self).samples(),
                old(self).width as int,
                scan_sites(x0, x1, y0, y1),
                final(self).samples(),
            ),
            r matches Err(site) ==> stopped_at(
                sample,
                old(self).samples(),
                old(self).width as int,
                scan_sites(x0, x1, y0, y1),
                site,
                final(self).samples(),
            ),
    {
        let ghost s0 = self.samples();
        let ghost w = self.width as int;
        let ghost mut runs: Seq<Vec<Option<Pixel>>> = Seq::empty();
        let ghost mut sites: Seq<(usize, usize, usize)> = Seq::empty();
        let mut y: usize = y0;
        while y < y1
            invariant
                y0 <= y,
                y0 < y1 ==> y <= y1,
                y1 <= y0 ==> y == y0,
                forall|a: usize, b: usize, c: usize| sample.requires((a, b, c)),
                w == self.width,
                self.width == old(self).width,
                self.height == old(self).height,
                self.frame_buffer@ == old(self).frame_buffer@,
                s0 == old(self).samples(),
                same_shape(self.samples(), s0),
                sites == scan_sites(x0, x1, y0, y),
                runs.len() == sites.len(),
                forall|k: int|
                    0 <= k < runs.len() ==> call_ensures(sample, sites[k], #[trigger] runs[k])
                        && run_fits(s0, site_slot(w, sites[k]), runs[k]@),
                self.samples() == drawn(s0, w, sites, run_views(runs)),
            decreases y1 - y,
        {
            let ghost done_rows = sites;
            let mut x: usize = x0;
            while x < x1
                invariant
                    x0 <= x,
                    x0 < x1 ==> x <= x1,
                    x1 <= x0 ==> x == x0,
                    y0 <= y < y1,
                    forall|a: usize, b: usize, c: usize| sample.requires((a, b, c)),
                    w == self.width,
                    self.width == old(self).width,
                    self.height == old(self).height,
                    self.frame_buffer@ == old(self).frame_buffer@,
                    s0 == old(self).samples(),
                    same_shape(self.samples(), s0),
                    done_rows == scan_sites(x0, x1, y0, y),
                    sites == done_rows + row_sites(x0, x, y),
                    runs.len() == sites.len(),
                    forall|k: int|
                        0 <= k < runs.len() ==> call_ensures(sample, sites[k], #[trigger] runs[k])
                            && run_fits(s0, site_slot(w, sites[k]), runs[k]@),
                    self.samples() == drawn(s0, w, sites, run_views(runs)),
                decreases x1 - x,
            {
                let mut seg: usize = 0;
                while seg < 2
                    invariant
                        seg <= 2,
                        x0 <= x < x1,
                        y0 <= y < y1,
                        forall|a: usize, b: usize, c: usize| sample.requires((a, b, c)),
                        w == self.width,
                        self.width == old(self).width,
                        self.height == old(self).height,
                        self.frame_buffer@ == old(self).frame_buffer@,
                        s0 == old(self).samples(),
                        same_shape(self.samples(), s0),
                        done_rows == scan_sites(x0, x1, y0, y),
                        sites == done_rows + row_sites(x0, x, y) + Self::half_cells(x, y, seg),
                        runs.len() == sites.len(),
                        forall|k: int|
                            0 <= k < runs.len() ==> call_ensures(
                                sample,
                                sites[k],
                                #[trigger] runs[k],
                            ) && run_fits(s0, site_slot(w, sites[k]), runs[k]@),
                        self.samples() == drawn(s0, w, sites, run_views(runs)),
                    decreases 2 - seg,
                {
                    let ghost before = self.samples();
                    let run = sample(x, y, seg);
                    let cell = self.cell_index(x, y, seg);
                    proof {
                        lemma_product_bound(y as int, w);
                        lemma_run_fits_same_shape(before, s0, site_slot(w, (x, y, seg)), run@);
                    }
                    if !self.fits(cell, &run) {
                        proof {
                            lemma_sites_so_far_prefix(x0, x1, y0, y1, x, y, seg);
                            assert(Self::half_cells(x, y, seg) =~= seq![(x, y, 0usize), (x, y, 1usize)].take(seg as int));
                            let next = sites.push((x, y, seg));
                            let scan = scan_sites(x0, x1, y0, y1);
                            assert(next =~= scan_sites(x0, x1, y0, y) + row_sites(x0, x, y) + seq![(x, y, 0usize), (x, y, 1usize)].take(seg as int + 1));
                            assert(next.is_prefix_of(scan));
                            assert(scan.take(sites.len() as int) =~= sites);
                            assert(scan[sites.len() as int] == next[sites.len() as int]);
                            let slot = site_slot(w, (x, y, seg));
                            if cell is None {
                                let j = choose|j: int| 0 <= j < run@.len() && (#[trigger] run@[j]) is Some;
                                assert(!(0 <= slot < before.len()));
                                assert(!run_fits(before, slot, run@));
                            }
                            assert(!run_fits(s0, slot, run@));
                            assert(call_ensures(sample, (x, y, seg), run));
                            assert(answers(sample, scan.take(runs.len() as int), runs));
                            assert(runs_fit(s0, w, scan.take(runs.len() as int), runs));
                            lemma_drawn_only_nearer(sample, s0, w, scan, sites.len() as int, runs);
                        }
                        return Err((x, y, seg));
                    }
                    proof {
                        lemma_run_plotted_shape(before, site_slot(w, (x, y, seg)), run@);
                    }
                    match cell {
                        Some(c) => {
                            self.plot_run(c, &run);
                        },
                        None => {
                            proof {
                                lemma_run_plotted_outside(before, site_slot(w, (x, y, seg)), run@);
                            }
                        },
                    }
                    proof {
                        assert(self.samples() == run_plotted(before, site_slot(w, (x, y, seg)), run@));
                        assert(same_shape(self.samples(), before));
                        assert forall|c: int| 0 <= c < s0.len() implies #[trigger] self.samples()[c].len()
                            == s0[c].len() by {
                            assert(before[c].len() == s0[c].len());
                        }
                        lemma_drawn_push(s0, w, sites, runs, (x, y, seg), run);
                        sites = sites.push((x, y, seg));
                        runs = runs.push(run);
                        assert(done_rows + row_sites(x0, x, y) + Self::half_cells(x, y, (seg + 1) as usize)
                            =~= sites);
                    }
                    seg = seg + 1;
                }
                proof {
                    lemma_row_sites_step(x0, x, y);
                    assert(sites =~= done_rows + row_sites(x0, (x + 1) as usize, y));
                }
                x = x + 1;
            }
            proof {
                if x1 <= x0 {
                    assert(row_sites(x0, x, y) =~= Seq::<(usize, usize, usize)>::empty());
                    assert(row_sites(x0, x1, y) =~= Seq::<(usize, usize, usize)>::empty());
                }
                assert(row_sites(x0, x, y) == row_sites(x0, x1, y));
                lemma_scan_sites_step(x0, x1, y0, y);
                assert(sites =~= scan_sites(x0, x1, y0, (y + 1) as usize));
            }
            y = y + 1;
        }
        if y1 <= y0 {
            assert(scan_sites(x0, x1, y0, y) =~= Seq::<(usize, usize, usize)>::empty());
            assert(scan_sites(x0, x1, y0, y1) =~= Seq::<(usize, usize, usize)>::empty());
        }
        proof {
            let scan = scan_sites(x0, x1, y0, y1);
            assert(sites == scan);
            assert(answers(sample, scan, runs));
            assert(runs_fit(s0, w, scan, runs));
            assert(scan.take(scan.len() as int) =~= scan);
            lemma_drawn_only_nearer(sample, s0, w, scan, scan.len() as int, runs);
        }
        Ok(())
    }

    /// The half-cell sites `(x, y, 0)`, ... of column `x` before segment
    /// `seg`.
    pub open spec fn half_cells(x: usize, y: usize, seg: usize) -> Seq<(usize, usize, usize)> {
        if seg == 0 {
            Seq::empty()
        } else if seg == 1 {
            seq![(x, y, 0usize)]
        } else {
            seq![(x, y, 0usize), (x, y, 1usize)]
        }
    }

    /// Writes the shaded frame: cell `i` gets the glyph `glyphs[i]` that the
    /// shader chose for its samples, in the cell's dominant colour.
    pub fn render(&mut self, glyphs: &Vec<char>)
        requires
            N > 0 || old(self).samples().len() == 0,
            glyphs@.len() == old(self).samples().len(),
            old(self).frame_buffer@.len() >= old(self).samples().len(),
            forall|i: int|
                0 <= i < old(self).samples().len() ==> #[trigger] old(self).samples()[i].len() == N,
        ensures
            final(self).width == old(self).width,
            final(self).height == old(self).height,
            final(self).samples() == old(self).samples(),
            final(self).frame_buffer@.len() == old(self).frame_buffer@.len(),
            forall|i: int|
                0 <= i < old(self).samples().len() ==> #[trigger] final(self).frame_buffer@[i]
                    == (glyphs@[i], dominant(old(self).samples()[i])),
            forall|i: int|
                old(self).samples().len() <= i < old(self).frame_buffer@.len()
                    ==> #[trigger] final(self).frame_buffer@[i] == old(self).frame_buffer@[i],
    {
        let n = self.shader_buffer.len();
        let mut i: usize = 0;
        while i < n
            invariant
                i <= n,
                n == self.samples().len(),
                N > 0 || n == 0,
                glyphs@.len() == n,
                self.width == old(self).width,
                self.height == old(self).height,
                self.samples() == old(self).samples(),
                self.frame_buffer@.len() == old(self).frame_buffer@.len(),
                old(self).frame_buffer@.len() >= n,
                forall|a: int| 0 <= a < n ==> #[trigger] self.samples()[a].len() == N,
                forall|a: int|
                    0 <= a < i ==> #[trigger] self.frame_buffer@[a] == (
                        glyphs@[a],
                        dominant(old(self).samples()[a]),
                    ),
                forall|a: int|
                    i <= a < self.frame_buffer@.len() ==> #[trigger] self.frame_buffer@[a] == old(
                        self,
                    ).frame_buffer@[a],
            decreases n - i,
        {
            assert(self.shader_buffer@[i as int]@ == self.samples()[i as int]);
            let color = dominant_color(self.shader_buffer[i].as_slice());
            self.frame_buffer.set(i, (glyphs[i], color));
            i = i + 1;
        }
    }

    /// Writes the frame shaded by the threshold shader, one sample per
    /// cell: cell `i` gets the glyph of its sample's shade on the scale, in
    /// the cell's dominant colour.
    pub fn render_simple(&mut self, shader: &SimpleShader)
        requires
            N == 1,
            old(self).frame_buffer@.len() >= old(self).samples().len(),
            forall|i: int|
                0 <= i < old(self).samples().len() ==> #[trigger] old(self).samples()[i].len() == N,
        ensures
            final(self).width == old(self).width,
            final(self).height == old(self).height,
            final(self).samples() == old(self).samples(),
            final(self).frame_buffer@.len() == old(self).frame_buffer@.len(),
            forall|i: int|
                0 <= i < old(self).samples().len() ==> #[trigger] final(self).frame_buffer@[i] == (
                    scale_glyph(old(self).samples()[i][0].shade),
                    dominant(old(self).samples()[i]),
                ),
            forall|i: int|
                old(self).samples().len() <= i < old(self).frame_buffer@.len()
                    ==> #[trigger] final(self).frame_buffer@[i] == old(self).frame_buffer@[i],
    {
        let n = self.shader_buffer.len();
        let mut glyphs: Vec<char> = Vec::new();
        let mut i: usize = 0;
        while i < n
            invariant
                i <= n,
                n == self.samples().len(),
                N == 1,
                glyphs@.len() == i,
                forall|a: int| 0 <= a < n ==> #[trigger] self.samples()[a].len() == N,
                forall|a: int|
                    0 <= a < i ==> #[trigger] glyphs@[a] == scale_glyph(self.samples()[a][0].shade),
            decreases n - i,
        {
            assert(self.shader_buffer@[i as int]@ == self.samples()[i as int]);
            let glyph = shader.glyph(self.shader_buffer[i][0].shade);
            glyphs.push(glyph);
            i = i + 1;
        }
        self.render(&glyphs);
    }
}

/// A display of `rows` rows of `width` cells is `rows * width` charxels
/// long, plus one line break per row when `newlines` is set.
pub proof fn lemma_displayed_len(fb: Seq<Charxel>, width: nat, rows: nat, newlines: bool)
    ensures
        displayed(fb, width as int, rows, newlines).len() == rows * (width + if newlines {
            1nat
        } else {
            0nat
        }),
    decreases rows,
{
    if rows > 0 {
        lemma_displayed_len(fb, width, (rows - 1) as nat, newlines);
        let k: nat = if newlines {
            1nat
        } else {
            0nat
        };
        assert(((rows - 1) as nat) * (width + k) + width + k == rows * (width + k))
            by (nonlinear_arith)
            requires
                rows > 0,
        ;
    } else {
        let k: nat = if newlines {
            1nat
        } else {
            0nat
        };
        assert(rows * (width + k) == 0) by (nonlinear_arith)
            requires
                rows == 0,
        ;
    }
}

/// A cell `(x, y)` of a `width` by `height` grid lies inside it.
proof fn lemma_cell_in_grid(x: int, y: int, width: int, height: int)
    requires
        0 <= x < width,
        0 <= y < height,
    ensures
        0 <= x + y * width < width * height,
{
    assert(y * width <= (height - 1) * width) by (nonlinear_arith)
        requires
            0 <= y < height,
            0 <= width,
    ;
    assert((height - 1) * width + width == width * height) by (nonlinear_arith);
    assert(0 <= y * width) by (nonlinear_arith)
        requires
            0 <= y,
            0 <= width,
    ;
}

/// A product of two naturals is not negative.
proof fn lemma_product_bound(a: int, b: int)
    requires
        0 <= a,
        0 <= b,
    ensures
        0 <= a * b,
{
    assert(0 <= a * b) by (nonlinear_arith)
        requires
            0 <= a,
            0 <= b,
    ;
}

} // verus!
