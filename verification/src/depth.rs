//! The depth buffer: the depth test as a function on sample buffers, the
//! scan of a triangle's window site by site, and the laws that make the
//! buffer keep the nearest fragment whatever the drawing order.
use vstd::prelude::*;

use crate::binary32::{
    is_nan, less_than, lemma_less_than_asymmetric, lemma_less_than_transitive,
    lemma_less_than_trichotomy, same_number,
};
use crate::frame::Pixel;

verus! {

/// The sample buffer `s` after the depth test of `p` at sample `index` of
/// slot `cell`: `p` replaces the stored sample exactly when it is strictly
/// nearer; an address outside the buffer changes nothing.
pub open spec fn plotted(s: Seq<Seq<Pixel>>, cell: int, index: int, p: Pixel) -> Seq<Seq<Pixel>> {
    if 0 <= cell < s.len() && 0 <= index < s[cell].len() && less_than(p.z, s[cell][index].z) {
        s.update(cell, s[cell].update(index, p))
    } else {
        s
    }
}

/// The sample buffer `s` after the depth tests of the fragments `frags`, in
/// order; a fragment is the slot, the sample index and the sample.
pub open spec fn plotted_all(s: Seq<Seq<Pixel>>, frags: Seq<(int, int, Pixel)>) -> Seq<Seq<Pixel>>
    decreases frags.len(),
{
    if frags.len() == 0 {
        s
    } else {
        let f = frags.last();
        plotted(plotted_all(s, frags.drop_last()), f.0, f.1, f.2)
    }
}

/// The sample sites of row `y`, columns `x0..x1` in order, both half-cells
/// (segment 0, then 1) of each column.
pub open spec fn row_sites(x0: usize, x1: usize, y: usize) -> Seq<(usize, usize, usize)>
    decreases x1,
{
    if x1 <= x0 {
        Seq::empty()
    } else {
        let x = (x1 - 1) as usize;
        row_sites(x0, x, y) + seq![(x, y, 0usize), (x, y, 1usize)]
    }
}

/// The sample sites of the window `x0..x1` by `y0..y1` in scan order: row
/// by row, and within a row as [`row_sites`].
pub open spec fn scan_sites(x0: usize, x1: usize, y0: usize, y1: usize) -> Seq<
    (usize, usize, usize),
>
    decreases y1,
{
    if y1 <= y0 {
        Seq::empty()
    } else {
        let y = (y1 - 1) as usize;
        scan_sites(x0, x1, y0, y) + row_sites(x0, x1, y)
    }
}

/// The slot that the site `(x, y, segment)` addresses in a frame `width`
/// columns wide.
pub open spec fn site_slot(width: int, site: (usize, usize, usize)) -> int {
    site.1 * width + site.0 * 2 + site.2
}

/// The covered samples of a run fit: each `Some` at index `j` addresses an
/// existing sample `j` of slot `cell`.
pub open spec fn run_fits(s: Seq<Seq<Pixel>>, cell: int, run: Seq<Option<Pixel>>) -> bool {
    forall|j: int|
        0 <= j < run.len() && (#[trigger] run[j]) is Some ==> 0 <= cell < s.len() && j < s[cell].len()
}

/// The buffer `s` after the depth tests of the covered samples of a run at
/// slot `cell`, sample `j` of the run going to sample `j` of the slot.
pub open spec fn run_plotted(s: Seq<Seq<Pixel>>, cell: int, run: Seq<Option<Pixel>>) -> Seq<
    Seq<Pixel>,
>
    decreases run.len(),
{
    if run.len() == 0 {
        s
    } else {
        let before = run_plotted(s, cell, run.drop_last());
        match run.last() {
            Some(p) => plotted(before, cell, run.len() - 1, p),
            None => before,
        }
    }
}

/// The buffer `s` after drawing, site by site, the runs `runs[k]` at the
/// sites `sites[k]` of a frame `width` columns wide.
pub open spec fn drawn(
    s: Seq<Seq<Pixel>>,
    width: int,
    sites: Seq<(usize, usize, usize)>,
    runs: Seq<Seq<Option<Pixel>>>,
) -> Seq<Seq<Pixel>>
    decreases sites.len(),
{
    if sites.len() == 0 || runs.len() == 0 {
        s
    } else {
        run_plotted(
            drawn(s, width, sites.drop_last(), runs.drop_last()),
            site_slot(width, sites.last()),
            runs.last(),
        )
    }
}

/// The fragments of a run drawn at slot `cell`: its covered samples, each
/// at the sample index it has in the run.
pub open spec fn run_fragments(cell: int, run: Seq<Option<Pixel>>) -> Seq<(int, int, Pixel)>
    decreases run.len(),
{
    if run.len() == 0 {
        Seq::empty()
    } else {
        run_fragments(cell, run.drop_last()) + match run.last() {
            Some(p) => seq![(cell, run.len() - 1, p)],
            None => Seq::empty(),
        }
    }
}

/// The fragments of the runs `runs` drawn at the sites `sites`, in order.
pub open spec fn fragments(
    width: int,
    sites: Seq<(usize, usize, usize)>,
    runs: Seq<Seq<Option<Pixel>>>,
) -> Seq<(int, int, Pixel)>
    decreases sites.len(),
{
    if sites.len() == 0 || runs.len() == 0 {
        Seq::empty()
    } else {
        fragments(width, sites.drop_last(), runs.drop_last()) + run_fragments(
            site_slot(width, sites.last()),
            runs.last(),
        )
    }
}

/// The contents of a sequence of runs.
pub open spec fn run_views(runs: Seq<Vec<Option<Pixel>>>) -> Seq<Seq<Option<Pixel>>> {
    runs.map_values(|v: Vec<Option<Pixel>>| v@)
}

/// Two buffers of the same shape: as many slots, each as many samples.
pub open spec fn same_shape(a: Seq<Seq<Pixel>>, b: Seq<Seq<Pixel>>) -> bool {
    a.len() == b.len() && forall|c: int| 0 <= c < a.len() ==> #[trigger] a[c].len() == b[c].len()
}

/// The depth test keeps the buffer's shape.
pub proof fn lemma_plotted_shape(s: Seq<Seq<Pixel>>, cell: int, index: int, p: Pixel)
    ensures
        same_shape(plotted(s, cell, index, p), s),
{
}

/// Drawing a run keeps the buffer's shape.
pub proof fn lemma_run_plotted_shape(s: Seq<Seq<Pixel>>, cell: int, run: Seq<Option<Pixel>>)
    ensures
        same_shape(run_plotted(s, cell, run), s),
    decreases run.len(),
{
    if run.len() > 0 {
        lemma_run_plotted_shape(s, cell, run.drop_last());
        let before = run_plotted(s, cell, run.drop_last());
        if let Some(p) = run.last() {
            lemma_plotted_shape(before, cell, run.len() - 1, p);
        }
    }
}

/// A run drawn at a slot outside the buffer changes nothing.
pub proof fn lemma_run_plotted_outside(s: Seq<Seq<Pixel>>, cell: int, run: Seq<Option<Pixel>>)
    requires
        !(0 <= cell < s.len()),
    ensures
        run_plotted(s, cell, run) == s,
    decreases run.len(),
{
    if run.len() > 0 {
        lemma_run_plotted_outside(s, cell, run.drop_last());
    }
}

/// Drawing one more run at one more site.
pub proof fn lemma_drawn_push(
    s: Seq<Seq<Pixel>>,
    width: int,
    sites: Seq<(usize, usize, usize)>,
    runs: Seq<Vec<Option<Pixel>>>,
    site: (usize, usize, usize),
    run: Vec<Option<Pixel>>,
)
    requires
        sites.len() == runs.len(),
    ensures
        drawn(s, width, sites.push(site), run_views(runs.push(run))) == run_plotted(
            drawn(s, width, sites, run_views(runs)),
            site_slot(width, site),
            run@,
        ),
{
    assert(sites.push(site).drop_last() =~= sites);
    assert(run_views(runs.push(run)).drop_last() =~= run_views(runs));
}

/// A row's sites grow by the two half-cells of the next column.
pub proof fn lemma_row_sites_step(x0: usize, x: usize, y: usize)
    requires
        x0 <= x < usize::MAX,
    ensures
        row_sites(x0, (x + 1) as usize, y) == row_sites(x0, x, y) + seq![
            (x, y, 0usize),
            (x, y, 1usize),
        ],
{
}

/// The scan grows by the sites of the next row.
pub proof fn lemma_scan_sites_step(x0: usize, x1: usize, y0: usize, y: usize)
    requires
        y0 <= y < usize::MAX,
    ensures
        scan_sites(x0, x1, y0, (y + 1) as usize) == scan_sites(x0, x1, y0, y) + row_sites(x0, x1, y),
{
}

/// A prefix stays a prefix when the longer sequence grows.
proof fn lemma_prefix_extend<A>(a: Seq<A>, b: Seq<A>, c: Seq<A>)
    requires
        a.is_prefix_of(b),
    ensures
        a.is_prefix_of(b + c),
{
    assert((b + c).subrange(0, a.len() as int) =~= b.subrange(0, a.len() as int));
}

/// A common beginning keeps a prefix a prefix.
proof fn lemma_prefix_concat<A>(c: Seq<A>, a: Seq<A>, b: Seq<A>)
    requires
        a.is_prefix_of(b),
    ensures
        (c + a).is_prefix_of(c + b),
{
    assert((c + b).subrange(0, (c + a).len() as int) =~= c + a);
}

/// Being a prefix is transitive.
proof fn lemma_prefix_transitive<A>(a: Seq<A>, b: Seq<A>, c: Seq<A>)
    requires
        a.is_prefix_of(b),
        b.is_prefix_of(c),
    ensures
        a.is_prefix_of(c),
{
    assert(c.subrange(0, a.len() as int) =~= b.subrange(0, a.len() as int));
}

/// A row's sites up to column `x` begin its sites up to column `x1`.
proof fn lemma_row_sites_prefix(x0: usize, x: usize, x1: usize, y: usize)
    requires
        x <= x1,
    ensures
        row_sites(x0, x, y).is_prefix_of(row_sites(x0, x1, y)),
    decreases x1,
{
    if x < x1 {
        let last = (x1 - 1) as usize;
        lemma_row_sites_prefix(x0, x, last, y);
        if x0 < x1 {
            lemma_prefix_extend(
                row_sites(x0, x, y),
                row_sites(x0, last, y),
                seq![(last, y, 0usize), (last, y, 1usize)],
            );
        } else {
            assert(row_sites(x0, x, y) =~= Seq::<(usize, usize, usize)>::empty());
        }
    } else {
        assert(row_sites(x0, x1, y).subrange(0, row_sites(x0, x, y).len() as int) =~= row_sites(
            x0,
            x1,
            y,
        ));
    }
}

/// The scan up to row `y` begins the scan up to row `y1`.
proof fn lemma_scan_sites_prefix(x0: usize, x1: usize, y0: usize, y: usize, y1: usize)
    requires
        y <= y1,
    ensures
        scan_sites(x0, x1, y0, y).is_prefix_of(scan_sites(x0, x1, y0, y1)),
    decreases y1,
{
    if y < y1 {
        let last = (y1 - 1) as usize;
        lemma_scan_sites_prefix(x0, x1, y0, y, last);
        if y0 < y1 {
            lemma_prefix_extend(
                scan_sites(x0, x1, y0, y),
                scan_sites(x0, x1, y0, last),
                row_sites(x0, x1, last),
            );
        } else {
            assert(scan_sites(x0, x1, y0, y) =~= Seq::<(usize, usize, usize)>::empty());
        }
    } else {
        assert(scan_sites(x0, x1, y0, y1).subrange(0, scan_sites(x0, x1, y0, y).len() as int)
            =~= scan_sites(x0, x1, y0, y1));
    }
}

/// The sites scanned through half-cell `seg` of column `x` of row `y` begin
/// the whole scan.
pub proof fn lemma_sites_so_far_prefix(
    x0: usize,
    x1: usize,
    y0: usize,
    y1: usize,
    x: usize,
    y: usize,
    seg: usize,
)
    requires
        x0 <= x < x1,
        y0 <= y < y1,
        seg < 2,
    ensures
        (scan_sites(x0, x1, y0, y) + row_sites(x0, x, y) + seq![
            (x, y, 0usize),
            (x, y, 1usize),
        ].take(seg + 1)).is_prefix_of(scan_sites(x0, x1, y0, y1)),
{
    let pair = seq![(x, y, 0usize), (x, y, 1usize)];
    let part = pair.take(seg + 1);
    assert(part.is_prefix_of(pair));
    lemma_prefix_concat(row_sites(x0, x, y), part, pair);
    lemma_row_sites_step(x0, x, y);
    lemma_row_sites_prefix(x0, (x + 1) as usize, x1, y);
    lemma_prefix_transitive(row_sites(x0, x, y) + part, row_sites(x0, (x + 1) as usize, y), row_sites(x0, x1, y));
    let done = scan_sites(x0, x1, y0, y);
    lemma_prefix_concat(done, row_sites(x0, x, y) + part, row_sites(x0, x1, y));
    lemma_scan_sites_step(x0, x1, y0, y);
    lemma_scan_sites_prefix(x0, x1, y0, (y + 1) as usize, y1);
    lemma_prefix_transitive(done + (row_sites(x0, x, y) + part), scan_sites(x0, x1, y0, (y + 1) as usize), scan_sites(x0, x1, y0, y1));
    assert(done + row_sites(x0, x, y) + part =~= done + (row_sites(x0, x, y) + part));
}

/// Whether a run fits depends only on the buffer's shape.
pub proof fn lemma_run_fits_same_shape(
    a: Seq<Seq<Pixel>>,
    b: Seq<Seq<Pixel>>,
    cell: int,
    run: Seq<Option<Pixel>>,
)
    requires
        same_shape(a, b),
    ensures
        run_fits(a, cell, run) == run_fits(b, cell, run),
{
}

/// Drawing two lists of fragments one after the other is drawing their
/// concatenation.
pub proof fn lemma_plotted_all_append(
    s: Seq<Seq<Pixel>>,
    a: Seq<(int, int, Pixel)>,
    b: Seq<(int, int, Pixel)>,
)
    ensures
        plotted_all(s, a + b) == plotted_all(plotted_all(s, a), b),
    decreases b.len(),
{
    if b.len() == 0 {
        assert(a + b =~= a);
    } else {
        lemma_plotted_all_append(s, a, b.drop_last());
        assert((a + b).drop_last() =~= a + b.drop_last());
        assert((a + b).last() == b.last());
    }
}

/// Drawing a run is drawing its fragments.
pub proof fn lemma_run_plotted_fragments(s: Seq<Seq<Pixel>>, cell: int, run: Seq<Option<Pixel>>)
    ensures
        run_plotted(s, cell, run) == plotted_all(s, run_fragments(cell, run)),
    decreases run.len(),
{
    if run.len() > 0 {
        lemma_run_plotted_fragments(s, cell, run.drop_last());
        let front = run_fragments(cell, run.drop_last());
        match run.last() {
            Some(p) => {
                let one = seq![(cell, run.len() - 1, p)];
                lemma_plotted_all_append(s, front, one);
                assert(one.drop_last() =~= Seq::<(int, int, Pixel)>::empty());
                let q = plotted_all(s, front);
                assert(plotted_all(q, one) == plotted(
                    plotted_all(q, Seq::<(int, int, Pixel)>::empty()),
                    cell,
                    run.len() - 1,
                    p,
                ));
                assert(run_fragments(cell, run) == front + one);
            },
            None => {
                assert(front + Seq::<(int, int, Pixel)>::empty() =~= front);
                assert(run_fragments(cell, run) == front + Seq::<(int, int, Pixel)>::empty());
            },
        }
    }
}

/// What `Frame::draw_samples` leaves in the buffer is the depth test of
/// the fragments of its runs, in scan order.
pub proof fn lemma_drawn_fragments(
    s: Seq<Seq<Pixel>>,
    width: int,
    sites: Seq<(usize, usize, usize)>,
    runs: Seq<Seq<Option<Pixel>>>,
)
    ensures
        drawn(s, width, sites, runs) == plotted_all(s, fragments(width, sites, runs)),
    decreases sites.len(),
{
    if sites.len() > 0 && runs.len() > 0 {
        lemma_drawn_fragments(s, width, sites.drop_last(), runs.drop_last());
        let front = fragments(width, sites.drop_last(), runs.drop_last());
        let cell = site_slot(width, sites.last());
        lemma_plotted_all_append(s, front, run_fragments(cell, runs.last()));
        lemma_run_plotted_fragments(plotted_all(s, front), cell, runs.last());
    }
}

/// The depth test does not depend on the order of drawing: two fragments
/// commute when they address different samples, or the same sample at
/// depths of which one is strictly nearer.
pub proof fn lemma_plot_order_irrelevant(
    s: Seq<Seq<Pixel>>,
    c1: int,
    i1: int,
    p1: Pixel,
    c2: int,
    i2: int,
    p2: Pixel,
)
    requires
        (c1, i1) != (c2, i2) || less_than(p1.z, p2.z) || less_than(p2.z, p1.z),
    ensures
        plotted(plotted(s, c1, i1, p1), c2, i2, p2) == plotted(plotted(s, c2, i2, p2), c1, i1, p1),
{
    let ab = plotted(plotted(s, c1, i1, p1), c2, i2, p2);
    let ba = plotted(plotted(s, c2, i2, p2), c1, i1, p1);
    if 0 <= c1 < s.len() && 0 <= i1 < s[c1].len() && 0 <= c2 < s.len() && 0 <= i2 < s[c2].len() {
        let a = plotted(s, c1, i1, p1);
        let b = plotted(s, c2, i2, p2);
        if c1 == c2 && i1 == i2 {
            let z0 = s[c1][i1].z;
            if less_than(p1.z, p2.z) {
                lemma_less_than_asymmetric(p1.z, p2.z);
                if less_than(p2.z, z0) {
                    lemma_less_than_transitive(p1.z, p2.z, z0);
                }
                assert(ab[c1] =~= ba[c1]);
            } else {
                lemma_less_than_asymmetric(p2.z, p1.z);
                if less_than(p1.z, z0) {
                    lemma_less_than_transitive(p2.z, p1.z, z0);
                }
                assert(ab[c1] =~= ba[c1]);
            }
            assert(ab =~= ba);
        } else {
            assert(a[c2][i2] == s[c2][i2]);
            assert(b[c1][i1] == s[c1][i1]);
            assert forall|c: int| 0 <= c < s.len() implies #[trigger] ab[c] =~= ba[c] by {}
            assert(ab =~= ba);
        }
    }
}

/// The depth buffer keeps the nearest fragment. After the fragments
/// `frags` are drawn, in any order: the buffer has its shape; every sample
/// is the one that was there, or one of the fragments drawn at it that is
/// strictly nearer than it; so no sample is farther than it was; no sample
/// is farther than any non-NaN fragment drawn at it; and a buffer that held
/// no NaN depth holds none after.
pub proof fn lemma_nearest_fragment_kept(s: Seq<Seq<Pixel>>, frags: Seq<(int, int, Pixel)>)
    ensures
        ({
            let r = plotted_all(s, frags);
            &&& r.len() == s.len()
            &&& forall|c: int| 0 <= c < s.len() ==> #[trigger] r[c].len() == s[c].len()
            &&& forall|c: int, i: int|
                0 <= c < s.len() && 0 <= i < s[c].len() ==> #[trigger] r[c][i] == s[c][i] || (
                less_than(r[c][i].z, s[c][i].z) && exists|k: int|
                    0 <= k < frags.len() && #[trigger] frags[k] == (c, i, r[c][i]))
            &&& forall|c: int, i: int|
                0 <= c < s.len() && 0 <= i < s[c].len() ==> !less_than(s[c][i].z, #[trigger] r[c][i].z)
            &&& forall|k: int|
                #![trigger frags[k]]
                0 <= k < frags.len() && 0 <= frags[k].0 < s.len() && 0 <= frags[k].1 < s[frags[k].0].len()
                    && !is_nan(frags[k].2.z) ==> !less_than(frags[k].2.z, r[frags[k].0][frags[k].1].z)
            &&& (forall|c: int, i: int|
                0 <= c < s.len() && 0 <= i < s[c].len() ==> !is_nan(#[trigger] s[c][i].z)) ==> (
            forall|c: int, i: int|
                0 <= c < s.len() && 0 <= i < s[c].len() ==> !is_nan(#[trigger] r[c][i].z))
        }),
    decreases frags.len(),
{
    let r = plotted_all(s, frags);
    if frags.len() > 0 {
        let prefix = frags.drop_last();
        lemma_nearest_fragment_kept(s, prefix);
        let q = plotted_all(s, prefix);
        let f = frags.last();
        assert(r == plotted(q, f.0, f.1, f.2));
        assert forall|c: int, i: int| 0 <= c < s.len() && 0 <= i < s[c].len() implies #[trigger] r[c][i]
            == s[c][i] || (less_than(r[c][i].z, s[c][i].z) && exists|k: int|
            0 <= k < frags.len() && #[trigger] frags[k] == (c, i, r[c][i])) by {
            if c == f.0 && i == f.1 && less_than(f.2.z, q[c][i].z) {
                assert(frags[frags.len() - 1] == (c, i, r[c][i]));
                if q[c][i] != s[c][i] {
                    lemma_less_than_transitive(f.2.z, q[c][i].z, s[c][i].z);
                }
            } else if q[c][i] != s[c][i] {
                let k = choose|k: int| 0 <= k < prefix.len() && #[trigger] prefix[k] == (c, i, q[c][i]);
                assert(frags[k] == prefix[k]);
            }
        }
        assert forall|k: int|
            #![trigger frags[k]]
            0 <= k < frags.len() && 0 <= frags[k].0 < s.len() && 0 <= frags[k].1 < s[frags[k].0].len()
                && !is_nan(frags[k].2.z) implies !less_than(frags[k].2.z, r[frags[k].0][frags[k].1].z) by {
            let c = frags[k].0;
            let i = frags[k].1;
            if k < frags.len() - 1 {
                assert(frags[k] == prefix[k]);
                if c == f.0 && i == f.1 && less_than(f.2.z, q[c][i].z) {
                    lemma_not_farther_transitive(frags[k].2.z, q[c][i].z, f.2.z);
                }
            }
        }
    }
    assert forall|c: int, i: int| 0 <= c < s.len() && 0 <= i < s[c].len() implies !less_than(
        s[c][i].z,
        #[trigger] r[c][i].z,
    ) by {
        if r[c][i] != s[c][i] {
            lemma_less_than_asymmetric(r[c][i].z, s[c][i].z);
        }
    }
}

/// Drawing fragments over a buffer that no one of them is strictly nearer
/// than (at its address) changes nothing.
pub proof fn lemma_plotted_all_stable(s: Seq<Seq<Pixel>>, frags: Seq<(int, int, Pixel)>)
    requires
        forall|k: int|
            #![trigger frags[k]]
            0 <= k < frags.len() && 0 <= frags[k].0 < s.len() && 0 <= frags[k].1 < s[frags[k].0].len()
                ==> !less_than(frags[k].2.z, s[frags[k].0][frags[k].1].z),
    ensures
        plotted_all(s, frags) == s,
    decreases frags.len(),
{
    if frags.len() > 0 {
        let prefix = frags.drop_last();
        assert forall|k: int|
            #![trigger prefix[k]]
            0 <= k < prefix.len() && 0 <= prefix[k].0 < s.len() && 0 <= prefix[k].1 < s[prefix[k].0].len()
                implies !less_than(prefix[k].2.z, s[prefix[k].0][prefix[k].1].z) by {
            assert(prefix[k] == frags[k]);
        }
        lemma_plotted_all_stable(s, prefix);
        let f = frags.last();
        assert(frags[frags.len() - 1] == f);
    }
}

/// Redrawing is idempotent: drawing the same fragments a second time over
/// the buffer they left changes nothing.
pub proof fn lemma_redraw_idempotent(s: Seq<Seq<Pixel>>, frags: Seq<(int, int, Pixel)>)
    ensures
        plotted_all(plotted_all(s, frags), frags) == plotted_all(s, frags),
{
    let r = plotted_all(s, frags);
    lemma_nearest_fragment_kept(s, frags);
    assert forall|k: int|
        #![trigger frags[k]]
        0 <= k < frags.len() && 0 <= frags[k].0 < r.len() && 0 <= frags[k].1 < r[frags[k].0].len()
            implies !less_than(frags[k].2.z, r[frags[k].0][frags[k].1].z) by {
        if is_nan(frags[k].2.z) {
        }
    }
    lemma_plotted_all_stable(r, frags);
}

/// Redrawing a scan is idempotent: drawing the same runs at the same sites
/// over the buffer they left changes nothing.
pub proof fn lemma_redraw_runs_idempotent(
    s: Seq<Seq<Pixel>>,
    width: int,
    sites: Seq<(usize, usize, usize)>,
    runs: Seq<Seq<Option<Pixel>>>,
)
    ensures
        drawn(drawn(s, width, sites, runs), width, sites, runs) == drawn(s, width, sites, runs),
{
    let frags = fragments(width, sites, runs);
    lemma_drawn_fragments(s, width, sites, runs);
    lemma_drawn_fragments(drawn(s, width, sites, runs), width, sites, runs);
    lemma_redraw_idempotent(s, frags);
}

/// Two draws in either order leave the same depths, as numbers: every
/// sample ends at the nearest of its old depth and the fragments drawn at
/// it. Where a single fragment drawn at a sample is the nearest, the whole
/// samples agree.
pub proof fn lemma_draw_order_depths(
    s: Seq<Seq<Pixel>>,
    a: Seq<(int, int, Pixel)>,
    b: Seq<(int, int, Pixel)>,
)
    ensures
        ({
            let ab = plotted_all(plotted_all(s, a), b);
            let ba = plotted_all(plotted_all(s, b), a);
            &&& same_shape(ab, ba)
            &&& forall|c: int, i: int|
                0 <= c < s.len() && 0 <= i < s[c].len() ==> #[trigger] ab[c][i].z == ba[c][i].z
                    || same_number(ab[c][i].z, ba[c][i].z)
            &&& forall|c: int, i: int|
                0 <= c < s.len() && 0 <= i < s[c].len() && nearest_unique_at(a + b, c, i)
                    ==> #[trigger] ab[c][i] == ba[c][i]
        }),
{
    lemma_plotted_all_append(s, a, b);
    lemma_plotted_all_append(s, b, a);
    let fab = a + b;
    let fba = b + a;
    let ab = plotted_all(s, fab);
    let ba = plotted_all(s, fba);
    lemma_nearest_fragment_kept(s, fab);
    lemma_nearest_fragment_kept(s, fba);
    // Each fragment of one order is a fragment of the other.
    assert forall|k: int| #![trigger fab[k]] 0 <= k < fab.len() implies exists|m: int|
        0 <= m < fba.len() && #[trigger] fba[m] == fab[k] by {
        if k < a.len() {
            assert(fba[b.len() + k] == fab[k]);
        } else {
            assert(fba[k - a.len()] == fab[k]);
        }
    }
    assert forall|m: int| #![trigger fba[m]] 0 <= m < fba.len() implies exists|k: int|
        0 <= k < fab.len() && #[trigger] fab[k] == fba[m] by {
        if m < b.len() {
            assert(fab[a.len() + m] == fba[m]);
        } else {
            assert(fab[m - b.len()] == fba[m]);
        }
    }
    assert forall|c: int, i: int| 0 <= c < s.len() && 0 <= i < s[c].len() implies #[trigger] ab[c][i].z
        == ba[c][i].z || same_number(ab[c][i].z, ba[c][i].z) by {
        lemma_depths_agree(s, fab, fba, c, i);
    }
    assert forall|c: int, i: int|
        0 <= c < s.len() && 0 <= i < s[c].len() && nearest_unique_at(a + b, c, i) implies #[trigger] ab[c][i]
        == ba[c][i] by {
        lemma_unique_nearest_agrees(s, fab, fba, c, i);
    }
}

/// After a scan, every sample is the one that was there or a fragment of
/// the scan drawn at it that is strictly nearer than it; with one run per
/// site, that fragment is the covered sample at its index of a run drawn at
/// a site addressing its slot.
pub proof fn lemma_scan_changes_nearer(
    s: Seq<Seq<Pixel>>,
    width: int,
    sites: Seq<(usize, usize, usize)>,
    runs: Seq<Seq<Option<Pixel>>>,
)
    ensures
        ({
            let r = drawn(s, width, sites, runs);
            let frags = fragments(width, sites, runs);
            &&& same_shape(r, s)
            &&& forall|c: int, i: int|
                0 <= c < s.len() && 0 <= i < s[c].len() ==> #[trigger] r[c][i] == s[c][i] || (
                less_than(r[c][i].z, s[c][i].z) && exists|k: int|
                    0 <= k < frags.len() && #[trigger] frags[k] == (c, i, r[c][i]))
            &&& sites.len() == runs.len() ==> forall|c: int, i: int|
                0 <= c < s.len() && 0 <= i < s[c].len() ==> #[trigger] r[c][i] == s[c][i] || (
                less_than(r[c][i].z, s[c][i].z) && drawn_from(width, sites, runs, c, i, r[c][i]))
        }),
{
    let r = drawn(s, width, sites, runs);
    let frags = fragments(width, sites, runs);
    lemma_drawn_fragments(s, width, sites, runs);
    lemma_nearest_fragment_kept(s, frags);
    assert forall|c: int, i: int|
        sites.len() == runs.len() && 0 <= c < s.len() && 0 <= i < s[c].len() implies #[trigger] r[c][i]
        == s[c][i] || (less_than(r[c][i].z, s[c][i].z) && drawn_from(width, sites, runs, c, i, r[c][i])) by {
        if r[c][i] != s[c][i] {
            let k = choose|k: int| 0 <= k < frags.len() && #[trigger] frags[k] == (c, i, r[c][i]);
            lemma_fragment_source(width, sites, runs, k);
        }
    }
}

/// A covered sample `p` that one of the runs `runs` holds at index `i`,
/// drawn at a site of `sites` that addresses slot `c`.
pub open spec fn drawn_from(
    width: int,
    sites: Seq<(usize, usize, usize)>,
    runs: Seq<Seq<Option<Pixel>>>,
    c: int,
    i: int,
    p: Pixel,
) -> bool {
    exists|k: int|
        0 <= k < sites.len() && k < runs.len() && site_slot(width, sites[k]) == c && 0 <= i
            < runs[k].len() && #[trigger] runs[k][i] == Some(p)
}

/// Each fragment of a run drawn at slot `cell` is the run's covered sample
/// at the fragment's index.
proof fn lemma_run_fragment_source(cell: int, run: Seq<Option<Pixel>>, k: int)
    requires
        0 <= k < run_fragments(cell, run).len(),
    ensures
        run_fragments(cell, run)[k].0 == cell,
        0 <= run_fragments(cell, run)[k].1 < run.len(),
        run[run_fragments(cell, run)[k].1] == Some(run_fragments(cell, run)[k].2),
    decreases run.len(),
{
    let front = run_fragments(cell, run.drop_last());
    if k < front.len() {
        lemma_run_fragment_source(cell, run.drop_last(), k);
        match run.last() {
            Some(p) => {
                assert(run_fragments(cell, run)[k] == front[k]);
            },
            None => {
                assert(run_fragments(cell, run) =~= front);
            },
        }
    } else {
        match run.last() {
            Some(p) => {
                assert(run_fragments(cell, run)[k] == (cell, run.len() - 1, p));
            },
            None => {
                assert(run_fragments(cell, run) =~= front);
            },
        }
    }
}

/// Each fragment of a scan is a covered sample of one of its runs, drawn
/// at the site of that run.
proof fn lemma_fragment_source(
    width: int,
    sites: Seq<(usize, usize, usize)>,
    runs: Seq<Seq<Option<Pixel>>>,
    k: int,
)
    requires
        sites.len() == runs.len(),
        0 <= k < fragments(width, sites, runs).len(),
    ensures
        ({
            let f = fragments(width, sites, runs)[k];
            drawn_from(width, sites, runs, f.0, f.1, f.2)
        }),
    decreases sites.len(),
{
    let front = fragments(width, sites.drop_last(), runs.drop_last());
    let last = sites.len() - 1;
    let tail = run_fragments(site_slot(width, sites.last()), runs.last());
    let f = fragments(width, sites, runs)[k];
    if k < front.len() {
        lemma_fragment_source(width, sites.drop_last(), runs.drop_last(), k);
        assert(fragments(width, sites, runs)[k] == front[k]);
        let j = choose|j: int|
            0 <= j < sites.drop_last().len() && j < runs.drop_last().len() && site_slot(
                width,
                sites.drop_last()[j],
            ) == f.0 && 0 <= f.1 < runs.drop_last()[j].len() && #[trigger] runs.drop_last()[j][f.1]
                == Some(f.2);
        assert(sites[j] == sites.drop_last()[j]);
        assert(runs[j] == runs.drop_last()[j]);
        assert(runs[j][f.1] == Some(f.2));
    } else {
        lemma_run_fragment_source(site_slot(width, sites.last()), runs.last(), k - front.len());
        assert(fragments(width, sites, runs)[k] == tail[k - front.len()]);
        assert(sites[last] == sites.last());
        assert(runs[last] == runs.last());
    }
}

/// Two scans drawn in either order leave the same depths, as numbers; where
/// a single fragment of the two scans drawn at a sample is the nearest, the
/// whole samples agree.
pub proof fn lemma_scans_order_depths(
    s: Seq<Seq<Pixel>>,
    width: int,
    sites_a: Seq<(usize, usize, usize)>,
    runs_a: Seq<Seq<Option<Pixel>>>,
    sites_b: Seq<(usize, usize, usize)>,
    runs_b: Seq<Seq<Option<Pixel>>>,
)
    ensures
        ({
            let ab = drawn(drawn(s, width, sites_a, runs_a), width, sites_b, runs_b);
            let ba = drawn(drawn(s, width, sites_b, runs_b), width, sites_a, runs_a);
            let fa = fragments(width, sites_a, runs_a);
            let fb = fragments(width, sites_b, runs_b);
            &&& same_shape(ab, ba)
            &&& forall|c: int, i: int|
                0 <= c < s.len() && 0 <= i < s[c].len() ==> #[trigger] ab[c][i].z == ba[c][i].z
                    || same_number(ab[c][i].z, ba[c][i].z)
            &&& forall|c: int, i: int|
                0 <= c < s.len() && 0 <= i < s[c].len() && nearest_unique_at(fa + fb, c, i)
                    ==> #[trigger] ab[c][i] == ba[c][i]
        }),
{
    let fa = fragments(width, sites_a, runs_a);
    let fb = fragments(width, sites_b, runs_b);
    lemma_drawn_fragments(s, width, sites_a, runs_a);
    lemma_drawn_fragments(s, width, sites_b, runs_b);
    lemma_drawn_fragments(drawn(s, width, sites_a, runs_a), width, sites_b, runs_b);
    lemma_drawn_fragments(drawn(s, width, sites_b, runs_b), width, sites_a, runs_a);
    lemma_draw_order_depths(s, fa, fb);
}

/// Among the fragments drawn at sample `i` of slot `cell`, no two share the
/// nearest depth: two of them at the same depth, as a number, have a third
/// there that is strictly nearer.
pub open spec fn nearest_unique_at(frags: Seq<(int, int, Pixel)>, cell: int, i: int) -> bool {
    forall|k1: int, k2: int|
        0 <= k1 < frags.len() && 0 <= k2 < frags.len() && (#[trigger] frags[k1]).0 == cell
            && frags[k1].1 == i && (#[trigger] frags[k2]).0 == cell && frags[k2].1 == i
            && frags[k1] != frags[k2] && same_number(frags[k1].2.z, frags[k2].2.z) ==> exists|k3: int|
            0 <= k3 < frags.len() && (#[trigger] frags[k3]).0 == cell && frags[k3].1 == i && less_than(
                frags[k3].2.z,
                frags[k1].2.z,
            )
}

/// Two lists holding the same fragments leave sample `i` of slot `c` at the
/// same depth, as a number: both end at the nearest of the old depth and
/// the fragments drawn there.
proof fn lemma_depths_agree(
    s: Seq<Seq<Pixel>>,
    f: Seq<(int, int, Pixel)>,
    g: Seq<(int, int, Pixel)>,
    c: int,
    i: int,
)
    requires
        0 <= c < s.len(),
        0 <= i < s[c].len(),
        forall|k: int|
            #![trigger f[k]]
            0 <= k < f.len() ==> exists|m: int| 0 <= m < g.len() && #[trigger] g[m] == f[k],
        forall|m: int|
            #![trigger g[m]]
            0 <= m < g.len() ==> exists|k: int| 0 <= k < f.len() && #[trigger] f[k] == g[m],
    ensures
        ({
            let rf = plotted_all(s, f);
            let rg = plotted_all(s, g);
            &&& rf[c][i].z == rg[c][i].z || same_number(rf[c][i].z, rg[c][i].z)
            &&& (rf[c][i] == s[c][i]) == (rg[c][i] == s[c][i])
        }),
{
    lemma_nearest_fragment_kept(s, f);
    lemma_nearest_fragment_kept(s, g);
    let rf = plotted_all(s, f);
    let rg = plotted_all(s, g);
    if rf[c][i] != s[c][i] {
        let k = choose|k: int| 0 <= k < f.len() && #[trigger] f[k] == (c, i, rf[c][i]);
        let m = choose|m: int| 0 <= m < g.len() && #[trigger] g[m] == f[k];
        assert(g[m] == (c, i, rf[c][i]));
        assert(!is_nan(rf[c][i].z));
        assert(!less_than(rf[c][i].z, rg[c][i].z));
        if rg[c][i] == s[c][i] {
            assert(false);
        } else {
            let k2 = choose|k: int| 0 <= k < g.len() && #[trigger] g[k] == (c, i, rg[c][i]);
            let m2 = choose|m: int| 0 <= m < f.len() && #[trigger] f[m] == g[k2];
            assert(f[m2] == (c, i, rg[c][i]));
            assert(!less_than(rg[c][i].z, rf[c][i].z));
            lemma_less_than_trichotomy(rf[c][i].z, rg[c][i].z);
        }
    } else if rg[c][i] != s[c][i] {
        let k2 = choose|k: int| 0 <= k < g.len() && #[trigger] g[k] == (c, i, rg[c][i]);
        let m2 = choose|m: int| 0 <= m < f.len() && #[trigger] f[m] == g[k2];
        assert(f[m2] == (c, i, rg[c][i]));
        assert(!less_than(rg[c][i].z, rf[c][i].z));
        assert(false);
    }
}

/// A sample that the fragments `frags` changed is one of them, not a NaN,
/// and no fragment drawn at it is strictly nearer.
proof fn lemma_written_is_nearest(s: Seq<Seq<Pixel>>, frags: Seq<(int, int, Pixel)>, c: int, i: int)
    requires
        0 <= c < s.len(),
        0 <= i < s[c].len(),
        plotted_all(s, frags)[c][i] != s[c][i],
    ensures
        ({
            let r = plotted_all(s, frags)[c][i];
            &&& !is_nan(r.z)
            &&& exists|k: int| 0 <= k < frags.len() && #[trigger] frags[k] == (c, i, r)
            &&& forall|k: int|
                0 <= k < frags.len() && (#[trigger] frags[k]).0 == c && frags[k].1 == i ==> !less_than(
                    frags[k].2.z,
                    r.z,
                )
        }),
{
    lemma_nearest_fragment_kept(s, frags);
    let r = plotted_all(s, frags)[c][i];
    assert forall|k: int| 0 <= k < frags.len() && (#[trigger] frags[k]).0 == c && frags[k].1 == i implies !less_than(
        frags[k].2.z,
        r.z,
    ) by {
        if is_nan(frags[k].2.z) {
        }
    }
}

/// Two lists holding the same fragments leave the same sample at sample `i`
/// of slot `c` when a single fragment drawn there is the nearest.
proof fn lemma_unique_nearest_agrees(
    s: Seq<Seq<Pixel>>,
    f: Seq<(int, int, Pixel)>,
    g: Seq<(int, int, Pixel)>,
    c: int,
    i: int,
)
    requires
        0 <= c < s.len(),
        0 <= i < s[c].len(),
        forall|k: int|
            #![trigger f[k]]
            0 <= k < f.len() ==> exists|m: int| 0 <= m < g.len() && #[trigger] g[m] == f[k],
        forall|m: int|
            #![trigger g[m]]
            0 <= m < g.len() ==> exists|k: int| 0 <= k < f.len() && #[trigger] f[k] == g[m],
        nearest_unique_at(f, c, i),
    ensures
        plotted_all(s, f)[c][i] == plotted_all(s, g)[c][i],
{
    let rf = plotted_all(s, f)[c][i];
    let rg = plotted_all(s, g)[c][i];
    lemma_depths_agree(s, f, g, c, i);
    if rf != s[c][i] && rg != s[c][i] {
        lemma_written_is_nearest(s, f, c, i);
        lemma_written_is_nearest(s, g, c, i);
        let k1 = choose|k: int| 0 <= k < f.len() && #[trigger] f[k] == (c, i, rf);
        let m2 = choose|k: int| 0 <= k < g.len() && #[trigger] g[k] == (c, i, rg);
        let k2 = choose|k: int| 0 <= k < f.len() && #[trigger] f[k] == g[m2];
        if f[k1] != f[k2] {
            assert(same_number(f[k1].2.z, f[k2].2.z));
            assert(exists|k3: int|
                0 <= k3 < f.len() && (#[trigger] f[k3]).0 == c && f[k3].1 == i && less_than(
                    f[k3].2.z,
                    f[k1].2.z,
                ));
        }
    }
}

/// "Not farther than" chains: if `b` is not farther than `a` and `c` is
/// strictly nearer than `b`, then `c` is not farther than `a`.
proof fn lemma_not_farther_transitive(a: u32, b: u32, c: u32)
    requires
        !is_nan(a),
        !less_than(a, b),
        less_than(c, b),
    ensures
        !less_than(a, c),
{
    lemma_less_than_trichotomy(a, b);
}

} // verus!
