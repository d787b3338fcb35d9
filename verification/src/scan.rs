//! What a scan through a sampling function does to the sample buffer, and
//! the laws of drawing with it: a scan only writes nearer samples that the
//! function returned, drawing the same scan twice is drawing it once, and
//! two scans leave the same depths in either order.
use vstd::prelude::*;

use crate::binary32::{less_than, same_number};
use crate::depth::{
    drawn, drawn_from, fragments, lemma_redraw_runs_idempotent, lemma_run_fits_same_shape,
    lemma_scan_changes_nearer, lemma_scans_order_depths, nearest_unique_at, run_fits, run_views,
    same_shape, site_slot,
};
use crate::frame::Pixel;

verus! {

/// `runs` are answers of `sample` at the sites `sites`: one run per site,
/// each one that a call of `sample` at that site may return.
pub open spec fn answers<F: Fn(usize, usize, usize) -> Vec<Option<Pixel>>>(
    sample: F,
    sites: Seq<(usize, usize, usize)>,
    runs: Seq<Vec<Option<Pixel>>>,
) -> bool {
    &&& runs.len() == sites.len()
    &&& forall|k: int| 0 <= k < runs.len() ==> call_ensures(sample, sites[k], #[trigger] runs[k])
}

/// The covered samples of each run `runs[k]` fit the buffer `s` at the
/// slot of site `sites[k]`.
pub open spec fn runs_fit(
    s: Seq<Seq<Pixel>>,
    width: int,
    sites: Seq<(usize, usize, usize)>,
    runs: Seq<Vec<Option<Pixel>>>,
) -> bool {
    forall|k: int|
        0 <= k < runs.len() ==> run_fits(s, site_slot(width, sites[k]), #[trigger] runs[k]@)
}

/// A whole scan: `sample` answered at every site of `sites`, every answer
/// fit the buffer `s0`, and `s1` is `s0` with the answers drawn in order.
pub open spec fn scanned<F: Fn(usize, usize, usize) -> Vec<Option<Pixel>>>(
    sample: F,
    s0: Seq<Seq<Pixel>>,
    width: int,
    sites: Seq<(usize, usize, usize)>,
    s1: Seq<Seq<Pixel>>,
) -> bool {
    exists|runs: Seq<Vec<Option<Pixel>>>|
        #![trigger run_views(runs)]
        {
            &&& answers(sample, sites, runs)
            &&& runs_fit(s0, width, sites, runs)
            &&& s1 == drawn(s0, width, sites, run_views(runs))
        }
}

/// A scan stopped at `site`: the answers of `sample` at the sites before
/// it fit `s0` and were drawn, giving `s1`; its answer at `site` does not
/// fit.
pub open spec fn stopped_at<F: Fn(usize, usize, usize) -> Vec<Option<Pixel>>>(
    sample: F,
    s0: Seq<Seq<Pixel>>,
    width: int,
    sites: Seq<(usize, usize, usize)>,
    site: (usize, usize, usize),
    s1: Seq<Seq<Pixel>>,
) -> bool {
    exists|runs: Seq<Vec<Option<Pixel>>>, run: Vec<Option<Pixel>>|
        #![trigger run_views(runs), run@]
        {
            &&& runs.len() < sites.len()
            &&& sites[runs.len() as int] == site
            &&& answers(sample, sites.take(runs.len() as int), runs)
            &&& runs_fit(s0, width, sites.take(runs.len() as int), runs)
            &&& call_ensures(sample, site, run)
            &&& !run_fits(s0, site_slot(width, site), run@)
            &&& s1 == drawn(s0, width, sites.take(runs.len() as int), run_views(runs))
        }
}

/// `p` is a covered sample, at index `i`, of a run that `sample` may return
/// at a site of `sites` that addresses slot `c`.
pub open spec fn sampled_at<F: Fn(usize, usize, usize) -> Vec<Option<Pixel>>>(
    sample: F,
    width: int,
    sites: Seq<(usize, usize, usize)>,
    c: int,
    i: int,
    p: Pixel,
) -> bool {
    exists|k: int, run: Vec<Option<Pixel>>|
        #![trigger call_ensures(sample, sites[k], run)]
        0 <= k < sites.len() && site_slot(width, sites[k]) == c && call_ensures(sample, sites[k], run)
            && 0 <= i < run@.len() && run@[i] == Some(p)
}

/// Every sample of `s1` is the one `s0` held there, or is strictly nearer
/// than it and is a covered sample that `sample` returned for a site of
/// `sites` addressing its slot, at its own index.
pub open spec fn only_nearer_drawn<F: Fn(usize, usize, usize) -> Vec<Option<Pixel>>>(
    sample: F,
    s0: Seq<Seq<Pixel>>,
    width: int,
    sites: Seq<(usize, usize, usize)>,
    s1: Seq<Seq<Pixel>>,
) -> bool {
    forall|c: int, i: int|
        0 <= c < s0.len() && 0 <= i < s0[c].len() ==> #[trigger] s1[c][i] == s0[c][i] || (less_than(
            s1[c][i].z,
            s0[c][i].z,
        ) && sampled_at(sample, width, sites, c, i, s1[c][i]))
}

/// `sample` behaves as a function: two calls at the same site return runs
/// with the same contents.
pub open spec fn deterministic<F: Fn(usize, usize, usize) -> Vec<Option<Pixel>>>(sample: F) -> bool {
    forall|site: (usize, usize, usize), a: Vec<Option<Pixel>>, b: Vec<Option<Pixel>>|
        #![trigger call_ensures(sample, site, a), call_ensures(sample, site, b)]
        call_ensures(sample, site, a) && call_ensures(sample, site, b) ==> a@ == b@
}

/// Wherever the answers of `f` at `sites_f` and of `g` at `sites_g` draw at
/// sample `i` of slot `c`, a single one of them is the nearest.
pub open spec fn nearest_unique_drawn<
    F: Fn(usize, usize, usize) -> Vec<Option<Pixel>>,
    G: Fn(usize, usize, usize) -> Vec<Option<Pixel>>,
>(
    f: F,
    g: G,
    width: int,
    sites_f: Seq<(usize, usize, usize)>,
    sites_g: Seq<(usize, usize, usize)>,
    c: int,
    i: int,
) -> bool {
    forall|ra: Seq<Vec<Option<Pixel>>>, rb: Seq<Vec<Option<Pixel>>>|
        #![trigger answers(f, sites_f, ra), answers(g, sites_g, rb)]
        answers(f, sites_f, ra) && answers(g, sites_g, rb) ==> nearest_unique_at(
            fragments(width, sites_f, run_views(ra)) + fragments(width, sites_g, run_views(rb)),
            c,
            i,
        )
}

/// Drawing the first `n` sites of `sites` with answers of `sample` changes
/// a sample only to a strictly nearer one that `sample` returned for it.
pub proof fn lemma_drawn_only_nearer<F: Fn(usize, usize, usize) -> Vec<Option<Pixel>>>(
    sample: F,
    s0: Seq<Seq<Pixel>>,
    width: int,
    sites: Seq<(usize, usize, usize)>,
    n: int,
    runs: Seq<Vec<Option<Pixel>>>,
)
    requires
        0 <= n <= sites.len(),
        answers(sample, sites.take(n), runs),
    ensures
        only_nearer_drawn(sample, s0, width, sites, drawn(s0, width, sites.take(n), run_views(runs))),
        same_shape(drawn(s0, width, sites.take(n), run_views(runs)), s0),
{
    let done = sites.take(n);
    let views = run_views(runs);
    let s1 = drawn(s0, width, done, views);
    lemma_scan_changes_nearer(s0, width, done, views);
    assert forall|c: int, i: int| 0 <= c < s0.len() && 0 <= i < s0[c].len() implies #[trigger] s1[c][i]
        == s0[c][i] || (less_than(s1[c][i].z, s0[c][i].z) && sampled_at(
        sample,
        width,
        sites,
        c,
        i,
        s1[c][i],
    )) by {
        if s1[c][i] != s0[c][i] {
            assert(drawn_from(width, done, views, c, i, s1[c][i]));
            let k = choose|k: int|
                0 <= k < done.len() && k < views.len() && site_slot(width, done[k]) == c && 0 <= i
                    < views[k].len() && #[trigger] views[k][i] == Some(s1[c][i]);
            assert(done[k] == sites[k]);
            assert(call_ensures(sample, done[k], runs[k]));
            assert(views[k] == runs[k]@);
            assert(call_ensures(sample, sites[k], runs[k]));
        }
    }
}

/// Two answers of a deterministic `sample` at the same sites have the same
/// contents.
proof fn lemma_same_answers<F: Fn(usize, usize, usize) -> Vec<Option<Pixel>>>(
    sample: F,
    sites: Seq<(usize, usize, usize)>,
    a: Seq<Vec<Option<Pixel>>>,
    b: Seq<Vec<Option<Pixel>>>,
)
    requires
        deterministic(sample),
        answers(sample, sites, a),
        answers(sample, sites, b),
    ensures
        run_views(a) == run_views(b),
{
    assert forall|k: int| 0 <= k < a.len() implies #[trigger] run_views(a)[k] == run_views(b)[k] by {
        assert(call_ensures(sample, sites[k], a[k]));
        assert(call_ensures(sample, sites[k], b[k]));
    }
    assert(run_views(a) =~= run_views(b));
}

/// A scan of a deterministic `sample` that fit a buffer fits every buffer
/// of the same shape: it cannot stop there.
pub proof fn lemma_scan_fits_same_shape<F: Fn(usize, usize, usize) -> Vec<Option<Pixel>>>(
    sample: F,
    s0: Seq<Seq<Pixel>>,
    width: int,
    sites: Seq<(usize, usize, usize)>,
    s1: Seq<Seq<Pixel>>,
    t0: Seq<Seq<Pixel>>,
    site: (usize, usize, usize),
    t1: Seq<Seq<Pixel>>,
)
    requires
        deterministic(sample),
        scanned(sample, s0, width, sites, s1),
        same_shape(t0, s0),
    ensures
        !stopped_at(sample, t0, width, sites, site, t1),
{
    if stopped_at(sample, t0, width, sites, site, t1) {
        let full = choose|runs: Seq<Vec<Option<Pixel>>>|
            #![trigger run_views(runs)]
            {
                &&& answers(sample, sites, runs)
                &&& runs_fit(s0, width, sites, runs)
                &&& s1 == drawn(s0, width, sites, run_views(runs))
            };
        let (runs, run) = choose|runs: Seq<Vec<Option<Pixel>>>, run: Vec<Option<Pixel>>|
            #![trigger run_views(runs), run@]
            {
                &&& runs.len() < sites.len()
                &&& sites[runs.len() as int] == site
                &&& answers(sample, sites.take(runs.len() as int), runs)
                &&& runs_fit(t0, width, sites.take(runs.len() as int), runs)
                &&& call_ensures(sample, site, run)
                &&& !run_fits(t0, site_slot(width, site), run@)
                &&& t1 == drawn(t0, width, sites.take(runs.len() as int), run_views(runs))
            };
        let n = runs.len() as int;
        assert(call_ensures(sample, sites[n], full[n]));
        assert(full[n]@ == run@);
        assert(run_fits(s0, site_slot(width, sites[n]), full[n]@));
        lemma_run_fits_same_shape(t0, s0, site_slot(width, site), run@);
    }
}

/// Drawing the same scan of a deterministic `sample` a second time over
/// the buffer it left neither stops nor changes anything.
pub proof fn lemma_redraw_scan_idempotent<F: Fn(usize, usize, usize) -> Vec<Option<Pixel>>>(
    sample: F,
    s0: Seq<Seq<Pixel>>,
    width: int,
    sites: Seq<(usize, usize, usize)>,
    s1: Seq<Seq<Pixel>>,
    site: (usize, usize, usize),
    s2: Seq<Seq<Pixel>>,
)
    requires
        deterministic(sample),
        scanned(sample, s0, width, sites, s1),
    ensures
        !stopped_at(sample, s1, width, sites, site, s2),
        scanned(sample, s1, width, sites, s2) ==> s2 == s1,
{
    let ra = choose|runs: Seq<Vec<Option<Pixel>>>|
        #![trigger run_views(runs)]
        {
            &&& answers(sample, sites, runs)
            &&& runs_fit(s0, width, sites, runs)
            &&& s1 == drawn(s0, width, sites, run_views(runs))
        };
    lemma_drawn_only_nearer(sample, s0, width, sites, sites.len() as int, ra);
    assert(sites.take(sites.len() as int) =~= sites);
    lemma_scan_fits_same_shape(sample, s0, width, sites, s1, s1, site, s2);
    if scanned(sample, s1, width, sites, s2) {
        let rb = choose|runs: Seq<Vec<Option<Pixel>>>|
            #![trigger run_views(runs)]
            {
                &&& answers(sample, sites, runs)
                &&& runs_fit(s1, width, sites, runs)
                &&& s2 == drawn(s1, width, sites, run_views(runs))
            };
        lemma_same_answers(sample, sites, ra, rb);
        lemma_redraw_runs_idempotent(s0, width, sites, run_views(ra));
    }
}

/// Two scans of deterministic sampling functions `f` and `g` that each fit
/// a buffer `s` can be drawn over it in either order: neither second scan
/// stops, and both orders leave the same depths, as numbers. Where a single
/// sample drawn at a position is the nearest, both orders leave the same
/// sample there.
pub proof fn lemma_scans_commute<
    F: Fn(usize, usize, usize) -> Vec<Option<Pixel>>,
    G: Fn(usize, usize, usize) -> Vec<Option<Pixel>>,
>(
    f: F,
    g: G,
    s: Seq<Seq<Pixel>>,
    width: int,
    sites_f: Seq<(usize, usize, usize)>,
    sites_g: Seq<(usize, usize, usize)>,
    s_f: Seq<Seq<Pixel>>,
    s_g: Seq<Seq<Pixel>>,
    site: (usize, usize, usize),
    s_fg: Seq<Seq<Pixel>>,
    s_gf: Seq<Seq<Pixel>>,
)
    requires
        deterministic(f),
        deterministic(g),
        scanned(f, s, width, sites_f, s_f),
        scanned(g, s, width, sites_g, s_g),
    ensures
        !stopped_at(g, s_f, width, sites_g, site, s_fg),
        !stopped_at(f, s_g, width, sites_f, site, s_gf),
        scanned(g, s_f, width, sites_g, s_fg) && scanned(f, s_g, width, sites_f, s_gf) ==> {
            &&& same_shape(s_fg, s_gf)
            &&& forall|c: int, i: int|
                0 <= c < s.len() && 0 <= i < s[c].len() ==> #[trigger] s_fg[c][i].z == s_gf[c][i].z
                    || same_number(s_fg[c][i].z, s_gf[c][i].z)
            &&& forall|c: int, i: int|
                0 <= c < s.len() && 0 <= i < s[c].len() && nearest_unique_drawn(
                    f,
                    g,
                    width,
                    sites_f,
                    sites_g,
                    c,
                    i,
                ) ==> #[trigger] s_fg[c][i] == s_gf[c][i]
        },
{
    let ra = choose|runs: Seq<Vec<Option<Pixel>>>|
        #![trigger run_views(runs)]
        {
            &&& answers(f, sites_f, runs)
            &&& runs_fit(s, width, sites_f, runs)
            &&& s_f == drawn(s, width, sites_f, run_views(runs))
        };
    let rb = choose|runs: Seq<Vec<Option<Pixel>>>|
        #![trigger run_views(runs)]
        {
            &&& answers(g, sites_g, runs)
            &&& runs_fit(s, width, sites_g, runs)
            &&& s_g == drawn(s, width, sites_g, run_views(runs))
        };
    assert(sites_f.take(sites_f.len() as int) =~= sites_f);
    assert(sites_g.take(sites_g.len() as int) =~= sites_g);
    lemma_drawn_only_nearer(f, s, width, sites_f, sites_f.len() as int, ra);
    lemma_drawn_only_nearer(g, s, width, sites_g, sites_g.len() as int, rb);
    lemma_scan_fits_same_shape(g, s, width, sites_g, s_g, s_f, site, s_fg);
    lemma_scan_fits_same_shape(f, s, width, sites_f, s_f, s_g, site, s_gf);
    if scanned(g, s_f, width, sites_g, s_fg) && scanned(f, s_g, width, sites_f, s_gf) {
        let rb2 = choose|runs: Seq<Vec<Option<Pixel>>>|
            #![trigger run_views(runs)]
            {
                &&& answers(g, sites_g, runs)
                &&& runs_fit(s_f, width, sites_g, runs)
                &&& s_fg == drawn(s_f, width, sites_g, run_views(runs))
            };
        let ra2 = choose|runs: Seq<Vec<Option<Pixel>>>|
            #![trigger run_views(runs)]
            {
                &&& answers(f, sites_f, runs)
                &&& runs_fit(s_g, width, sites_f, runs)
                &&& s_gf == drawn(s_g, width, sites_f, run_views(runs))
            };
        lemma_same_answers(f, sites_f, ra, ra2);
        lemma_same_answers(g, sites_g, rb, rb2);
        lemma_scans_order_depths(s, width, sites_f, run_views(ra), sites_g, run_views(rb));
        assert forall|c: int, i: int|
            0 <= c < s.len() && 0 <= i < s[c].len() && nearest_unique_drawn(
                f,
                g,
                width,
                sites_f,
                sites_g,
                c,
                i,
            ) implies #[trigger] s_fg[c][i] == s_gf[c][i] by {
            assert(answers(f, sites_f, ra) && answers(g, sites_g, rb));
        }
    }
}

} // verus!
