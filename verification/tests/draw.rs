use rendersloth::{Frame, Pixel};

fn px(z: f32, shade: f32, color: Option<(u8, u8, u8)>) -> Pixel {
    Pixel { z: z.to_bits(), shade: shade.to_bits(), color }
}

#[test]
fn draw_samples_addresses_every_half_cell() {
    let mut f: Frame<1> = Frame::blank(4, 2);
    let r = f.draw_samples(0, 2, 0, 2, |x, y, s| {
        vec![Some(px((10 * y + 2 * x + s) as f32, 0.5, Some((x as u8, y as u8, s as u8))))]
    });
    assert_eq!(r, Ok(()));
    for y in 0..2usize {
        for x in 0..2usize {
            for s in 0..2usize {
                let slot = y * 4 + 2 * x + s;
                assert_eq!(f.shader_buffer[slot][0].z, ((10 * y + 2 * x + s) as f32).to_bits());
                assert_eq!(f.shader_buffer[slot][0].color, Some((x as u8, y as u8, s as u8)));
            }
        }
    }
}

#[test]
fn draw_samples_skips_uncovered_and_empty_windows() {
    let mut f: Frame<2> = Frame::blank(2, 2);
    let r = f.draw_samples(0, 1, 0, 1, |_, _, s| {
        if s == 0 {
            vec![None, Some(px(1.0, 0.1, Some((7, 7, 7))))]
        } else {
            vec![None, None]
        }
    });
    assert_eq!(r, Ok(()));
    assert_eq!(f.shader_buffer[0][0].color, None);
    assert_eq!(f.shader_buffer[0][1].color, Some((7, 7, 7)));
    assert_eq!(f.shader_buffer[1][0].color, None);
    assert_eq!(f.shader_buffer[1][1].color, None);
    // An empty window and a reversed one draw nothing.
    assert_eq!(f.draw_samples(1, 1, 0, 2, |_, _, _| vec![Some(px(0.0, 0.0, None))]), Ok(()));
    assert_eq!(f.draw_samples(0, 2, 2, 1, |_, _, _| vec![Some(px(0.0, 0.0, None))]), Ok(()));
    assert_eq!(f.shader_buffer[2][0].z, f32::MAX.to_bits());
}

#[test]
fn draw_samples_stops_at_a_covered_sample_outside_the_frame() {
    let mut f: Frame<1> = Frame::blank(3, 2);
    // Slots y * 3 + 2x + s: site (1, 1, 1) is slot 6, past the end.
    let r = f.draw_samples(0, 2, 0, 2, |_, _, _| vec![Some(px(1.0, 0.2, Some((1, 2, 3))))]);
    assert_eq!(r, Err((1, 1, 1)));
    // Uncovered samples outside the frame are no error.
    let mut g: Frame<1> = Frame::blank(3, 2);
    let r = g.draw_samples(0, 2, 0, 2, |x, y, s| {
        if y * 3 + 2 * x + s < 6 {
            vec![Some(px(1.0, 0.2, None))]
        } else {
            vec![None]
        }
    });
    assert_eq!(r, Ok(()));
}

#[test]
fn draw_samples_stops_at_a_run_longer_than_the_cell() {
    let mut f: Frame<1> = Frame::blank(4, 1);
    let r = f.draw_samples(0, 1, 0, 1, |_, _, _| vec![None, Some(px(1.0, 0.2, None))]);
    assert_eq!(r, Err((0, 0, 0)));
    let r = f.draw_samples(0, 1, 0, 1, |_, _, _| vec![Some(px(1.0, 0.2, None)), None]);
    assert_eq!(r, Ok(()));
}

#[test]
fn overlapping_half_cells_keep_the_nearest() {
    // Two columns wide: site (1, 0, 0) and site (0, 1, 0) share slot 2.
    let mut f: Frame<1> = Frame::blank(2, 2);
    let r = f.draw_samples(0, 2, 0, 2, |x, y, s| {
        let z = if (x, y, s) == (1, 0, 0) { 5.0 } else { 3.0 };
        vec![Some(px(z, 0.3, Some((x as u8, y as u8, s as u8))))]
    });
    // Slot 3 is shared by (1, 0, 1) and (0, 1, 1), both at depth 3: the first stays.
    assert_eq!(r, Err((1, 1, 0)));
    assert_eq!(f.shader_buffer[2][0].z, 3.0f32.to_bits());
    assert_eq!(f.shader_buffer[2][0].color, Some((0, 1, 0)));
    assert_eq!(f.shader_buffer[3][0].color, Some((1, 0, 1)));
}

fn depths<const N: usize>(f: &Frame<N>) -> Vec<Vec<u32>> {
    f.shader_buffer.iter().map(|c| c.iter().map(|p| p.z).collect()).collect()
}

#[test]
fn redrawing_the_same_runs_changes_nothing() {
    let sample = |x: usize, y: usize, s: usize| {
        vec![Some(px((x * 3 + y + s) as f32 - 2.0, 0.4, Some((x as u8, y as u8, 9)))), None]
    };
    let mut f: Frame<2> = Frame::blank(4, 2);
    assert_eq!(f.draw_samples(0, 2, 0, 2, sample), Ok(()));
    let once: Vec<Vec<Option<(u8, u8, u8)>>> =
        f.shader_buffer.iter().map(|c| c.iter().map(|p| p.color).collect()).collect();
    let once_depths = depths(&f);
    assert_eq!(f.draw_samples(0, 2, 0, 2, sample), Ok(()));
    let twice: Vec<Vec<Option<(u8, u8, u8)>>> =
        f.shader_buffer.iter().map(|c| c.iter().map(|p| p.color).collect()).collect();
    assert_eq!(once, twice);
    assert_eq!(once_depths, depths(&f));
}

#[test]
fn two_draws_in_either_order_leave_the_same_depths() {
    let first = |x: usize, y: usize, s: usize| vec![Some(px((x + 2 * y + s) as f32, 0.1, Some((1, 0, 0))))];
    let second = |x: usize, y: usize, s: usize| vec![Some(px(3.5 - (x + y + s) as f32, 0.2, Some((2, 0, 0))))];
    let mut f: Frame<1> = Frame::blank(4, 2);
    let mut g: Frame<1> = Frame::blank(4, 2);
    assert_eq!(f.draw_samples(0, 2, 0, 2, first), Ok(()));
    assert_eq!(f.draw_samples(0, 2, 0, 2, second), Ok(()));
    assert_eq!(g.draw_samples(0, 2, 0, 2, second), Ok(()));
    assert_eq!(g.draw_samples(0, 2, 0, 2, first), Ok(()));
    assert_eq!(depths(&f), depths(&g));
}

#[test]
fn changed_samples_are_strictly_nearer() {
    let mut f: Frame<1> = Frame::blank(4, 2);
    assert_eq!(f.draw_samples(0, 2, 0, 2, |x, _, _| vec![Some(px(x as f32, 0.1, Some((1, 1, 1))))]), Ok(()));
    let before = depths(&f);
    assert_eq!(f.draw_samples(0, 2, 0, 2, |_, _, _| vec![Some(px(0.5, 0.1, Some((2, 2, 2))))]), Ok(()));
    for (b, a) in before.iter().zip(depths(&f).iter()) {
        let (b, a) = (f32::from_bits(b[0]), f32::from_bits(a[0]));
        assert!(a == b || a < b);
    }
}

#[test]
fn render_of_an_empty_frame_without_samples() {
    let mut f: Frame<0> = Frame::blank(0, 3);
    f.render(&vec![]);
    assert!(f.frame_buffer.is_empty());
}

#[test]
fn written_samples_come_from_the_run_at_their_site() {
    let mut f: Frame<2> = Frame::blank(4, 1);
    let r = f.draw_samples(0, 2, 0, 1, |x, _, seg| {
        if seg == 1 {
            vec![None, Some(px(x as f32, 0.3, Some((x as u8, seg as u8, 7))))]
        } else {
            vec![Some(px(1.0 + x as f32, 0.2, Some((x as u8, seg as u8, 8)))), None]
        }
    });
    assert_eq!(r, Ok(()));
    let fields = |p: &Pixel| (f32::from_bits(p.z), f32::from_bits(p.shade), p.color);
    let got: Vec<Vec<(f32, f32, Option<(u8, u8, u8)>)>> =
        f.shader_buffer.iter().map(|run| run.iter().map(fields).collect()).collect();
    let far = (f32::MAX, 0.0, None);
    assert_eq!(
        got,
        vec![
            vec![(1.0, 0.2, Some((0, 0, 8))), far],
            vec![far, (0.0, 0.3, Some((0, 1, 7)))],
            vec![(2.0, 0.2, Some((1, 0, 8))), far],
            vec![far, (1.0, 0.3, Some((1, 1, 7)))],
        ]
    );
}
