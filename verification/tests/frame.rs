use rendersloth::{dominant_color, Frame, Pixel, SimpleShader};

fn px(z: f32, shade: f32, color: Option<(u8, u8, u8)>) -> Pixel {
    Pixel { z: z.to_bits(), shade: shade.to_bits(), color }
}

/// The dominant colour of a run of samples computed on floats: the centre
/// sample's colour if it has one, else the colour of the sample that
/// `max_by` with `partial_cmp` (a NaN counting as less) picks by shade,
/// else black.
fn reference_color(point: &[(f32, Option<(u8, u8, u8)>)]) -> (u8, u8, u8) {
    match point[point.len() / 2].1 {
        Some(c) => c,
        None => point
            .iter()
            .max_by(|a, b| a.0.partial_cmp(&b.0).unwrap_or(std::cmp::Ordering::Less))
            .unwrap()
            .1
            .unwrap_or((0, 0, 0)),
    }
}

#[test]
fn simple_shader_is_made() {
    let _s: SimpleShader = SimpleShader::new();
}

#[test]
fn blank_pixel_is_far_and_dark() {
    let p = Pixel::blank();
    assert_eq!(p.z, f32::MAX.to_bits());
    assert_eq!(p.shade, 0.0f32.to_bits());
    assert_eq!(p.color, None);
}

#[test]
fn blank_frame_has_one_entry_per_cell() {
    let f: Frame<9> = Frame::blank(4, 3);
    assert_eq!(f.width, 4);
    assert_eq!(f.height, 3);
    assert_eq!(f.frame_buffer.len(), 12);
    assert_eq!(f.shader_buffer.len(), 12);
    for c in &f.frame_buffer {
        assert_eq!(*c, (' ', (0, 0, 0)));
    }
    for cell in &f.shader_buffer {
        assert_eq!(cell.len(), 9);
        for p in cell {
            assert_eq!(p.z, f32::MAX.to_bits());
            assert_eq!(p.color, None);
        }
    }
}

#[test]
fn empty_frame() {
    let f: Frame<1> = Frame::blank(0, 7);
    assert_eq!(f.frame_buffer.len(), 0);
    assert_eq!(f.shader_buffer.len(), 0);
}

#[test]
fn fill_then_clear() {
    let mut f: Frame<1> = Frame::blank(3, 2);
    f.fill(('#', (1, 2, 3)));
    assert!(f.frame_buffer.iter().all(|c| *c == ('#', (1, 2, 3))));
    let cell = f.cell_index(0, 0, 0).unwrap();
    assert!(f.plot(cell, 0, px(1.0, 0.5, Some((9, 9, 9)))));
    f.clear();
    assert!(f.frame_buffer.iter().all(|c| *c == (' ', (0, 0, 0))));
    assert_eq!(f.shader_buffer[0][0].z, f32::MAX.to_bits());
    assert_eq!(f.shader_buffer[0][0].color, None);
}

#[test]
fn cell_index_steps_two_slots_per_column() {
    let f: Frame<1> = Frame::blank(5, 3);
    assert_eq!(f.cell_index(0, 0, 0), Some(0));
    assert_eq!(f.cell_index(0, 0, 1), Some(1));
    assert_eq!(f.cell_index(1, 0, 0), Some(2));
    assert_eq!(f.cell_index(2, 1, 1), Some(10));
    assert_eq!(f.cell_index(4, 2, 0), None);
    assert_eq!(f.cell_index(0, 3, 0), None);
    assert_eq!(f.cell_index(usize::MAX, 0, 0), None);
    assert_eq!(f.cell_index(0, usize::MAX, 0), None);
}

#[test]
fn depth_test_keeps_nearest() {
    let mut f: Frame<1> = Frame::blank(2, 2);
    assert!(f.plot(0, 0, px(5.0, 0.1, Some((1, 0, 0)))));
    assert!(!f.plot(0, 0, px(7.0, 0.2, Some((2, 0, 0)))));
    assert!(!f.plot(0, 0, px(5.0, 0.3, Some((3, 0, 0)))));
    assert!(f.plot(0, 0, px(-1.0, 0.4, Some((4, 0, 0)))));
    assert!(!f.plot(0, 0, px(f32::NAN, 0.5, Some((5, 0, 0)))));
    assert_eq!(f.shader_buffer[0][0].color, Some((4, 0, 0)));
    assert_eq!(f.shader_buffer[0][0].z, (-1.0f32).to_bits());
    assert_eq!(f.shader_buffer[1][0].z, f32::MAX.to_bits());
}

#[test]
fn depth_test_treats_zeros_as_equal() {
    let mut f: Frame<1> = Frame::blank(1, 1);
    assert!(f.plot(0, 0, px(0.0, 0.1, Some((1, 1, 1)))));
    assert!(!f.plot(0, 0, px(-0.0, 0.1, Some((2, 2, 2)))));
    assert_eq!(f.shader_buffer[0][0].color, Some((1, 1, 1)));
}

#[test]
fn infinite_depth_is_behind_the_back_wall() {
    let mut f: Frame<1> = Frame::blank(1, 1);
    assert!(!f.plot(0, 0, px(f32::INFINITY, 0.1, Some((1, 1, 1)))));
    assert!(f.plot(0, 0, px(f32::NEG_INFINITY, 0.1, Some((1, 1, 1)))));
}

#[test]
fn drawing_order_does_not_matter_for_distinct_depths() {
    let frags = [
        (0usize, px(3.0, 0.1, Some((1, 0, 0)))),
        (0usize, px(2.0, 0.2, Some((2, 0, 0)))),
        (1usize, px(9.0, 0.3, Some((3, 0, 0)))),
        (0usize, px(4.0, 0.4, Some((4, 0, 0)))),
    ];
    let mut a: Frame<2> = Frame::blank(1, 1);
    for (i, p) in frags.iter() {
        a.plot(0, *i, *p);
    }
    let mut b: Frame<2> = Frame::blank(1, 1);
    for (i, p) in frags.iter().rev() {
        b.plot(0, *i, *p);
    }
    for k in 0..2 {
        assert_eq!(a.shader_buffer[0][k].z, b.shader_buffer[0][k].z);
        assert_eq!(a.shader_buffer[0][k].color, b.shader_buffer[0][k].color);
    }
    assert_eq!(a.shader_buffer[0][0].color, Some((2, 0, 0)));
}

#[test]
fn dominant_color_prefers_the_centre() {
    let point = [
        px(1.0, 0.9, Some((1, 1, 1))),
        px(1.0, 0.1, Some((2, 2, 2))),
        px(1.0, 0.5, None),
    ];
    assert_eq!(dominant_color(&point), (2, 2, 2));
}

#[test]
fn dominant_color_of_brightest_else_black() {
    let point = [
        px(1.0, 0.9, Some((1, 1, 1))),
        px(1.0, 0.1, None),
        px(1.0, 0.9, Some((3, 3, 3))),
    ];
    assert_eq!(dominant_color(&point), (3, 3, 3));
    let dark = [px(1.0, 0.9, None), px(1.0, 0.1, None), px(1.0, 0.2, Some((5, 5, 5)))];
    assert_eq!(dominant_color(&dark), (0, 0, 0));
    let single = [Pixel::blank()];
    assert_eq!(dominant_color(&single), (0, 0, 0));
}

#[test]
fn dominant_color_matches_max_by_on_floats() {
    let shades = [0.3f32, 0.7, f32::NAN, 0.7, -0.0, 0.0, 0.1, f32::INFINITY];
    let colors = [
        Some((1u8, 0u8, 0u8)),
        Some((2, 0, 0)),
        Some((3, 0, 0)),
        None,
        Some((5, 0, 0)),
        Some((6, 0, 0)),
        Some((7, 0, 0)),
        Some((8, 0, 0)),
    ];
    // Every run of five samples with an empty centre.
    for start in 0..shades.len() {
        for len in [1usize, 3, 5] {
            let mut run = Vec::new();
            let mut pixels = Vec::new();
            for k in 0..len {
                let j = (start + k) % shades.len();
                let color = if k == len / 2 { None } else { colors[j] };
                run.push((shades[j], color));
                pixels.push(px(1.0, shades[j], color));
            }
            assert_eq!(dominant_color(&pixels), reference_color(&run));
        }
    }
}

#[test]
fn render_writes_glyph_and_colour() {
    let mut f: Frame<1> = Frame::blank(2, 1);
    assert!(f.plot(1, 0, px(1.0, 0.5, Some((10, 20, 30)))));
    f.render(&vec!['a', 'b']);
    assert_eq!(f.frame_buffer, vec![('a', (0, 0, 0)), ('b', (10, 20, 30))]);
}

#[test]
fn charxel_lookup_is_row_major() {
    let mut f: Frame<1> = Frame::blank(3, 2);
    f.render(&vec!['a', 'b', 'c', 'd', 'e', 'f']);
    assert_eq!(f.charxel_at(0, 0).0, 'a');
    assert_eq!(f.charxel_at(2, 0).0, 'c');
    assert_eq!(f.charxel_at(0, 1).0, 'd');
    assert_eq!(f.charxel_at(2, 1).0, 'f');
}

#[test]
fn display_order_with_and_without_line_breaks() {
    let mut f: Frame<1> = Frame::blank(2, 2);
    f.render(&vec!['a', 'b', 'c', 'd']);
    let shown: Vec<Option<char>> = f.display_order(true).iter().map(|c| c.map(|c| c.0)).collect();
    assert_eq!(shown, vec![Some('a'), Some('b'), None, Some('c'), Some('d'), None]);
    let shown: Vec<Option<char>> = f.display_order(false).iter().map(|c| c.map(|c| c.0)).collect();
    assert_eq!(shown, vec![Some('a'), Some('b'), Some('c'), Some('d')]);
}

#[test]
fn render_simple_writes_scale_glyph_and_colour() {
    let mut f: Frame<1> = Frame::blank(3, 1);
    assert!(f.plot(0, 0, px(1.0, 0.1, Some((5, 6, 7)))));
    assert!(f.plot(2, 0, px(1.0, 1.0, Some((9, 9, 9)))));
    f.render_simple(&SimpleShader::new());
    assert_eq!(f.frame_buffer, vec![('.', (5, 6, 7)), (' ', (0, 0, 0)), ('@', (9, 9, 9))]);
}

#[test]
fn render_simple_agrees_with_render_of_the_glyphs() {
    let s = SimpleShader::new();
    let mut a: Frame<1> = Frame::blank(2, 2);
    let shades = [0.0f32, 0.35, 0.72, 2.0];
    for (i, sh) in shades.iter().enumerate() {
        assert!(a.plot(i, 0, px(0.5, *sh, Some((i as u8, 1, 2)))));
    }
    let mut b = Frame::<1> { width: a.width, height: a.height, frame_buffer: a.frame_buffer.clone(), shader_buffer: a.shader_buffer.clone() };
    let glyphs: Vec<char> = b.shader_buffer.iter().map(|p| s.glyph(p[0].shade)).collect();
    a.render_simple(&s);
    b.render(&glyphs);
    assert_eq!(a.frame_buffer, b.frame_buffer);
    assert_eq!(a.frame_buffer[1].0, '-');
    assert_eq!(a.frame_buffer[2].0, '#');
}
