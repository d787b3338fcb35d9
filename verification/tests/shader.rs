use rendersloth::binary32::bits_at_most;
use rendersloth::SimpleShader;

/// The threshold scale, computed with floats.
fn reference_glyph(shade: f32) -> char {
    if shade <= 0.05 {
        ' '
    } else if shade <= 0.20 {
        '.'
    } else if shade <= 0.30 {
        ':'
    } else if shade <= 0.40 {
        '-'
    } else if shade <= 0.50 {
        '='
    } else if shade <= 0.60 {
        '+'
    } else if shade <= 0.70 {
        '*'
    } else if shade <= 0.80 {
        '#'
    } else if shade <= 0.90 {
        '%'
    } else if shade <= 1.0 {
        '@'
    } else {
        ' '
    }
}

#[test]
fn glyphs_of_the_scale() {
    let s = SimpleShader::new();
    assert_eq!(s.glyph(0.0f32.to_bits()), ' ');
    assert_eq!(s.glyph(0.05f32.to_bits()), ' ');
    assert_eq!(s.glyph(0.1f32.to_bits()), '.');
    assert_eq!(s.glyph(0.25f32.to_bits()), ':');
    assert_eq!(s.glyph(0.35f32.to_bits()), '-');
    assert_eq!(s.glyph(0.5f32.to_bits()), '=');
    assert_eq!(s.glyph(0.55f32.to_bits()), '+');
    assert_eq!(s.glyph(0.65f32.to_bits()), '*');
    assert_eq!(s.glyph(0.75f32.to_bits()), '#');
    assert_eq!(s.glyph(0.85f32.to_bits()), '%');
    assert_eq!(s.glyph(1.0f32.to_bits()), '@');
    assert_eq!(s.glyph(1.5f32.to_bits()), ' ');
    assert_eq!(s.glyph(f32::NAN.to_bits()), ' ');
    assert_eq!(s.glyph((-3.0f32).to_bits()), ' ');
}

#[test]
fn glyphs_match_float_thresholds() {
    let s = SimpleShader::new();
    let thresholds = [0.05f32, 0.20, 0.30, 0.40, 0.50, 0.60, 0.70, 0.80, 0.90, 1.0];
    let mut values: Vec<f32> = vec![f32::NAN, f32::INFINITY, f32::NEG_INFINITY, -0.0, 0.0];
    for t in thresholds {
        let b = t.to_bits();
        values.push(t);
        values.push(f32::from_bits(b - 1));
        values.push(f32::from_bits(b + 1));
    }
    for k in 0..=2000 {
        values.push(k as f32 / 1000.0 - 0.5);
    }
    for v in values {
        assert_eq!(s.glyph(v.to_bits()), reference_glyph(v), "{:?}", v);
    }
}

#[test]
fn at_most_agrees_with_float_comparison() {
    let xs = [0.0f32, -0.0, 1.0, -1.0, 0.3, f32::NAN, f32::INFINITY, f32::NEG_INFINITY, f32::MAX];
    for a in xs {
        for b in xs {
            assert_eq!(bits_at_most(a.to_bits(), b.to_bits()), a <= b, "{:?} <= {:?}", a, b);
        }
    }
}

/// How much ink a glyph of the scale puts in a cell.
fn ink(c: char) -> usize {
    " .:-=+*#%@".chars().position(|g| g == c).unwrap()
}

#[test]
fn brighter_shades_get_no_less_ink_up_to_one() {
    let s = SimpleShader::new();
    let mut shades: Vec<f32> = (0..=1000).map(|k| k as f32 / 1000.0).collect();
    shades.insert(0, -1.0);
    let mut last = 0;
    for sh in shades {
        let level = ink(s.glyph(sh.to_bits()));
        assert!(level >= last, "{:?}", sh);
        last = level;
    }
    assert_eq!(last, 9);
}
