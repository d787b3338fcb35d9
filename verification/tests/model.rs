use rendersloth::{corner_offsets, format_of_extension, format_of_lowercase, ModelFormat};

#[test]
fn extensions_in_any_case() {
    assert_eq!(format_of_extension("obj"), Some(ModelFormat::Obj));
    assert_eq!(format_of_extension("OBJ"), Some(ModelFormat::Obj));
    assert_eq!(format_of_extension("oBj"), Some(ModelFormat::Obj));
    assert_eq!(format_of_extension("stl"), Some(ModelFormat::Stl));
    assert_eq!(format_of_extension("STL"), Some(ModelFormat::Stl));
    assert_eq!(format_of_extension("png"), None);
    assert_eq!(format_of_extension(""), None);
    assert_eq!(format_of_extension("objx"), None);
    assert_eq!(format_of_extension("ob"), None);
}

#[test]
fn ascii_uppercase_extensions_are_lowercased_letter_by_letter() {
    assert_eq!(format_of_extension("Stl"), Some(ModelFormat::Stl));
    assert_eq!(format_of_extension("OBJ "), None);
    assert_eq!(format_of_extension("0BJ"), None);
}

#[test]
fn lowercase_extensions_only() {
    assert_eq!(format_of_lowercase("obj"), Some(ModelFormat::Obj));
    assert_eq!(format_of_lowercase("stl"), Some(ModelFormat::Stl));
    assert_eq!(format_of_lowercase("OBJ"), None);
    assert_eq!(format_of_lowercase("stL"), None);
}

#[test]
fn corners_of_whole_triangles() {
    let indices: Vec<u32> = vec![0, 1, 2, 2, 3, 0, 7];
    let r = corner_offsets(&indices);
    assert_eq!(r, vec![(0, 3, 6), (6, 9, 0)]);
    let empty: Vec<u32> = vec![5, 6];
    assert_eq!(corner_offsets(&empty), vec![]);
}
