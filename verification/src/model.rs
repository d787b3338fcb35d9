//! Choosing the loader for a model file from its extension, and finding the
//! corners of an indexed triangle mesh in its flat coordinate array.
use vstd::prelude::*;

verus! {

/// The model formats the viewer reads.
#[derive(Clone, Copy, Debug, PartialEq, Eq)]
pub enum ModelFormat {
    /// Wavefront OBJ, with its materials.
    Obj,
    /// STL.
    Stl,
}

/// The Unicode lowercase mapping of a string, as `str::to_lowercase`
/// computes it.
pub uninterp spec fn lowercase(s: Seq<char>) -> Seq<char>;

/// Every character of `s` is ASCII.
pub open spec fn all_ascii(s: Seq<char>) -> bool {
    forall|i: int| 0 <= i < s.len() ==> (#[trigger] s[i] as u32) < 128
}

/// The lowercase of an ASCII character: `A` to `Z` become `a` to `z`, every
/// other character stays.
pub open spec fn ascii_lower(c: char) -> char {
    if 65 <= (c as u32) <= 90 {
        ((c as u32) + 32) as char
    } else {
        c
    }
}

/// The lowercase of an ASCII string, character by character.
pub open spec fn ascii_lowercase(s: Seq<char>) -> Seq<char> {
    s.map_values(|c: char| ascii_lower(c))
}

/// Calls `str::to_lowercase`. Its contract names the result `lowercase` of
/// the argument, and states the one part of Unicode's mapping that callers
/// need: an ASCII string maps character by character, `A` to `Z` to `a` to
/// `z` and every other character to itself. What the mapping does to other
/// characters is left to the name.
#[verifier::external_body]
fn to_lowercase(s: &str) -> (r: String)
    ensures
        r@ == lowercase(s@),
        all_ascii(s@) ==> r@ == ascii_lowercase(s@),
{
    s.to_lowercase()
}

/// The format an already lowercased extension names.
pub open spec fn format_named(ext: Seq<char>) -> Option<ModelFormat> {
    if ext == "obj"@ {
        Some(ModelFormat::Obj)
    } else if ext == "stl"@ {
        Some(ModelFormat::Stl)
    } else {
        None
    }
}

/// The format that the lowercased extension `ext` names: `obj` or `stl`,
/// or none.
pub fn format_of_lowercase(ext: &str) -> (r: Option<ModelFormat>)
    ensures
        r == format_named(ext@),
{
    proof {
        reveal_strlit("obj");
        reveal_strlit("stl");
    }
    let n = ext.unicode_len();
    if n != 3 {
        return None;
    }
    let a = ext.get_char(0);
    let b = ext.get_char(1);
    let c = ext.get_char(2);
    if a == 'o' && b == 'b' && c == 'j' {
        assert(ext@ =~= "obj"@);
        Some(ModelFormat::Obj)
    } else if a == 's' && b == 't' && c == 'l' {
        assert(ext@ =~= "stl"@);
        Some(ModelFormat::Stl)
    } else {
        assert(ext@ != "obj"@ && ext@ != "stl"@) by {
            if ext@ == "obj"@ {
                assert(ext@[0] == 'o' && ext@[1] == 'b' && ext@[2] == 'j');
            }
            if ext@ == "stl"@ {
                assert(ext@[0] == 's' && ext@[1] == 't' && ext@[2] == 'l');
            }
        }
        None
    }
}

/// The format a file extension names, in any case.
pub fn format_of_extension(ext: &str) -> (r: Option<ModelFormat>)
    ensures
        r == format_named(lowercase(ext@)),
        all_ascii(ext@) ==> r == format_named(ascii_lowercase(ext@)),
{
    let lower = to_lowercase(ext);
    format_of_lowercase(lower.as_str())
}

/// The offset in a flat coordinate array (three numbers per vertex) of the
/// vertex with index `v`.
pub open spec fn vertex_offset(v: u32) -> int {
    3 * v
}

/// Offsets of vertices: vertex 0 is at offset 0, each next vertex three
/// further on, and two different vertices never share an offset.
pub proof fn lemma_vertex_offset_law(v: u32, w: u32)
    ensures
        vertex_offset(0) == 0,
        v < u32::MAX ==> vertex_offset((v + 1) as u32) == vertex_offset(v) + 3,
        v != w ==> vertex_offset(v) != vertex_offset(w),
        vertex_offset(v) == 3 * (v as int),
{
}

/// For each whole triangle `t` of the index list `indices` (three indices
/// per triangle; a trailing partial triangle is ignored), the offsets of
/// its three corners in the flat coordinate array: `3 * indices[3t + k]`.
pub fn corner_offsets(indices: &Vec<u32>) -> (r: Vec<(usize, usize, usize)>)
    requires
        forall|i: int|
            0 <= i < 3 * (indices@.len() / 3) ==> vertex_offset(#[trigger] indices@[i]) + 2
                <= u32::MAX,
    ensures
        r@.len() == indices@.len() / 3,
        forall|t: int|
            0 <= t < r@.len() ==> #[trigger] r@[t] == (
                vertex_offset(indices@[3 * t]) as usize,
                vertex_offset(indices@[3 * t + 1]) as usize,
                vertex_offset(indices@[3 * t + 2]) as usize,
            ),
        forall|t: int|
            0 <= t < r@.len() ==> #[trigger] r@[t].0 as int == 3 * (indices@[3 * t] as int) && r@[t].1 as int
                == 3 * (indices@[3 * t + 1] as int) && r@[t].2 as int == 3 * (indices@[3 * t + 2] as int),
{
    let n = indices.len();
    let count = n / 3;
    let mut r: Vec<(usize, usize, usize)> = Vec::new();
    let mut t: usize = 0;
    while t < count
        invariant
            t <= count,
            n == indices@.len(),
            count == n / 3,
            r@.len() == t,
            forall|i: int|
                0 <= i < 3 * (indices@.len() / 3) ==> vertex_offset(#[trigger] indices@[i]) + 2
                    <= u32::MAX,
            forall|u: int|
                0 <= u < t ==> #[trigger] r@[u] == (
                    vertex_offset(indices@[3 * u]) as usize,
                    vertex_offset(indices@[3 * u + 1]) as usize,
                    vertex_offset(indices@[3 * u + 2]) as usize,
                ),
        decreases count - t,
    {
        let base = t * 3;
        let a = indices[base] * 3;
        let b = indices[base + 1] * 3;
        let c = indices[base + 2] * 3;
        r.push((a as usize, b as usize, c as usize));
        t = t + 1;
    }
    r
}

} // verus!
