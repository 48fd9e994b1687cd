//! Building a scene from its description: textures, materials and shapes
//! are declared by kind and refer to one another by name. Here the kinds are
//! recognised and the names resolved; a declaration that cannot be built is
//! reported with its place in its list. The text of a mesh file's face
//! entries is read here too.

use vstd::prelude::*;
use vstd::string::StringSliceAdditionalSpecFns;
use crate::material::{clamped_fuzz, Dielectric, DiffuseLight, Lambertian, Metal};
use crate::scalar::Scalar;
use crate::sphere::Sphere;
use crate::texture::{CheckerTexture, ConstantTexture};
use crate::vector::Vec3;

verus! {

/// The byte `/`, which separates the parts of a face fragment.
pub const SLASH: u8 = 47u8;

/// The byte `+`, which may stand before a number.
pub const PLUS: u8 = 43u8;

/// Whether a byte is a decimal digit.
pub open spec fn is_digit(b: u8) -> bool {
    48 <= b <= 57
}

/// The number that a run of digits writes.
pub open spec fn digits_value(s: Seq<u8>) -> nat
    decreases s.len(),
{
    if s.len() == 0 {
        0
    } else {
        digits_value(s.drop_last()) * 10 + (s.last() - 48) as nat
    }
}

/// The digits of a number text: the text without a leading `+`.
pub open spec fn digits_of(s: Seq<u8>) -> Seq<u8> {
    if s.len() > 0 && s[0] == PLUS {
        s.subrange(1, s.len() as int)
    } else {
        s
    }
}

/// The number that a text writes: an optional `+` and then one digit or
/// more, of a value that a `usize` holds. Any other text writes no number.
pub open spec fn unsigned_of(s: Seq<u8>) -> Option<usize> {
    let body = digits_of(s);
    if body.len() > 0 && (forall|i: int| 0 <= i < body.len() ==> is_digit(#[trigger] body[i]))
        && digits_value(body) <= usize::MAX {
        Some(digits_value(body) as usize)
    } else {
        None
    }
}

/// A run of digits writes at least what any of its beginnings writes.
pub proof fn lemma_digits_value_grows(s: Seq<u8>, k: int)
    requires
        0 <= k <= s.len(),
        forall|i: int| 0 <= i < s.len() ==> is_digit(#[trigger] s[i]),
    ensures
        digits_value(s.take(k)) <= digits_value(s),
    decreases s.len(),
{
    if k < s.len() {
        let shorter = s.drop_last();
        assert(shorter.take(k) =~= s.take(k));
        lemma_digits_value_grows(shorter, k);
    } else {
        assert(s.take(k) =~= s);
    }
}

/// Reads the number that the bytes `from .. to` of `s` write.
pub fn parse_unsigned(s: &[u8], from: usize, to: usize) -> (n: Option<usize>)
    requires
        from <= to <= s@.len(),
    ensures
        n == unsigned_of(s@.subrange(from as int, to as int)),
{
    let ghost text = s@.subrange(from as int, to as int);
    let start: usize = if from < to && s[from] == PLUS {
        from + 1
    } else {
        from
    };
    let ghost body = digits_of(text);
    proof {
        assert(body =~= s@.subrange(start as int, to as int));
    }
    if start == to {
        return None;
    }
    let mut value: usize = 0;
    let mut at: usize = start;
    while at < to
        invariant
            from <= start <= at <= to <= s@.len(),
            text == s@.subrange(from as int, to as int),
            body == digits_of(text),
            body == s@.subrange(start as int, to as int),
            forall|i: int| 0 <= i < at - start ==> is_digit(#[trigger] body[i]),
            value == digits_value(body.take(at - start)),
        decreases to - at,
    {
        let b: u8 = s[at];
        if b < 48 || b > 57 {
            proof {
                assert(body[at - start] == b);
                assert(!is_digit(body[at - start]));
            }
            return None;
        }
        let digit: usize = (b - 48) as usize;
        let ghost longer = body.take(at - start + 1);
        proof {
            assert(longer.drop_last() =~= body.take(at - start));
            assert(longer.last() == b);
        }
        if value > (usize::MAX - digit) / 10 {
            proof {
                assert(digits_value(longer) > usize::MAX);
                if forall|i: int| 0 <= i < body.len() ==> is_digit(#[trigger] body[i]) {
                    lemma_digits_value_grows(body, at - start + 1);
                }
            }
            return None;
        }
        value = value * 10 + digit;
        at += 1;
    }
    proof {
        assert(body.take(at - start) =~= body);
    }
    Some(value)
}

/// `at` is the place of the first `/` in `s`, or the length of `s` where it
/// holds none.
pub open spec fn is_first_slash(s: Seq<u8>, at: int) -> bool {
    &&& 0 <= at <= s.len()
    &&& forall|i: int| 0 <= i < at ==> #[trigger] s[i] != SLASH
    &&& at < s.len() ==> s[at] == SLASH
}

/// The place of the first `/` in `s`, or the length of `s`.
pub open spec fn first_slash(s: Seq<u8>) -> int {
    choose|at: int| is_first_slash(s, at)
}

/// There is one such place, and no other.
pub proof fn lemma_first_slash(s: Seq<u8>, at: int)
    requires
        is_first_slash(s, at),
    ensures
        first_slash(s) == at,
{
    let other = first_slash(s);
    assert(is_first_slash(s, other));
    if other < at {
        assert(s[other] != SLASH);
    } else if at < other {
        assert(s[at] != SLASH);
    }
}

/// What a face fragment names: a vertex, a texture coordinate and a normal,
/// each by its number.
///
/// A fragment without `/` is one number, which names the vertex and the
/// normal; the texture coordinate is then 0. A fragment with two `/` has
/// three parts: the first and the third must be numbers, and the second
/// counts as 0 where it is none. Every other text is no fragment.
pub open spec fn face_fragment_of(s: Seq<u8>) -> Option<(usize, usize, usize)> {
    let p = first_slash(s);
    if p == s.len() {
        match unsigned_of(s) {
            Some(v) => Some((v, 0usize, v)),
            None => None,
        }
    } else {
        let rest = s.subrange(p + 1, s.len() as int);
        let q = first_slash(rest);
        if q == rest.len() {
            None
        } else {
            let tail = rest.subrange(q + 1, rest.len() as int);
            if first_slash(tail) != tail.len() {
                None
            } else {
                match (unsigned_of(s.subrange(0, p)), unsigned_of(tail)) {
                    (Some(v), Some(n)) => Some(
                        (
                            v,
                            match unsigned_of(rest.subrange(0, q)) {
                                Some(tc) => tc,
                                None => 0usize,
                            },
                            n,
                        ),
                    ),
                    _ => None,
                }
            }
        }
    }
}

/// Finds the first `/` at or after `from` and before `to`.
fn find_slash(s: &[u8], from: usize, to: usize) -> (at: usize)
    requires
        from <= to <= s@.len(),
    ensures
        from <= at <= to,
        is_first_slash(s@.subrange(from as int, to as int), at - from),
{
    let mut at: usize = from;
    while at < to && s[at] != SLASH
        invariant
            from <= at <= to <= s@.len(),
            forall|i: int| from <= i < at ==> #[trigger] s@[i] != SLASH,
        decreases to - at,
    {
        at += 1;
    }
    at
}

/// Reads the fragment of a face entry that the bytes `from .. to` of `s`
/// write.
pub fn face_fragment_in(s: &[u8], from: usize, to: usize) -> (out: Option<(usize, usize, usize)>)
    requires
        from <= to <= s@.len(),
    ensures
        out == face_fragment_of(s@.subrange(from as int, to as int)),
{
    let ghost text = s@.subrange(from as int, to as int);
    let p = find_slash(s, from, to);
    proof {
        lemma_first_slash(text, p - from);
    }
    if p == to {
        return match parse_unsigned(s, from, to) {
            Some(v) => Some((v, 0, v)),
            None => None,
        };
    }
    let ghost rest = text.subrange(p - from + 1, text.len() as int);
    let q = find_slash(s, p + 1, to);
    proof {
        assert(rest =~= s@.subrange(p + 1, to as int));
        lemma_first_slash(rest, q - (p + 1));
    }
    if q == to {
        return None;
    }
    let ghost tail = rest.subrange(q - p, rest.len() as int);
    let end = find_slash(s, q + 1, to);
    proof {
        assert(tail =~= s@.subrange(q + 1, to as int));
        lemma_first_slash(tail, end - (q + 1));
    }
    if end != to {
        return None;
    }
    proof {
        assert(rest.subrange(0, q - (p + 1)) =~= s@.subrange(p + 1, q as int));
        assert(text.subrange(0, p - from) =~= s@.subrange(from as int, p as int));
    }
    let tc: usize = match parse_unsigned(s, p + 1, q) {
        Some(x) => x,
        None => 0,
    };
    let v = parse_unsigned(s, from, p);
    let n = parse_unsigned(s, q + 1, to);
    match (v, n) {
        (Some(v), Some(n)) => Some((v, tc, n)),
        _ => None,
    }
}

/// Reads one fragment of a face entry, such as `7`, `7/2/5` or `7//5`.
pub fn parse_face_fragment(s: &str) -> (out: Option<(usize, usize, usize)>)
    ensures
        out == face_fragment_of(s.spec_bytes()),
{
    let bytes = s.as_bytes();
    proof {
        assert(bytes@.subrange(0, bytes@.len() as int) =~= bytes@);
    }
    face_fragment_in(bytes, 0, bytes.len())
}

/// The byte that separates the fields of a line.
pub const SPACE: u8 = 32u8;

/// What a line of a mesh file holds.
#[derive(Clone, Copy, Debug, PartialEq, Eq, Structural)]
pub enum LineKind {
    /// A vertex: the line begins with `v` and a space.
    Vertex,
    /// A normal: the line begins with `vn`.
    Normal,
    /// A face: the line begins with `f` and a space.
    Face,
    /// Anything else, which is passed over.
    Other,
}

/// What a line holds, by its first two bytes.
pub open spec fn line_kind_of(s: Seq<u8>) -> LineKind {
    if s.len() >= 2 && s[0] == 118 && s[1] == SPACE {
        LineKind::Vertex
    } else if s.len() >= 2 && s[0] == 118 && s[1] == 110 {
        LineKind::Normal
    } else if s.len() >= 2 && s[0] == 102 && s[1] == SPACE {
        LineKind::Face
    } else {
        LineKind::Other
    }
}

/// Tells what a line of a mesh file holds.
pub fn line_kind(line: &str) -> (kind: LineKind)
    ensures
        kind == line_kind_of(line.spec_bytes()),
{
    let s = line.as_bytes();
    if s.len() < 2 {
        LineKind::Other
    } else if s[0] == 118 && s[1] == SPACE {
        LineKind::Vertex
    } else if s[0] == 118 && s[1] == 110 {
        LineKind::Normal
    } else if s[0] == 102 && s[1] == SPACE {
        LineKind::Face
    } else {
        LineKind::Other
    }
}

/// The bytes `from .. to` are a field of the line: a run of bytes other than
/// spaces that begins after a space and ends before one, or at the line's
/// end. What stands before the first space of a line is its keyword, and no
/// field.
pub open spec fn is_field(s: Seq<u8>, from: int, to: int) -> bool {
    &&& 1 <= from < to <= s.len()
    &&& s[from - 1] == SPACE
    &&& to < s.len() ==> s[to] == SPACE
    &&& forall|i: int| from <= i < to ==> #[trigger] s[i] != SPACE
}

/// The list holds the fields of the line, each once, from left to right.
pub open spec fn are_fields(s: Seq<u8>, spans: Seq<(usize, usize)>) -> bool {
    &&& forall|k: int| 0 <= k < spans.len() ==> is_field(s, (#[trigger] spans[k]).0 as int, spans[k].1 as int)
    &&& forall|k: int, m: int| 0 <= k < m < spans.len() ==> (#[trigger] spans[k]).1 < (#[trigger] spans[m]).0
    &&& forall|from: int, to: int|
        #[trigger] is_field(s, from, to) ==> exists|k: int|
            0 <= k < spans.len() && (#[trigger] spans[k]).0 == from && spans[k].1 == to
}

/// The fields of a line: where each begins and ends.
pub fn fields(s: &[u8]) -> (spans: Vec<(usize, usize)>)
    ensures
        are_fields(s@, spans@),
{
    let mut spans: Vec<(usize, usize)> = Vec::new();
    let mut i: usize = 0;
    while i < s.len() && s[i] != SPACE
        invariant
            i <= s@.len(),
            forall|k: int| 0 <= k < i ==> #[trigger] s@[k] != SPACE,
        decreases s@.len() - i,
    {
        i += 1;
    }
    while i < s.len()
        invariant
            i <= s@.len(),
            i < s@.len() ==> s@[i as int] == SPACE || (i >= 1 && s@[i - 1] == SPACE),
            forall|k: int|
                0 <= k < spans@.len() ==> is_field(
                    s@,
                    (#[trigger] spans@[k]).0 as int,
                    spans@[k].1 as int,
                ) && spans@[k].1 <= i,
            forall|k: int, m: int|
                0 <= k < m < spans@.len() ==> (#[trigger] spans@[k]).1 < (#[trigger] spans@[m]).0,
            forall|from: int, to: int|
                #[trigger] is_field(s@, from, to) && from < i ==> exists|k: int|
                    0 <= k < spans@.len() && (#[trigger] spans@[k]).0 == from && spans@[k].1 == to,
        decreases s@.len() - i,
    {
        if s[i] == SPACE {
            i += 1;
        } else {
            let start: usize = i;
            let mut end: usize = i;
            while end < s.len() && s[end] != SPACE
                invariant
                    start <= end <= s@.len(),
                    forall|k: int| start <= k < end ==> #[trigger] s@[k] != SPACE,
                decreases s@.len() - end,
            {
                end += 1;
            }
            let ghost before = spans@;
            spans.push((start, end));
            proof {
                assert(is_field(s@, start as int, end as int));
                assert forall|from: int, to: int| #[trigger]
                    is_field(s@, from, to) && from < end implies exists|k: int|
                    0 <= k < spans@.len() && (#[trigger] spans@[k]).0 == from && spans@[k].1
                        == to by {
                    if from < start {
                        let k = choose|k: int|
                            0 <= k < before.len() && (#[trigger] before[k]).0 == from && before[k].1
                                == to;
                        assert(spans@[k] == before[k]);
                    } else if from == start {
                        if to < end {
                            assert(s@[to] != SPACE);
                        } else if to > end {
                            assert(s@[end as int] != SPACE);
                        }
                        assert(spans@[before.len() as int].0 == from);
                    } else {
                        assert(s@[from - 1] != SPACE);
                    }
                }
                assert forall|k: int, m: int| 0 <= k < m < spans@.len() implies (
                #[trigger] spans@[k]).1 < (#[trigger] spans@[m]).0 by {
                    if m == before.len() {
                        assert(spans@[k] == before[k]);
                        assert(before[k].1 <= start);
                        assert(is_field(s@, before[k].0 as int, before[k].1 as int));
                        if before[k].1 == start {
                            assert(s@[start as int] == SPACE);
                        }
                    } else {
                        assert(spans@[k] == before[k] && spans@[m] == before[m]);
                    }
                }
            }
            i = end;
        }
    }
    spans
}

/// The corners that a face line names, one for each of its fields; nothing
/// where some field is no fragment.
pub open spec fn face_corners_of(s: Seq<u8>, spans: Seq<(usize, usize)>) -> Option<
    Seq<(usize, usize, usize)>,
>
    decreases spans.len(),
{
    if spans.len() == 0 {
        Some(Seq::empty())
    } else {
        match (
            face_corners_of(s, spans.drop_last()),
            face_fragment_of(s.subrange(spans.last().0 as int, spans.last().1 as int)),
        ) {
            (Some(before), Some(corner)) => Some(before.push(corner)),
            _ => None,
        }
    }
}

/// Reads a face line: the fragments in its fields, from left to right.
pub fn face_corners(line: &str) -> (out: Option<Vec<(usize, usize, usize)>>)
    ensures
        exists|spans: Seq<(usize, usize)>| #[trigger]
            are_fields(line.spec_bytes(), spans) && match out {
                Some(corners) => face_corners_of(line.spec_bytes(), spans) == Some(corners@),
                None => face_corners_of(line.spec_bytes(), spans) is None,
            },
{
    let s = line.as_bytes();
    let spans = fields(s);
    let mut corners: Vec<(usize, usize, usize)> = Vec::new();
    let mut k: usize = 0;
    while k < spans.len()
        invariant
            k <= spans@.len(),
            s@ == line.spec_bytes(),
            are_fields(s@, spans@),
            face_corners_of(s@, spans@.take(k as int)) == Some(corners@),
        decreases spans@.len() - k,
    {
        let (from, to) = spans[k];
        proof {
            assert(is_field(s@, spans@[k as int].0 as int, spans@[k as int].1 as int));
            assert(spans@.take(k + 1).drop_last() =~= spans@.take(k as int));
        }
        match face_fragment_in(s, from, to) {
            Some(corner) => {
                corners.push(corner);
            },
            None => {
                proof {
                    lemma_face_corners_need_every_field(s@, spans@, k as int);
                    assert(are_fields(s@, spans@) && face_corners_of(s@, spans@) is None);
                }
                return None;
            },
        }
        k += 1;
    }
    proof {
        assert(spans@.take(k as int) =~= spans@);
        assert(are_fields(s@, spans@) && face_corners_of(s@, spans@) == Some(corners@));
    }
    Some(corners)
}

/// A line with a field that is no fragment names no corners.
pub proof fn lemma_face_corners_need_every_field(s: Seq<u8>, spans: Seq<(usize, usize)>, k: int)
    requires
        0 <= k < spans.len(),
        face_fragment_of(s.subrange(spans[k].0 as int, spans[k].1 as int)) is None,
    ensures
        face_corners_of(s, spans) is None,
    decreases spans.len(),
{
    if k < spans.len() - 1 {
        lemma_face_corners_need_every_field(s, spans.drop_last(), k);
    }
}

/// Why a scene could not be built. Each names the place of the declaration
/// at fault in its list.
#[derive(Clone, Copy, Debug, PartialEq, Eq, Structural)]
pub enum SceneError {
    /// A texture of a kind that is not known.
    UnknownTextureType(usize),
    /// A material of a kind that is not known.
    UnknownMaterialType(usize),
    /// A shape of a kind that is not known.
    UnknownShapeType(usize),
    /// A declaration that lacks a value that its kind needs.
    MissingField(usize),
    /// A declaration that names a texture or material that is not there.
    UnknownName(usize),
}

/// A texture as declared: `constant` with a colour, or `checker` with the
/// names of two textures declared before it.
pub struct TextureDecl {
    pub name: String,
    pub kind: String,
    pub color: Option<Vec3>,
    pub odd: Option<String>,
    pub even: Option<String>,
}

/// A texture as built; a checker holds the places of its two textures in the
/// list of textures.
pub enum TextureDef {
    Constant(ConstantTexture),
    Checker(CheckerTexture<usize>),
}

/// A material as declared: `dielectric` with its index of refraction as
/// `value`; `diffuse_light` and `lambertian` with the name of a texture;
/// `metal` with the name of a texture and its roughness as `value`.
pub struct MaterialDecl {
    pub name: String,
    pub kind: String,
    pub texture: Option<String>,
    pub value: Option<Scalar>,
}

/// A material as built; it holds the place of its texture in the list of
/// textures.
pub enum MaterialDef {
    Dielectric(Dielectric),
    DiffuseLight(DiffuseLight<usize>),
    Lambertian(Lambertian<usize>),
    Metal(Metal<usize>),
}

/// A shape as declared: `sphere` with centre, radius and the name of a
/// material; `triangle_mesh` with the name of a mesh file and of a material.
pub struct ShapeDecl {
    pub kind: String,
    pub material: Option<String>,
    pub center: Option<Vec3>,
    pub radius: Option<Scalar>,
    pub filename: Option<String>,
}

/// A shape as built; it holds the place of its material in the list of
/// materials.
pub enum ShapeDef {
    Sphere(Sphere),
    TriangleMesh { filename: String, material: usize },
}

/// The place of the last of the first `upto` names that is `name`: a name
/// that is declared again stands for the later declaration.
pub open spec fn latest(names: Seq<String>, upto: int, name: Seq<char>) -> Option<usize>
    decreases upto,
{
    if upto <= 0 {
        None
    } else if names[upto - 1]@ == name {
        Some((upto - 1) as usize)
    } else {
        latest(names, upto - 1, name)
    }
}

/// Looks a name up among the first `upto` names.
pub fn find_latest(names: &Vec<String>, upto: usize, name: &String) -> (at: Option<usize>)
    requires
        upto <= names@.len(),
    ensures
        at == latest(names@, upto as int, name@),
        at matches Some(i) ==> i < upto,
{
    let mut k: usize = upto;
    while k > 0
        invariant
            k <= upto <= names@.len(),
            latest(names@, upto as int, name@) == latest(names@, k as int, name@),
        decreases k,
    {
        if names[k - 1] == *name {
            return Some(k - 1);
        }
        k -= 1;
    }
    None
}

/// The names of the textures, in the order of their declaration.
pub open spec fn texture_names(decls: Seq<TextureDecl>) -> Seq<String> {
    Seq::new(decls.len(), |i: int| decls[i].name)
}

/// What declaration `i` of a list of textures builds.
pub open spec fn texture_of(decls: Seq<TextureDecl>, i: int) -> Result<TextureDef, SceneError> {
    let d = decls[i];
    if d.kind@ == "constant"@ {
        match d.color {
            Some(color) => Ok(TextureDef::Constant(ConstantTexture { color })),
            None => Err(SceneError::MissingField(i as usize)),
        }
    } else if d.kind@ == "checker"@ {
        match (d.odd, d.even) {
            (Some(odd), Some(even)) => match (
                latest(texture_names(decls), i, odd@),
                latest(texture_names(decls), i, even@),
            ) {
                (Some(a), Some(b)) => Ok(TextureDef::Checker(CheckerTexture { odd: a, even: b })),
                _ => Err(SceneError::UnknownName(i as usize)),
            },
            _ => Err(SceneError::MissingField(i as usize)),
        }
    } else {
        Err(SceneError::UnknownTextureType(i as usize))
    }
}

/// What declaration `i` of a list of materials builds, over textures of the
/// given names.
pub open spec fn material_of(decls: Seq<MaterialDecl>, textures: Seq<String>, i: int) -> Result<
    MaterialDef,
    SceneError,
> {
    let d = decls[i];
    let found = match d.texture {
        Some(name) => latest(textures, textures.len() as int, name@),
        None => None,
    };
    if d.kind@ == "dielectric"@ {
        match d.value {
            Some(ref_idx) => Ok(MaterialDef::Dielectric(Dielectric { ref_idx })),
            None => Err(SceneError::MissingField(i as usize)),
        }
    } else if d.kind@ == "diffuse_light"@ || d.kind@ == "lambertian"@ {
        if d.texture is None {
            Err(SceneError::MissingField(i as usize))
        } else {
            match found {
                Some(t) => if d.kind@ == "diffuse_light"@ {
                    Ok(MaterialDef::DiffuseLight(DiffuseLight { emit_tex: t }))
                } else {
                    Ok(MaterialDef::Lambertian(Lambertian { albedo: t }))
                },
                None => Err(SceneError::UnknownName(i as usize)),
            }
        }
    } else if d.kind@ == "metal"@ {
        if d.texture is None || d.value is None {
            Err(SceneError::MissingField(i as usize))
        } else {
            match found {
                Some(t) => Ok(
                    MaterialDef::Metal(Metal { albedo: t, fuzz: clamped_fuzz(d.value->0) }),
                ),
                None => Err(SceneError::UnknownName(i as usize)),
            }
        }
    } else {
        Err(SceneError::UnknownMaterialType(i as usize))
    }
}

/// What declaration `i` of a list of shapes builds, over materials of the
/// given names.
pub open spec fn shape_of(decls: Seq<ShapeDecl>, materials: Seq<String>, i: int) -> Result<
    ShapeDef,
    SceneError,
> {
    let d = decls[i];
    let found = match d.material {
        Some(name) => latest(materials, materials.len() as int, name@),
        None => None,
    };
    if d.kind@ == "sphere"@ {
        if d.material is None || d.center is None || d.radius is None {
            Err(SceneError::MissingField(i as usize))
        } else {
            match found {
                Some(m) => Ok(
                    ShapeDef::Sphere(
                        Sphere { center: d.center->0, radius: d.radius->0, material: m },
                    ),
                ),
                None => Err(SceneError::UnknownName(i as usize)),
            }
        }
    } else if d.kind@ == "triangle_mesh"@ {
        if d.material is None || d.filename is None {
            Err(SceneError::MissingField(i as usize))
        } else {
            match found {
                Some(m) => Ok(ShapeDef::TriangleMesh { filename: d.filename->0, material: m }),
                None => Err(SceneError::UnknownName(i as usize)),
            }
        }
    } else {
        Err(SceneError::UnknownShapeType(i as usize))
    }
}

/// Whether a text is the given word.
fn is_word(text: &String, word: &str) -> (same: bool)
    ensures
        same == (text@ == word@),
{
    let other: String = word.to_owned();
    *text == other
}

/// Builds the textures of a scene, in the order of their declaration. The
/// first declaration that cannot be built is reported, and nothing is built.
pub fn build_textures(decls: &Vec<TextureDecl>) -> (out: Result<Vec<TextureDef>, SceneError>)
    ensures
        match out {
            Ok(built) => built@.len() == decls@.len() && forall|i: int|
                0 <= i < decls@.len() ==> texture_of(decls@, i) == Ok::<TextureDef, SceneError>(
                    #[trigger] built@[i],
                ),
            Err(e) => exists|i: int|
                0 <= i < decls@.len() && #[trigger] texture_of(decls@, i) == Err::<
                    TextureDef,
                    SceneError,
                >(e) && forall|j: int| 0 <= j < i ==> (#[trigger] texture_of(decls@, j)) is Ok,
        },
{
    let mut names: Vec<String> = Vec::new();
    let mut built: Vec<TextureDef> = Vec::new();
    let mut i: usize = 0;
    while i < decls.len()
        invariant
            i <= decls@.len(),
            names@.len() == i,
            built@.len() == i,
            forall|k: int| 0 <= k < i ==> (#[trigger] names@[k]) == decls@[k].name,
            forall|k: int|
                #![trigger built@[k]]
                #![trigger texture_of(decls@, k)]
                0 <= k < i ==> texture_of(decls@, k) == Ok::<TextureDef, SceneError>(built@[k]),
        decreases decls@.len() - i,
    {
        let d = &decls[i];
        proof {
            lemma_latest_agrees(names@, texture_names(decls@), i as int);
        }
        let next: Result<TextureDef, SceneError> = if is_word(&d.kind, "constant") {
            match d.color {
                Some(color) => Ok(TextureDef::Constant(ConstantTexture::new(color))),
                None => Err(SceneError::MissingField(i)),
            }
        } else if is_word(&d.kind, "checker") {
            match (&d.odd, &d.even) {
                (Some(odd), Some(even)) => {
                    let a = find_latest(&names, i, odd);
                    let b = find_latest(&names, i, even);
                    match (a, b) {
                        (Some(a), Some(b)) => Ok(TextureDef::Checker(CheckerTexture::new(a, b))),
                        _ => Err(SceneError::UnknownName(i)),
                    }
                },
                _ => Err(SceneError::MissingField(i)),
            }
        } else {
            Err(SceneError::UnknownTextureType(i))
        };
        assert(next == texture_of(decls@, i as int));
        match next {
            Ok(t) => {
                built.push(t);
            },
            Err(e) => {
                return Err(e);
            },
        }
        names.push(d.name.clone());
        i += 1;
    }
    Ok(built)
}

/// A lookup sees only the names before `upto`.
pub proof fn lemma_latest_agrees(one: Seq<String>, other: Seq<String>, upto: int)
    requires
        upto <= one.len(),
        upto <= other.len(),
        forall|k: int| 0 <= k < upto ==> one[k] == other[k],
    ensures
        forall|name: Seq<char>| #[trigger] latest(one, upto, name) == latest(other, upto, name),
    decreases upto,
{
    if upto > 0 {
        lemma_latest_agrees(one, other, upto - 1);
        assert forall|name: Seq<char>| #[trigger]
            latest(one, upto, name) == latest(other, upto, name) by {
            assert(one[upto - 1] == other[upto - 1]);
            assert(latest(one, upto - 1, name) == latest(other, upto - 1, name));
        }
    }
}

/// Builds the materials of a scene over its textures, of which the names are
/// given in the order of their declaration. The first declaration that cannot
/// be built is reported, and nothing is built.
pub fn build_materials(decls: &Vec<MaterialDecl>, textures: &Vec<String>) -> (out: Result<
    Vec<MaterialDef>,
    SceneError,
>)
    ensures
        match out {
            Ok(built) => built@.len() == decls@.len() && forall|i: int|
                0 <= i < decls@.len() ==> material_of(decls@, textures@, i) == Ok::<
                    MaterialDef,
                    SceneError,
                >(#[trigger] built@[i]),
            Err(e) => exists|i: int|
                0 <= i < decls@.len() && #[trigger] material_of(decls@, textures@, i) == Err::<
                    MaterialDef,
                    SceneError,
                >(e) && forall|j: int|
                    0 <= j < i ==> (#[trigger] material_of(decls@, textures@, j)) is Ok,
        },
{
    let mut built: Vec<MaterialDef> = Vec::new();
    let mut i: usize = 0;
    while i < decls.len()
        invariant
            i <= decls@.len(),
            built@.len() == i,
            forall|k: int|
                #![trigger built@[k]]
                #![trigger material_of(decls@, textures@, k)]
                0 <= k < i ==> material_of(decls@, textures@, k) == Ok::<MaterialDef, SceneError>(
                    built@[k],
                ),
        decreases decls@.len() - i,
    {
        let d = &decls[i];
        let found: Option<usize> = match &d.texture {
            Some(name) => find_latest(textures, textures.len(), name),
            None => None,
        };
        let next: Result<MaterialDef, SceneError> = if is_word(&d.kind, "dielectric") {
            match d.value {
                Some(ref_idx) => Ok(MaterialDef::Dielectric(Dielectric::new(ref_idx))),
                None => Err(SceneError::MissingField(i)),
            }
        } else if is_word(&d.kind, "diffuse_light") {
            if d.texture.is_none() {
                Err(SceneError::MissingField(i))
            } else {
                match found {
                    Some(t) => Ok(MaterialDef::DiffuseLight(DiffuseLight::new(t))),
                    None => Err(SceneError::UnknownName(i)),
                }
            }
        } else if is_word(&d.kind, "lambertian") {
            if d.texture.is_none() {
                Err(SceneError::MissingField(i))
            } else {
                match found {
                    Some(t) => Ok(MaterialDef::Lambertian(Lambertian::new(t))),
                    None => Err(SceneError::UnknownName(i)),
                }
            }
        } else if is_word(&d.kind, "metal") {
            match (d.value, found) {
                (None, _) => Err(SceneError::MissingField(i)),
                (Some(fuzz), found) => {
                    if d.texture.is_none() {
                        Err(SceneError::MissingField(i))
                    } else {
                        match found {
                            Some(t) => Ok(MaterialDef::Metal(Metal::new(t, fuzz))),
                            None => Err(SceneError::UnknownName(i)),
                        }
                    }
                },
            }
        } else {
            Err(SceneError::UnknownMaterialType(i))
        };
        assert(next == material_of(decls@, textures@, i as int));
        match next {
            Ok(m) => {
                built.push(m);
            },
            Err(e) => {
                return Err(e);
            },
        }
        i += 1;
    }
    Ok(built)
}

/// Builds the shapes of a scene over its materials, of which the names are
/// given in the order of their declaration. The first declaration that cannot
/// be built is reported, and nothing is built.
pub fn build_shapes(decls: &Vec<ShapeDecl>, materials: &Vec<String>) -> (out: Result<
    Vec<ShapeDef>,
    SceneError,
>)
    ensures
        match out {
            Ok(built) => built@.len() == decls@.len() && forall|i: int|
                0 <= i < decls@.len() ==> shape_of(decls@, materials@, i) == Ok::<
                    ShapeDef,
                    SceneError,
                >(#[trigger] built@[i]),
            Err(e) => exists|i: int|
                0 <= i < decls@.len() && #[trigger] shape_of(decls@, materials@, i) == Err::<
                    ShapeDef,
                    SceneError,
                >(e) && forall|j: int|
                    0 <= j < i ==> (#[trigger] shape_of(decls@, materials@, j)) is Ok,
        },
{
    let mut built: Vec<ShapeDef> = Vec::new();
    let mut i: usize = 0;
    while i < decls.len()
        invariant
            i <= decls@.len(),
            built@.len() == i,
            forall|k: int|
                #![trigger built@[k]]
                #![trigger shape_of(decls@, materials@, k)]
                0 <= k < i ==> shape_of(decls@, materials@, k) == Ok::<ShapeDef, SceneError>(
                    built@[k],
                ),
        decreases decls@.len() - i,
    {
        let d = &decls[i];
        let found: Option<usize> = match &d.material {
            Some(name) => find_latest(materials, materials.len(), name),
            None => None,
        };
        let next: Result<ShapeDef, SceneError> = if is_word(&d.kind, "sphere") {
            match (d.center, d.radius) {
                (Some(center), Some(radius)) => {
                    if d.material.is_none() {
                        Err(SceneError::MissingField(i))
                    } else {
                        match found {
                            Some(m) => Ok(ShapeDef::Sphere(Sphere::new(center, radius, m))),
                            None => Err(SceneError::UnknownName(i)),
                        }
                    }
                },
                _ => Err(SceneError::MissingField(i)),
            }
        } else if is_word(&d.kind, "triangle_mesh") {
            match &d.filename {
                Some(filename) => {
                    if d.material.is_none() {
                        Err(SceneError::MissingField(i))
                    } else {
                        match found {
                            Some(m) => Ok(
                                ShapeDef::TriangleMesh { filename: filename.clone(), material: m },
                            ),
                            None => Err(SceneError::UnknownName(i)),
                        }
                    }
                },
                None => Err(SceneError::MissingField(i)),
            }
        } else {
            Err(SceneError::UnknownShapeType(i))
        };
        assert(next == shape_of(decls@, materials@, i as int));
        match next {
            Ok(s) => {
                built.push(s);
            },
            Err(e) => {
                return Err(e);
            },
        }
        i += 1;
    }
    Ok(built)
}

} // verus!
