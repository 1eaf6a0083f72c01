//! Label materials and the words that name them.

use crate::structs::parse_stcker_error::{failure, ErrorKind, Failure, ParseStickerError};
use crate::text::{
    contains, first_occurrence, occurs, keyword_at, keyword_matches_at, lemma_no_occurrence,
    lemma_occurrence_found, occurs_at, remove_all, slice_chars, string_from_chars, to_chars, trim,
    trimmed, without,
};
use vstd::prelude::*;

verus! {

/// What a label is printed on.
#[derive(Debug, Clone, Copy, PartialEq, Eq, Structural)]
pub enum Material {
    Paper,
    PaperGR,
    PVC,
    PVCR,
    PVCRSLV,
    LEAFLET,
}

/// The material that a piece of text names, by the upper-case words it
/// holds.
pub open spec fn material_of(s: Seq<char>) -> Option<Material> {
    if occurs(s, "GR"@) {
        Some(Material::PaperGR)
    } else if occurs(s, "PAP"@) || occurs(s, "PP"@) {
        Some(Material::Paper)
    } else if occurs(s, "LEAFLET"@) {
        Some(Material::LEAFLET)
    } else if occurs(s, "SLV"@) {
        Some(Material::PVCRSLV)
    } else if occurs(s, "R"@) {
        Some(Material::PVCR)
    } else if occurs(s, "PVC"@) {
        Some(Material::PVC)
    } else {
        None
    }
}

/// A character that joins the words of a material: one of `_ ().&-`.
pub open spec fn is_joint(c: char) -> bool {
    c == '_' || c == ' ' || c == '(' || c == ')' || c == '.' || c == '&' || c == '-'
}

/// The index behind the run of joints that starts at `i`.
pub open spec fn joints_end(s: Seq<char>, i: int) -> int
    decreases s.len() - i,
{
    if 0 <= i < s.len() && is_joint(s[i]) {
        joints_end(s, i + 1)
    } else {
        i
    }
}

/// Where a material word that stops at `j` is closed: behind the joints that
/// follow it, or at `j` where the text ends there.
pub open spec fn closes(s: Seq<char>, j: int) -> Option<int> {
    if joints_end(s, j) > j {
        Some(joints_end(s, j))
    } else if j == s.len() {
        Some(j)
    } else {
        None
    }
}

/// The index behind the keyword `kw`, where it follows `j` after one joint
/// or more.
pub open spec fn then_word(s: Seq<char>, j: int, kw: Seq<char>) -> Option<int> {
    let a = joints_end(s, j);
    if a > j && keyword_at(s, kw, a) {
        Some(a + kw.len())
    } else {
        None
    }
}

/// Where a material that begins with `PAPER` ends, `j` being the index
/// behind that word: `GR` is taken in where the whole is then closed.
pub open spec fn paper_end(s: Seq<char>, j: int) -> Option<int> {
    let g = then_word(s, j, "GR"@);
    if g is Some && closes(s, g.unwrap()) is Some {
        closes(s, g.unwrap())
    } else {
        closes(s, j)
    }
}

/// Where a material that begins with `PVC` ends, `j` being the index behind
/// that word: `R`, and `SLV` after it, are taken in where the whole is then
/// closed.
pub open spec fn pvc_end(s: Seq<char>, j: int) -> Option<int> {
    let r = then_word(s, j, "R"@);
    if r is Some {
        let v = then_word(s, r.unwrap(), "SLV"@);
        if v is Some && closes(s, v.unwrap()) is Some {
            closes(s, v.unwrap())
        } else if closes(s, r.unwrap()) is Some {
            closes(s, r.unwrap())
        } else {
            closes(s, j)
        }
    } else {
        closes(s, j)
    }
}

/// The index behind the material that starts at `i`, case ignored,
/// the joints that close it included.
pub open spec fn material_end_at(s: Seq<char>, i: int) -> Option<int> {
    if keyword_at(s, "PAPER"@, i) {
        paper_end(s, i + "PAPER"@.len())
    } else if keyword_at(s, "LEAFLET"@, i) {
        closes(s, i + "LEAFLET"@.len())
    } else if keyword_at(s, "PP"@, i) {
        closes(s, i + "PP"@.len())
    } else if keyword_at(s, "PVC"@, i) {
        pvc_end(s, i + "PVC"@.len())
    } else if keyword_at(s, "SLV"@, i) {
        closes(s, i + "SLV"@.len())
    } else {
        None
    }
}

/// The longer of two stretches of text; the later one where they are equally
/// long.
pub open spec fn longer(best: Option<(int, int)>, start: int, end: int) -> Option<(int, int)> {
    if best is Some && best.unwrap().1 - best.unwrap().0 > end - start {
        best
    } else {
        Some((start, end))
    }
}

/// The longest material among `best` and those found from `p` on, each
/// search starting where the material before it ended.
pub open spec fn longest_material(s: Seq<char>, p: int, best: Option<(int, int)>) -> Option<
    (int, int),
>
    decreases s.len() - p,
{
    if p < 0 || p >= s.len() {
        best
    } else if material_end_at(s, p) is Some && p < material_end_at(s, p).unwrap() <= s.len() {
        longest_material(s, material_end_at(s, p).unwrap(), longer(
            best,
            p,
            material_end_at(s, p).unwrap(),
        ))
    } else {
        longest_material(s, p + 1, best)
    }
}

/// A stretch of a name with the workflow marks `OK`, `DV`, `PF` and `ST`
/// taken out, in this order, and the padding at its ends removed.
pub open spec fn material_part(segment: Seq<char>) -> Seq<char> {
    trimmed(without(without(without(without(segment, "OK"@), "DV"@), "PF"@), "ST"@), true)
}

/// The material that a stretch of a name states: that of its longest
/// material word; where it has none, the leaflet if the whole name says
/// `LEAFLET`.
pub open spec fn material_in(segment: Seq<char>, name: Seq<char>) -> Result<Material, Failure> {
    let part = material_part(segment);
    match longest_material(part, 0, None) {
        Some(m) => match material_of(part.subrange(m.0, m.1)) {
            Some(material) => Ok(material),
            None => Err(failure(ErrorKind::UnknownMaterial, part.subrange(m.0, m.1))),
        },
        None => if occurs(name, "LEAFLET"@) {
            Ok(Material::LEAFLET)
        } else {
            Err(failure(ErrorKind::MissingMaterial, name))
        },
    }
}

/// The name of a material.
pub open spec fn material_label(m: Material) -> Seq<char> {
    match m {
        Material::Paper => "PAPER"@,
        Material::PaperGR => "PAPER GR"@,
        Material::PVC => "PVC"@,
        Material::PVCR => "PVC R"@,
        Material::PVCRSLV => "PVC R SLV"@,
        Material::LEAFLET => "LEAFLET"@,
    }
}

/// The material is of the PVC family; the others are of the paper family.
pub open spec fn is_pvc(m: Material) -> bool {
    m == Material::PVC || m == Material::PVCR || m == Material::PVCRSLV
}

/// The name of the family of a material.
pub open spec fn material_group(m: Material) -> Seq<char> {
    match m {
        Material::Paper | Material::PaperGR | Material::LEAFLET => "PAPER"@,
        Material::PVC | Material::PVCR | Material::PVCRSLV => "PVC"@,
    }
}

impl Material {
    /// The material that `text` names.
    pub fn classify(text: &Vec<char>) -> (r: Option<Material>)
        ensures
            r == material_of(text@),
    {
        if contains(text, &to_chars("GR")) {
            Some(Material::PaperGR)
        } else if contains(text, &to_chars("PAP")) || contains(text, &to_chars("PP")) {
            Some(Material::Paper)
        } else if contains(text, &to_chars("LEAFLET")) {
            Some(Material::LEAFLET)
        } else if contains(text, &to_chars("SLV")) {
            Some(Material::PVCRSLV)
        } else if contains(text, &to_chars("R")) {
            Some(Material::PVCR)
        } else if contains(text, &to_chars("PVC")) {
            Some(Material::PVC)
        } else {
            None
        }
    }

    /// The material that `text` names, or the failure that holds the text.
    pub fn parse(text: &str) -> (r: Result<Material, ParseStickerError>)
        ensures
            match r {
                Ok(m) => material_of(text@) == Some(m),
                Err(e) => material_of(text@) is None && e@ == failure(
                    ErrorKind::UnknownMaterial,
                    text@,
                ),
            },
    {
        match Material::classify(&to_chars(text)) {
            Some(m) => Ok(m),
            None => Err(ParseStickerError::UnknownMaterial(text.to_owned())),
        }
    }

    /// The material's name.
    pub fn label(&self) -> (s: String)
        ensures
            s@ == material_label(*self),
    {
        match self {
            Material::Paper => "PAPER".to_owned(),
            Material::PaperGR => "PAPER GR".to_owned(),
            Material::PVC => "PVC".to_owned(),
            Material::PVCR => "PVC R".to_owned(),
            Material::PVCRSLV => "PVC R SLV".to_owned(),
            Material::LEAFLET => "LEAFLET".to_owned(),
        }
    }

    /// Whether the material is of the PVC family.
    pub fn is_of_pvc(&self) -> (b: bool)
        ensures
            b == is_pvc(*self),
    {
        match self {
            Material::Paper | Material::PaperGR | Material::LEAFLET => false,
            Material::PVC | Material::PVCR | Material::PVCRSLV => true,
        }
    }

    /// The name of the family that the material belongs to.
    pub fn group(&self) -> (s: String)
        ensures
            s@ == material_group(*self),
            s@ == (if is_pvc(*self) {
                "PVC"@
            } else {
                "PAPER"@
            }),
    {
        match self {
            Material::Paper | Material::PaperGR | Material::LEAFLET => "PAPER".to_owned(),
            Material::PVC | Material::PVCR | Material::PVCRSLV => "PVC".to_owned(),
        }
    }
}

impl std::str::FromStr for Material {
    type Err = ParseStickerError;

    fn from_str(s: &str) -> (r: Result<Material, ParseStickerError>)
        ensures
            match r {
                Ok(m) => material_of(s@) == Some(m),
                Err(e) => material_of(s@) is None && e@ == failure(ErrorKind::UnknownMaterial, s@),
            },
    {
        Material::parse(s)
    }
}

/// Whether the character joins the words of a material.
pub fn is_joint_char(c: char) -> (b: bool)
    ensures
        b == is_joint(c),
{
    c == '_' || c == ' ' || c == '(' || c == ')' || c == '.' || c == '&' || c == '-'
}

/// The index behind the run of joints that starts at `i`.
pub fn joints_run_end(s: &Vec<char>, i: usize) -> (e: usize)
    requires
        i <= s@.len(),
    ensures
        e as int == joints_end(s@, i as int),
        i <= e <= s@.len(),
{
    let mut e: usize = i;
    while e < s.len() && is_joint_char(s[e])
        invariant
            i <= e <= s@.len(),
            joints_end(s@, i as int) == joints_end(s@, e as int),
        decreases s@.len() - e,
    {
        e += 1;
    }
    e
}

/// Where a material word that stops at `j` is closed.
pub fn close_at(s: &Vec<char>, j: usize) -> (r: Option<usize>)
    requires
        j <= s@.len(),
    ensures
        match r {
            Some(e) => closes(s@, j as int) == Some(e as int) && j <= e <= s@.len(),
            None => closes(s@, j as int) is None,
        },
{
    let e: usize = joints_run_end(s, j);
    if e > j {
        Some(e)
    } else if j == s.len() {
        Some(j)
    } else {
        None
    }
}

/// The index behind the keyword `kw`, where it follows `j` after one joint
/// or more.
pub fn word_after_joints(s: &Vec<char>, j: usize, kw: &Vec<char>) -> (r: Option<usize>)
    requires
        j <= s@.len(),
    ensures
        match r {
            Some(e) => then_word(s@, j as int, kw@) == Some(e as int) && j <= e <= s@.len(),
            None => then_word(s@, j as int, kw@) is None,
        },
{
    let a: usize = joints_run_end(s, j);
    if a > j && keyword_matches_at(s, kw, a) {
        Some(a + kw.len())
    } else {
        None
    }
}

/// The index behind the material that starts at `i`.
pub fn material_word_end(s: &Vec<char>, i: usize) -> (r: Option<usize>)
    requires
        i < s@.len(),
    ensures
        match r {
            Some(e) => material_end_at(s@, i as int) == Some(e as int) && i <= e <= s@.len(),
            None => material_end_at(s@, i as int) is None,
        },
{
    let paper = to_chars("PAPER");
    let leaflet = to_chars("LEAFLET");
    let pp = to_chars("PP");
    let pvc = to_chars("PVC");
    let slv = to_chars("SLV");
    if keyword_matches_at(s, &paper, i) {
        let j: usize = i + paper.len();
        match word_after_joints(s, j, &to_chars("GR")) {
            Some(g) => {
                let c = close_at(s, g);
                if c.is_some() {
                    return c;
                }
            },
            None => {},
        }
        close_at(s, j)
    } else if keyword_matches_at(s, &leaflet, i) {
        close_at(s, i + leaflet.len())
    } else if keyword_matches_at(s, &pp, i) {
        close_at(s, i + pp.len())
    } else if keyword_matches_at(s, &pvc, i) {
        let j: usize = i + pvc.len();
        match word_after_joints(s, j, &to_chars("R")) {
            Some(r) => {
                match word_after_joints(s, r, &slv) {
                    Some(v) => {
                        let c = close_at(s, v);
                        if c.is_some() {
                            return c;
                        }
                    },
                    None => {},
                }
                let c = close_at(s, r);
                if c.is_some() {
                    return c;
                }
                close_at(s, j)
            },
            None => close_at(s, j),
        }
    } else if keyword_matches_at(s, &slv, i) {
        close_at(s, i + slv.len())
    } else {
        None
    }
}

/// A stretch of text as contracts see it.
pub open spec fn span_of(r: Option<(usize, usize)>) -> Option<(int, int)> {
    match r {
        Some(m) => Some((m.0 as int, m.1 as int)),
        None => None,
    }
}

/// The longest material in `s`.
pub fn find_longest_material(s: &Vec<char>) -> (r: Option<(usize, usize)>)
    ensures
        span_of(r) == longest_material(s@, 0, None),
        r matches Some(m) ==> m.0 <= m.1 <= s@.len(),
{
    let mut best: Option<(usize, usize)> = None;
    let mut p: usize = 0;
    while p < s.len()
        invariant
            p <= s@.len(),
            best matches Some(m) ==> m.0 <= m.1 <= s@.len(),
            longest_material(s@, 0, None) == longest_material(s@, p as int, span_of(best)),
        decreases s@.len() - p,
    {
        match material_word_end(s, p) {
            Some(e) => {
                if e > p {
                    let keep: bool = match best {
                        Some(m) => m.1 - m.0 > e - p,
                        None => false,
                    };
                    if !keep {
                        best = Some((p, e));
                    }
                    p = e;
                } else {
                    p += 1;
                }
            },
            None => {
                p += 1;
            },
        }
    }
    best
}

/// The material that a stretch of a name states.
pub fn find_material(segment: &Vec<char>, name: &Vec<char>) -> (r: Result<
    Material,
    ParseStickerError,
>)
    ensures
        match r {
            Ok(m) => material_in(segment@, name@) == Ok::<Material, Failure>(m),
            Err(e) => material_in(segment@, name@) == Err::<Material, Failure>(e@),
        },
{
    let a = remove_all(segment, &to_chars("OK"));
    let b = remove_all(&a, &to_chars("DV"));
    let c = remove_all(&b, &to_chars("PF"));
    let d = remove_all(&c, &to_chars("ST"));
    let part = trim(&d, true);
    match find_longest_material(&part) {
        Some(m) => {
            let word = slice_chars(&part, m.0, m.1);
            match Material::classify(&word) {
                Some(material) => Ok(material),
                None => Err(ParseStickerError::UnknownMaterial(string_from_chars(&word))),
            }
        },
        None => {
            if contains(name, &to_chars("LEAFLET")) {
                Ok(Material::LEAFLET)
            } else {
                Err(ParseStickerError::MissingMaterial(string_from_chars(name)))
            }
        },
    }
}


/// The name of a material, alone or with an underscore behind it, is
/// read back as that material.
pub proof fn lemma_material_label_read_back(m: Material)
    ensures
        material_of(material_label(m)) == Some(m),
        material_of(material_label(m) + seq!['_']) == Some(m),
{
    lemma_label_read(m, Seq::empty());
    lemma_label_read(m, seq!['_']);
    assert(material_label(m) + Seq::<char>::empty() =~= material_label(m));
}

/// The name of a material with nothing or an underscore behind it is read
/// back as that material.
pub proof fn lemma_label_read(m: Material, y: Seq<char>)
    requires
        y.len() == 0 || y == seq!['_'],
    ensures
        material_of(material_label(m) + y) == Some(m),
{
    reveal_strlit("PAPER");
    reveal_strlit("PAPER GR");
    reveal_strlit("PVC");
    reveal_strlit("PVC R");
    reveal_strlit("PVC R SLV");
    reveal_strlit("LEAFLET");
    reveal_strlit("GR");
    reveal_strlit("PAP");
    reveal_strlit("PP");
    reveal_strlit("SLV");
    reveal_strlit("R");
    let s = material_label(m) + y;
    match m {
        Material::Paper => {
            lemma_no_occurrence(s, "GR"@, 0);
            assert(s.subrange(0, 3) =~= "PAP"@);
            lemma_occurrence_found(s, "PAP"@, 0);
        },
        Material::PaperGR => {
            assert(s.subrange(6, 8) =~= "GR"@);
            lemma_occurrence_found(s, "GR"@, 6);
        },
        Material::PVC => {
            lemma_no_occurrence(s, "GR"@, 0);
            lemma_no_occurrence(s, "PAP"@, 0);
            lemma_no_occurrence(s, "PP"@, 0);
            lemma_no_occurrence(s, "LEAFLET"@, 0);
            lemma_no_occurrence(s, "SLV"@, 0);
            assert(!occurs(s, "R"@)) by {
                assert forall|i: int| 0 <= i < s.len() implies !occurs_at(s, "R"@, i) by {
                    assert(s.subrange(i, i + 1)[0] == s[i]);
                }
                assert(first_occurrence(s, "R"@, 4) is None);
                assert(first_occurrence(s, "R"@, 3) is None);
                assert(first_occurrence(s, "R"@, 2) is None);
                assert(first_occurrence(s, "R"@, 1) is None);
            }
            assert(s.subrange(0, 3) =~= "PVC"@);
            lemma_occurrence_found(s, "PVC"@, 0);
        },
        Material::PVCR => {
            lemma_no_occurrence(s, "GR"@, 0);
            lemma_no_occurrence(s, "PAP"@, 0);
            lemma_no_occurrence(s, "PP"@, 0);
            lemma_no_occurrence(s, "LEAFLET"@, 0);
            lemma_no_occurrence(s, "SLV"@, 0);
            assert(s.subrange(4, 5) =~= "R"@);
            lemma_occurrence_found(s, "R"@, 4);
        },
        Material::PVCRSLV => {
            lemma_no_occurrence(s, "GR"@, 0);
            lemma_no_occurrence(s, "PAP"@, 0);
            lemma_no_occurrence(s, "PP"@, 0);
            lemma_no_occurrence(s, "LEAFLET"@, 0);
            assert(s.subrange(6, 9) =~= "SLV"@);
            lemma_occurrence_found(s, "SLV"@, 6);
        },
        Material::LEAFLET => {
            lemma_no_occurrence(s, "GR"@, 0);
            lemma_no_occurrence(s, "PAP"@, 0);
            lemma_no_occurrence(s, "PP"@, 0);
            assert(s.subrange(0, 7) =~= "LEAFLET"@);
            lemma_occurrence_found(s, "LEAFLET"@, 0);
        },
    }
}

} // verus!
