//! The record of one label design at one size, and how a name becomes
//! records.

use crate::parser::{
    code_from, code_of, describe, description_of, find_first_size, first_size_start,
    lemma_sizes_are_official, lemma_tail_states_a_size, materials_in, segment_materials, sizes_from, sizes_in,
};
use crate::structs::color::{color_in, find_color, Color};
use crate::structs::dimensions::{approved, Dimensions};
use crate::structs::material::Material;
use crate::structs::parse_stcker_error::{failure, ErrorKind, Failure, ParseStickerError};
use crate::text::{slice_chars, string_from_chars, to_chars};
use vstd::prelude::*;
use vstd::std_specs::cmp::PartialEqSpecImpl;

verus! {

/// One label design at one approved size.
#[derive(Debug, Clone, Eq)]
pub struct Sticker {
    pub code: u64,
    pub description: String,
    pub dimensions: Dimensions,
    pub material: Material,
    pub text_color: Color,
    pub full_name: String,
}

/// A record as contracts see it.
pub struct Record {
    pub code: u64,
    pub description: Seq<char>,
    pub dimensions: Dimensions,
    pub material: Material,
    pub text_color: Color,
    pub full_name: Seq<char>,
}

impl View for Sticker {
    type V = Record;

    open spec fn view(&self) -> Record {
        Record {
            code: self.code,
            description: self.description@,
            dimensions: self.dimensions,
            material: self.material,
            text_color: self.text_color,
            full_name: self.full_name@,
        }
    }
}

/// Two records are the same design: they agree in all but the name they
/// were read from.
pub open spec fn same_design(a: Record, b: Record) -> bool {
    a.code == b.code && a.description == b.description && a.dimensions == b.dimensions
        && a.material == b.material && a.text_color == b.text_color
}

/// The records of a sequence of stickers.
pub open spec fn records(v: Seq<Sticker>) -> Seq<Record> {
    v.map_values(|s: Sticker| s@)
}

/// One record for each size: all share the code, the description, the
/// colour and the name; the materials go to the sizes one by one where
/// there are as many of them, else the first material goes to every size.
pub open spec fn assembled(
    code: u64,
    description: Seq<char>,
    sizes: Seq<Dimensions>,
    materials: Seq<Material>,
    text_color: Color,
    full_name: Seq<char>,
) -> Seq<Record> {
    Seq::new(
        sizes.len(),
        |i: int|
            Record {
                code,
                description,
                dimensions: sizes[i],
                material: if materials.len() == sizes.len() {
                    materials[i]
                } else {
                    materials[0]
                },
                text_color,
                full_name,
            },
    )
}

/// The colour that a name's tail states, black where it states none.
pub open spec fn color_or_black(suffix: Seq<char>) -> Color {
    match color_in(suffix) {
        Some(c) => c,
        None => Color::Black,
    }
}

/// The records of a name, or why it has none. The stages fail in this
/// order: code, sizes, description, material.
pub open spec fn records_of(name: Seq<char>) -> Result<Seq<Record>, Failure> {
    match code_of(name) {
        None => Err(failure(ErrorKind::MissingCode, name)),
        Some(code) => match first_size_start(name, 0) {
            None => Err(failure(ErrorKind::MissingDimensions, name)),
            Some(cut) => {
                let prefix = name.subrange(0, cut);
                let suffix = name.subrange(cut, name.len() as int);
                match description_of(prefix, suffix, code) {
                    None => Err(failure(ErrorKind::MissingDescription, name)),
                    Some(description) => if segment_materials(suffix, name, 0, 0).len() == 0 {
                        Err(failure(ErrorKind::MissingMaterial, name))
                    } else {
                        Ok(
                            assembled(
                                code,
                                description,
                                sizes_from(suffix, 0),
                                segment_materials(suffix, name, 0, 0),
                                color_or_black(suffix),
                                name,
                            ),
                        )
                    },
                }
            },
        },
    }
}

/// Where the tail of a name starts: at its first token of an approved
/// size, or at its end where it has none.
pub open spec fn tail_start(name: Seq<char>) -> int {
    match first_size_start(name, 0) {
        Some(cut) => cut,
        None => name.len() as int,
    }
}

/// The tail of a name: from its first token of an approved size on.
pub open spec fn tail_of(name: Seq<char>) -> Seq<char> {
    name.subrange(tail_start(name), name.len() as int)
}

/// A name that yields records yields one for each approved size in its
/// tail, in their order, and the records share the code, the description,
/// the colour and the name. Where the stretches of the tail state exactly
/// one material, all records have it: they differ in their sizes alone.
pub proof fn lemma_fan_out(name: Seq<char>)
    requires
        records_of(name) is Ok,
    ensures
        records_of(name) matches Ok(found) ==> {
            &&& found.len() == sizes_from(tail_of(name), 0).len()
            &&& forall|i: int|
                0 <= i < found.len() ==> {
                    &&& (#[trigger] found[i]).dimensions == sizes_from(tail_of(name), 0)[i]
                    &&& code_of(name) == Some(found[i].code)
                    &&& description_of(
                        name.subrange(0, tail_start(name)),
                        tail_of(name),
                        found[i].code,
                    ) == Some(found[i].description)
                    &&& found[i].text_color == color_or_black(tail_of(name))
                    &&& found[i].full_name == name
                    &&& segment_materials(tail_of(name), name, 0, 0).len() == 1
                        ==> found[i].material == segment_materials(tail_of(name), name, 0, 0)[0]
                }
        },
{
}

/// A name that yields records yields at least one.
pub proof fn lemma_records_not_empty(name: Seq<char>)
    ensures
        records_of(name) matches Ok(found) ==> found.len() >= 1,
{
    if records_of(name) is Ok {
        lemma_tail_states_a_size(name);
    }
}

/// Every record of a name holds an approved size, in the orientation in
/// which it is listed.
pub proof fn lemma_records_hold_approved_sizes(name: Seq<char>)
    ensures
        records_of(name) matches Ok(found) ==> forall|i: int|
            0 <= i < found.len() ==> approved((#[trigger] found[i]).dimensions),
{
    lemma_sizes_are_official(tail_of(name), 0);
    if records_of(name) is Ok {
        let found = records_of(name)->Ok_0;
        assert forall|i: int| 0 <= i < found.len() implies approved(
            (#[trigger] found[i]).dimensions,
        ) by {
            assert(found[i].dimensions == sizes_from(tail_of(name), 0)[i]);
        }
    }
}

/// An outcome is the one that the name's records call for.
pub open spec fn agrees(r: Result<Vec<Sticker>, ParseStickerError>, name: Seq<char>) -> bool {
    match r {
        Ok(v) => records_of(name) == Ok::<Seq<Record>, Failure>(records(v@)),
        Err(e) => records_of(name) == Err::<Seq<Record>, Failure>(e@),
    }
}

/// Two records are equal where they are the same design.
impl PartialEq for Sticker {
    fn eq(&self, other: &Self) -> (r: bool) {
        self.code == other.code && self.description == other.description && self.dimensions
            == other.dimensions && self.material == other.material && self.text_color
            == other.text_color
    }
}

impl PartialEqSpecImpl for Sticker {
    open spec fn obeys_eq_spec() -> bool {
        true
    }

    open spec fn eq_spec(&self, other: &Self) -> bool {
        same_design(self@, other@)
    }
}

impl Sticker {
    /// The record of these fields.
    pub fn new(
        code: u64,
        description: &str,
        dimensions: Dimensions,
        material: Material,
        text_color: Color,
        full_name: String,
    ) -> (s: Sticker)
        ensures
            s@ == (Record {
                code,
                description: description@,
                dimensions,
                material,
                text_color,
                full_name: full_name@,
            }),
    {
        Sticker {
            code,
            description: description.to_owned(),
            dimensions,
            material,
            text_color,
            full_name,
        }
    }

    /// An equal record.
    pub fn duplicate(&self) -> (s: Sticker)
        ensures
            s@ == self@,
    {
        Sticker {
            code: self.code,
            description: self.description.clone(),
            dimensions: self.dimensions,
            material: self.material,
            text_color: self.text_color,
            full_name: self.full_name.clone(),
        }
    }

    /// Whether two records are the same design.
    pub fn same_as(&self, other: &Sticker) -> (b: bool)
        ensures
            b == same_design(self@, other@),
    {
        self.code == other.code && self.description == other.description && self.dimensions
            == other.dimensions && self.material == other.material && self.text_color
            == other.text_color
    }

    /// One record for each size.
    pub fn assemble(
        code: u64,
        description: &str,
        sizes: &Vec<Dimensions>,
        materials: &Vec<Material>,
        text_color: Color,
        full_name: &str,
    ) -> (r: Vec<Sticker>)
        requires
            materials@.len() > 0,
        ensures
            records(r@) == assembled(
                code,
                description@,
                sizes@,
                materials@,
                text_color,
                full_name@,
            ),
    {
        let mut r: Vec<Sticker> = Vec::new();
        let mut i: usize = 0;
        let paired: bool = materials.len() == sizes.len();
        while i < sizes.len()
            invariant
                i <= sizes@.len(),
                materials@.len() > 0,
                paired == (materials@.len() == sizes@.len()),
                r@.len() == i,
                forall|k: int|
                    0 <= k < i ==> (#[trigger] r@[k])@ == assembled(
                        code,
                        description@,
                        sizes@,
                        materials@,
                        text_color,
                        full_name@,
                    )[k],
            decreases sizes@.len() - i,
        {
            let material: Material = if paired {
                materials[i]
            } else {
                materials[0]
            };
            r.push(
                Sticker::new(
                    code,
                    description,
                    sizes[i],
                    material,
                    text_color,
                    full_name.to_owned(),
                ),
            );
            i += 1;
        }
        assert(records(r@) =~= assembled(
            code,
            description@,
            sizes@,
            materials@,
            text_color,
            full_name@,
        ));
        r
    }

    /// The records of a name, or why it has none.
    pub fn parse_stickers(name: &str) -> (r: Result<Vec<Sticker>, ParseStickerError>)
        ensures
            agrees(r, name@),
    {
        let chars = to_chars(name);
        let code: u64 = match code_from(&chars) {
            Some(code) => code,
            None => {
                return Err(ParseStickerError::MissingCode(name.to_owned()));
            },
        };
        let cut: usize = match find_first_size(&chars) {
            Some(cut) => cut,
            None => {
                return Err(ParseStickerError::MissingDimensions(name.to_owned()));
            },
        };
        let prefix = slice_chars(&chars, 0, cut);
        let suffix = slice_chars(&chars, cut, chars.len());
        let description: String = match describe(&prefix, &suffix, code) {
            Some(d) => string_from_chars(&d),
            None => {
                return Err(ParseStickerError::MissingDescription(name.to_owned()));
            },
        };
        let sizes = sizes_in(&suffix);
        let materials = materials_in(&suffix, &chars);
        let text_color: Color = match find_color(&suffix) {
            Some(c) => c,
            None => Color::Black,
        };
        if materials.len() == 0 {
            return Err(ParseStickerError::MissingMaterial(name.to_owned()));
        }
        Ok(
            Sticker::assemble(
                code,
                description.as_str(),
                &sizes,
                &materials,
                text_color,
                name,
            ),
        )
    }
}

} // verus!
