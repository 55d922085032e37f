//! What the `object` crate finds in a COFF object, as plain values.

use object::pe::AnonObjectHeaderBigobj;
use object::read::coff::CoffFile;
use object::{ComdatKind, Object, ObjectComdat, ObjectSection, ObjectSymbol, SectionKind};
use vstd::prelude::*;

verus! {

/// A symbol of a COFF object.
pub struct CoffSymbol {
    /// The name, where it can be read and is UTF-8.
    pub name: Option<Vec<u8>>,
    pub definition: bool,
    pub global: bool,
    /// The number of the section that the symbol is in.
    pub section: Option<usize>,
}

/// A COMDAT of a COFF object.
pub struct Comdat {
    /// Whether other definitions of it are an error.
    pub no_duplicates: bool,
    /// The numbers of its sections.
    pub sections: Vec<usize>,
}

/// A COFF object.
pub struct CoffObject {
    /// For each section, whether it holds code. The first section has number 1.
    pub code: Vec<bool>,
    pub comdats: Vec<Comdat>,
    pub symbols: Vec<CoffSymbol>,
}

/// A symbol as a plain value.
pub struct CoffSymbolView {
    pub name: Option<Seq<u8>>,
    pub definition: bool,
    pub global: bool,
    pub section: Option<usize>,
}

/// A COFF object as a plain value.
pub struct CoffView {
    pub code: Seq<bool>,
    pub comdats: Seq<(bool, Seq<usize>)>,
    pub symbols: Seq<CoffSymbolView>,
}

impl View for CoffSymbol {
    type V = CoffSymbolView;

    open spec fn view(&self) -> CoffSymbolView {
        CoffSymbolView {
            name: match self.name {
                Some(name) => Some(name@),
                None => None,
            },
            definition: self.definition,
            global: self.global,
            section: self.section,
        }
    }
}

impl View for CoffObject {
    type V = CoffView;

    open spec fn view(&self) -> CoffView {
        CoffView {
            code: self.code@,
            comdats: Seq::new(
                self.comdats@.len(),
                |i: int| (self.comdats@[i].no_duplicates, self.comdats@[i].sections@),
            ),
            symbols: Seq::new(self.symbols@.len(), |i: int| self.symbols@[i]@),
        }
    }
}

/// What `object::read::coff::CoffFile` finds in a classic COFF object; nothing where it does not
/// parse as one.
pub uninterp spec fn classic_coff(data: Seq<u8>) -> Option<CoffView>;

/// What `object::read::coff::CoffFile` finds in an extended (`/bigobj`) COFF object; nothing where
/// it does not parse as one.
pub uninterp spec fn big_coff(data: Seq<u8>) -> Option<CoffView>;

/// `CoffFile::parse` for a classic COFF object: its sections, COMDATs and symbols, under the name of
/// the result. The file holds a header of 40 bytes for each section.
#[verifier::external_body]
fn read_classic(data: &[u8]) -> (r: Option<CoffObject>)
    ensures
        match r {
            Some(object) => classic_coff(data@) == Some(object@) && 40 * object.code@.len()
                <= data@.len(),
            None => classic_coff(data@) is None,
        },
{
    let file = CoffFile::<&[u8]>::parse(data).ok()?;
    let code = file.sections().map(|s| s.kind() == SectionKind::Text).collect();
    let comdats = file.comdats().map(|c| Comdat {
        no_duplicates: c.kind() == ComdatKind::NoDuplicates,
        sections: c.sections().map(|s| s.0).collect(),
    }).collect();
    let symbols = file.symbols().map(|s| CoffSymbol {
        name: s.name().ok().map(Vec::from),
        definition: s.is_definition(),
        global: s.is_global(),
        section: s.section_index().map(|i| i.0),
    }).collect();
    Some(CoffObject { code, comdats, symbols })
}

/// `CoffFile::parse` for an extended COFF object: its sections, COMDATs and symbols, under the name
/// of the result. The file holds a header of 40 bytes for each section.
#[verifier::external_body]
fn read_big(data: &[u8]) -> (r: Option<CoffObject>)
    ensures
        match r {
            Some(object) => big_coff(data@) == Some(object@) && 40 * object.code@.len()
                <= data@.len(),
            None => big_coff(data@) is None,
        },
{
    let file = CoffFile::<&[u8], AnonObjectHeaderBigobj>::parse(data).ok()?;
    let code = file.sections().map(|s| s.kind() == SectionKind::Text).collect();
    let comdats = file.comdats().map(|c| Comdat {
        no_duplicates: c.kind() == ComdatKind::NoDuplicates,
        sections: c.sections().map(|s| s.0).collect(),
    }).collect();
    let symbols = file.symbols().map(|s| CoffSymbol {
        name: s.name().ok().map(Vec::from),
        definition: s.is_definition(),
        global: s.is_global(),
        section: s.section_index().map(|i| i.0),
    }).collect();
    Some(CoffObject { code, comdats, symbols })
}

/// What a COFF object holds. MSVC emits both classic COFF and `/bigobj` extended COFF objects.
pub open spec fn coff_object(data: Seq<u8>) -> Option<CoffView> {
    match classic_coff(data) {
        Some(object) => Some(object),
        None => big_coff(data),
    }
}

/// Read a COFF object.
pub(crate) fn read_coff(data: &[u8]) -> (r: Option<CoffObject>)
    ensures
        match r {
            Some(object) => coff_object(data@) == Some(object@) && 40 * object.code@.len()
                <= data@.len(),
            None => coff_object(data@) is None,
        },
{
    match read_classic(data) {
        Some(object) => Some(object),
        None => read_big(data),
    }
}

} // verus!
