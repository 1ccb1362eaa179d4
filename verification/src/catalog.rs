//! The catalog: the programs that can be found, each known by its position.

use vstd::prelude::*;
use crate::text::{attribute_name, attribute_name_of};

verus! {

/// An installable program.
#[derive(Clone, Debug, PartialEq, Eq)]
pub struct Program {
    /// The attribute name under which the program is installed.
    pub id: String,
    /// What the program is, in a sentence.
    pub description: String,
    /// The name of the package.
    pub pname: String,
    /// The version of the package; empty where none is known.
    pub version: String,
}

/// A program as the texts it holds.
pub struct ProgramView {
    pub id: Seq<char>,
    pub description: Seq<char>,
    pub pname: Seq<char>,
    pub version: Seq<char>,
}

impl View for Program {
    type V = ProgramView;

    open spec fn view(&self) -> ProgramView {
        ProgramView {
            id: self.id@,
            description: self.description@,
            pname: self.pname@,
            version: self.version@,
        }
    }
}

impl ProgramView {
    /// The texts by which the program is found: identifier, description and
    /// package name, in this order.
    pub open spec fn indexable_texts(self) -> Seq<Seq<char>> {
        seq![self.id, self.description, self.pname]
    }

    /// Whether the program can stand in a catalog: it has an identifier and a
    /// package name.
    pub open spec fn is_named(self) -> bool {
        self.id.len() > 0 && self.pname.len() > 0
    }
}

impl Program {
    /// The fields by which the program is found: identifier, description and
    /// package name, in this order.
    pub fn indexable_fields(&self) -> (fields: Vec<&str>)
        ensures
            fields.deep_view() == self@.indexable_texts(),
    {
        let mut fields: Vec<&str> = Vec::new();
        fields.push(self.id.as_str());
        fields.push(self.description.as_str());
        fields.push(self.pname.as_str());
        assert(fields.deep_view() =~= self@.indexable_texts());
        fields
    }
}

/// One entry of the package manager's listing: the attribute path it stands
/// under, and what it says of the package.
#[derive(Clone, Debug, PartialEq, Eq)]
pub struct CatalogEntry {
    /// The attribute path, its segments parted by `.`.
    pub path: String,
    pub description: String,
    pub pname: String,
    pub version: String,
}

/// An entry as the texts it holds.
pub struct CatalogEntryView {
    pub path: Seq<char>,
    pub description: Seq<char>,
    pub pname: Seq<char>,
    pub version: Seq<char>,
}

impl View for CatalogEntry {
    type V = CatalogEntryView;

    open spec fn view(&self) -> CatalogEntryView {
        CatalogEntryView {
            path: self.path@,
            description: self.description@,
            pname: self.pname@,
            version: self.version@,
        }
    }
}

/// Why a listing cannot be loaded.
#[derive(Clone, Copy, Debug, PartialEq, Eq, Structural)]
pub enum LoadError {
    /// The attribute path of the entry at `position` names no program: it has
    /// fewer than two separators, or nothing behind the second.
    MalformedPath { position: usize },
    /// The entry at `position` has an empty package name.
    EmptyPname { position: usize },
}

impl CatalogEntryView {
    /// What is wrong with the entry, if anything is, where it stands at
    /// `position` in the listing.
    pub open spec fn fault(self, position: usize) -> Option<LoadError> {
        if attribute_name(self.path) is None {
            Some(LoadError::MalformedPath { position })
        } else if self.pname.len() == 0 {
            Some(LoadError::EmptyPname { position })
        } else {
            None
        }
    }

    /// The program that a sound entry describes.
    pub open spec fn program(self) -> ProgramView
        recommends
            attribute_name(self.path) is Some,
    {
        ProgramView {
            id: attribute_name(self.path)->0,
            description: self.description,
            pname: self.pname,
            version: self.version,
        }
    }
}

/// The programs that a listing of sound entries describes, in its order.
pub open spec fn programs_of(entries: Seq<CatalogEntry>) -> Seq<ProgramView> {
    Seq::new(entries.len(), |i: int| entries[i]@.program())
}

/// Whether `position` is the first in `entries` at which an entry is at fault,
/// and `error` is that fault.
pub open spec fn is_first_fault(entries: Seq<CatalogEntry>, position: int, error: LoadError) -> bool {
    &&& 0 <= position < entries.len()
    &&& forall|j: int| 0 <= j < position ==> (#[trigger] entries[j])@.fault(j as usize) is None
    &&& entries[position]@.fault(position as usize) == Some(error)
}

/// Whether the programs can form a catalog: each has an identifier and a
/// package name.
pub open spec fn is_catalog(programs: Seq<ProgramView>) -> bool {
    forall|i: int| 0 <= i < programs.len() ==> (#[trigger] programs[i]).is_named()
}

/// The programs that can be found. A program's key is its position, and
/// neither changes once the catalog is loaded.
pub struct Catalog {
    programs: Vec<Program>,
}

impl View for Catalog {
    type V = Seq<ProgramView>;

    closed spec fn view(&self) -> Seq<ProgramView> {
        Seq::new(self.programs@.len(), |i: int| self.programs@[i]@)
    }
}

impl Catalog {
    /// Every program of a catalog has an identifier and a package name.
    #[verifier::type_invariant]
    pub open spec fn well_formed(&self) -> bool {
        is_catalog(self@)
    }

    /// Loads a listing. The program of the entry at position `i` gets the key
    /// `i`. A listing with an entry at fault is refused as a whole, with the
    /// first fault in it.
    pub fn load(entries: Vec<CatalogEntry>) -> (loaded: Result<Catalog, LoadError>)
        ensures
            match loaded {
                Ok(catalog) => {
                    &&& forall|i: int|
                        0 <= i < entries@.len() ==> (#[trigger] entries@[i])@.fault(i as usize) is None
                    &&& catalog@ == programs_of(entries@)
                    &&& catalog.well_formed()
                },
                Err(error) => exists|position: int| is_first_fault(entries@, position, error),
            },
    {
        let mut programs: Vec<Program> = Vec::new();
        let mut position: usize = 0;
        let count = entries.len();
        for entry in it: entries
            invariant
                it.seq() == entries@,
                count == entries@.len(),
                position == it.index(),
                programs@.len() == position,
                forall|j: int| 0 <= j < position ==> (#[trigger] entries@[j])@.fault(j as usize) is None,
                forall|j: int| 0 <= j < position ==> (#[trigger] programs@[j])@ == entries@[j]@.program(),
        {
            let id = match attribute_name_of(entry.path.as_str()) {
                Some(id) => id,
                None => {
                    let error = LoadError::MalformedPath { position };
                    assert(is_first_fault(entries@, position as int, error));
                    return Err(error);
                },
            };
            if entry.pname.as_str().is_empty() {
                let error = LoadError::EmptyPname { position };
                assert(is_first_fault(entries@, position as int, error));
                return Err(error);
            }
            programs.push(
                Program {
                    id,
                    description: entry.description,
                    pname: entry.pname,
                    version: entry.version,
                },
            );
            position += 1;
        }
        let catalog = Catalog { programs };
        assert(catalog@ =~= programs_of(entries@));
        Ok(catalog)
    }

    /// The number of programs.
    pub fn len(&self) -> (n: usize)
        ensures
            n == self@.len(),
    {
        self.programs.len()
    }

    /// The program with the key `key`, which the catalog holds.
    pub fn program(&self, key: usize) -> (program: &Program)
        requires
            key < self@.len(),
        ensures
            program@ == self@[key as int],
    {
        &self.programs[key]
    }

    /// The program with the key `key`, if the catalog holds one.
    pub fn get(&self, key: usize) -> (program: Option<&Program>)
        ensures
            match program {
                Some(p) => key < self@.len() && p@ == self@[key as int],
                None => key >= self@.len(),
            },
    {
        if key < self.programs.len() {
            Some(&self.programs[key])
        } else {
            None
        }
    }
}

} // verus!
