//! Symbol manifests of linked binaries.

pub mod alias_listing;
pub mod aliases;
pub mod apple;
pub mod binary;
pub mod dwarf;
pub mod listing;
pub mod names;
pub mod path;
pub mod path_laws;
pub mod pdb;
pub mod pdb_listing;
pub mod provenance;
pub mod provenance_laws;

use vstd::prelude::*;
use crate::util::embed::descriptor::EmbedError;
use crate::util::embed::image::{embed, embedded};
use crate::util::manifest::format::{
    symbol_models, ManifestCompression, ManifestError, ManifestInput, ManifestOptions, SymbolModel,
};
use crate::util::manifest::write::{build_manifest_with_options, manifest_of};
use self::binary::{binary_input, read_binary};
use self::pdb::{pdb_input, read_pdb, PdbFacts};

verus! {

/// Generate a symbol manifest from a linked binary.
#[derive(PartialEq, Eq, Debug)]
pub struct Args {
    /// PDB for the linked executable (Windows).
    pub pdb: Option<String>,
    /// Linked ELF or Mach-O binary.
    pub binary: Option<String>,
    /// Output manifest file.
    pub out: Option<String>,
    /// Executable into which the manifest is embedded.
    pub embed: Option<String>,
    /// Whether the manifest is left uncompressed.
    pub no_compress: bool,
}

/// Why there is no manifest.
#[derive(Clone, Copy, Debug, PartialEq, Eq, Structural)]
pub enum ManifestFault {
    /// Neither a PDB nor a binary is given.
    NoInput,
    /// Neither an output file nor an executable to embed into is given.
    NoOutput,
    /// The PDB does not parse.
    BadPdb,
    /// The binary does not parse.
    BadBinary,
    /// The binary has no Mach-O UUID or GNU build id, so a manifest cannot be keyed to it.
    NoBuildId,
    /// The executable to embed into cannot be read.
    NoImage,
    /// The manifest cannot be written.
    Manifest(ManifestError),
    /// The manifest cannot be embedded.
    Embed(EmbedError),
}

/// Where the symbols come from.
#[derive(Clone, Copy, Debug, PartialEq, Eq, Structural)]
pub enum Source {
    Pdb,
    Binary,
}

/// Where the symbols come from: the PDB where one is given.
pub open spec fn source_of(args: Args) -> Result<Source, ManifestFault> {
    if args.pdb is None && args.binary is None {
        Err(ManifestFault::NoInput)
    } else if args.out is None && args.embed is None {
        Err(ManifestFault::NoOutput)
    } else if args.pdb is Some {
        Ok(Source::Pdb)
    } else {
        Ok(Source::Binary)
    }
}

/// Find where the symbols come from.
pub fn select_source(args: &Args) -> (r: Result<Source, ManifestFault>)
    ensures
        r == source_of(*args),
{
    if args.pdb.is_none() && args.binary.is_none() {
        return Err(ManifestFault::NoInput);
    }
    if args.out.is_none() && args.embed.is_none() {
        return Err(ManifestFault::NoOutput);
    }
    if args.pdb.is_some() {
        Ok(Source::Pdb)
    } else {
        Ok(Source::Binary)
    }
}

/// What a manifest is made from.
pub enum Input {
    /// A PDB, and what it says of symbols.
    Pdb(Vec<u8>, PdbFacts),
    Binary(Vec<u8>),
}

/// The build id and the symbols of an input.
pub open spec fn input_symbols(input: Input) -> Result<
    (Seq<u8>, Seq<SymbolModel>),
    ManifestFault,
> {
    match input {
        Input::Pdb(data, facts) => pdb_input(data@, facts),
        Input::Binary(data) => binary_input(data@),
    }
}

/// Read the build id and the symbols of an input.
pub fn read_input(input: &Input) -> (r: Result<ManifestInput, ManifestFault>)
    ensures
        match r {
            Ok(m) => input_symbols(*input) == Ok::<(Seq<u8>, Seq<SymbolModel>), ManifestFault>(
                (m.build_id@, symbol_models(m.symbols@)),
            ),
            Err(e) => input_symbols(*input) == Err::<(Seq<u8>, Seq<SymbolModel>), ManifestFault>(e),
        },
{
    match input {
        Input::Pdb(data, facts) => read_pdb(data, facts),
        Input::Binary(data) => read_binary(data),
    }
}

/// A manifest, and the executable with it where it is embedded.
pub struct Output {
    pub manifest: Vec<u8>,
    pub entries: usize,
    pub image: Option<Vec<u8>>,
}

/// A manifest, and the executable with it, as plain values.
pub struct OutputView {
    pub manifest: Seq<u8>,
    pub entries: int,
    pub image: Option<Seq<u8>>,
}

impl View for Output {
    type V = OutputView;

    open spec fn view(&self) -> OutputView {
        OutputView {
            manifest: self.manifest@,
            entries: self.entries as int,
            image: match self.image {
                Some(image) => Some(image@),
                None => None,
            },
        }
    }
}

/// The compression of a manifest.
pub open spec fn compression_of(no_compress: bool) -> ManifestCompression {
    if no_compress {
        ManifestCompression::Uncompressed
    } else {
        ManifestCompression::Zstd
    }
}

/// The manifest of an input, embedded into an executable where one is asked for.
pub open spec fn manifest_output(args: Args, input: Input, image: Option<Seq<u8>>) -> Result<
    OutputView,
    ManifestFault,
> {
    match input_symbols(input) {
        Err(e) => Err(e),
        Ok((build_id, symbols)) => match manifest_of(
            build_id,
            symbols,
            compression_of(args.no_compress),
        ) {
            Err(e) => Err(ManifestFault::Manifest(e)),
            Ok((manifest, entries)) => match (args.embed, image) {
                (None, _) => Ok(OutputView { manifest, entries, image: None }),
                (Some(_), None) => Err(ManifestFault::NoImage),
                (Some(_), Some(image)) => match embedded(image, manifest) {
                    Err(e) => Err(ManifestFault::Embed(e)),
                    Ok(out) => Ok(OutputView { manifest, entries, image: Some(out) }),
                },
            },
        },
    }
}

/// Generate the manifest of an input, and embed it where that is asked for.
pub fn run(args: &Args, input: &Input, image: Option<Vec<u8>>) -> (r: Result<Output, ManifestFault>)
    ensures
        ({
            let wanted = match source_of(*args) {
                Err(e) => Err(e),
                Ok(_) => manifest_output(
                    *args,
                    *input,
                    match image {
                        Some(image) => Some(image@),
                        None => None,
                    },
                ),
            };
            match r {
                Ok(out) => wanted == Ok::<OutputView, ManifestFault>(out@),
                Err(e) => wanted == Err::<OutputView, ManifestFault>(e),
            }
        }),
{
    let _source: Source = select_source(args)?;
    let symbols: ManifestInput = read_input(input)?;
    let compression: ManifestCompression = if args.no_compress {
        ManifestCompression::Uncompressed
    } else {
        ManifestCompression::Zstd
    };
    let (manifest, entries) = match build_manifest_with_options(
        &symbols,
        ManifestOptions { compression },
    ) {
        Ok(built) => built,
        Err(e) => return Err(ManifestFault::Manifest(e)),
    };
    if args.embed.is_none() {
        return Ok(Output { manifest, entries, image: None });
    }
    match image {
        None => Err(ManifestFault::NoImage),
        Some(image) => match embed(image, &manifest) {
            Ok(out) => Ok(Output { manifest, entries, image: Some(out) }),
            Err(e) => Err(ManifestFault::Embed(e)),
        },
    }
}

} // verus!
