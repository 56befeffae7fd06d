//! Extraction of one class, with everything that it refers to, into a
//! standalone DEX file: bytecode references, metadata references, try/catch
//! types and all identifier tables are remapped to dense indices.
use vstd::prelude::*;

pub mod accepted;
pub mod again;
pub mod assemble;
pub mod bytecode;
pub mod canonical;
pub mod codeback;
pub mod debugback;
pub mod digests;
pub mod emit;
pub mod encoded;
pub mod equal;
pub mod fidelity;
pub mod gather;
pub mod holdings;
pub mod hollow;
pub mod layout;
pub mod leb;
pub mod lebread;
pub mod maplist;
pub mod mapper;
pub mod meaning;
pub mod members;
pub mod metaback;
pub mod metadata;
pub mod notes;
pub mod operands;
pub mod placement;
pub mod preserved;
pub mod readback;
pub mod reader;
pub mod rebuilt;
pub mod recode;
pub mod recount;
pub mod relinks;
pub mod renote;
pub mod reopen;
pub mod reparts;
pub mod reread;
pub mod rerun;
pub mod retable;
pub mod rewrite;
pub mod roam;
pub mod room;
pub mod roundtrip;
pub mod second;
pub mod sections;
pub mod settled;
pub mod sites;
pub mod sorted;
pub mod sound;
pub mod spans;
pub mod tableback;
pub mod tables;
pub mod twofold;
pub mod unique;
pub mod validate;
pub mod valueback;
pub mod values;
pub mod wants;
pub mod wholes;

use crate::error::Error;
use crate::minidex::assemble::{build_dex, built};
use crate::minidex::bytecode::{BytecodeRefs, CodeRefs};
use crate::minidex::gather::{gather, gathered, lemma_gathered_ok, relink_codes, relinked_codes};
use crate::minidex::hollow::{hollow_class, parts_of, Hollowed, Parts};
use crate::minidex::mapper::IndexMapper;
use crate::minidex::reader::{members_in, ClassDef, DexTables, DexView, Members};
use crate::minidex::tables::Tables;
use crate::minidex::validate::dex_fault;

pub use crate::minidex::validate::validate_minimal_dex;

verus! {

/// How large an extracted file and its tables are.
#[derive(Debug, Clone, Copy, PartialEq, Eq, Structural)]
pub struct MinimalDexStats {
    pub input_bytes: usize,
    pub output_bytes: usize,
    pub strings: usize,
    pub types: usize,
    pub protos: usize,
    pub fields: usize,
    pub methods: usize,
}

/// An extracted class.
#[derive(Debug)]
pub struct MinimalDex {
    pub bytes: Vec<u8>,
    pub stats: MinimalDexStats,
}

/// The sizes of an extraction.
pub open spec fn stats_of(input: int, output: int, m: Tables) -> MinimalDexStats {
    MinimalDexStats {
        input_bytes: input as usize,
        output_bytes: output as usize,
        strings: m.strings.len() as usize,
        types: m.types.len() as usize,
        protos: m.protos.len() as usize,
        fields: m.fields.len() as usize,
        methods: m.methods.len() as usize,
    }
}

/// A class of a DEX file: its definition and its members.
pub open spec fn class_of(dex: DexTables, descriptor: Seq<char>) -> Result<
    (ClassDef, Members),
    Error,
> {
    match dex.class_from(descriptor, 0) {
        Err(e) => Err(e),
        Ok(None) => Err(Error::ClassNotFound),
        Ok(Some(class)) => match members_in(dex.data, class.class_data_off) {
            Err(e) => Err(e),
            Ok(members) => Ok((class, members)),
        },
    }
}

/// The canonical tables of a class, and its parts with the code pointing at
/// them.
pub open spec fn linked(dex: DexTables, class: ClassDef, members: Members) -> Result<
    (Tables, Parts),
    Error,
> {
    match parts_of(dex, class, members, CodeRefs::empty()) {
        Err(e) => Err(e),
        Ok((parts, refs)) => match gathered(dex, class, members, parts, refs) {
            Err(e) => Err(e),
            Ok(tables) => {
                let m = tables.canonical();
                match relinked_codes(parts.codes, refs, m, dex) {
                    Err(e) => Err(e),
                    Ok(codes) => Ok((m, Parts { codes, ..parts })),
                }
            },
        },
    }
}

/// The file that a class of a DEX file is extracted to, and its tables.
pub open spec fn extracted_from(dex: DexTables, descriptor: Seq<char>) -> Result<
    (Seq<u8>, Tables),
    Error,
> {
    match class_of(dex, descriptor) {
        Err(e) => Err(e),
        Ok((class, members)) => match linked(dex, class, members) {
            Err(e) => Err(e),
            Ok((m, parts)) => match built(class, members, parts, m, dex) {
                Err(e) => Err(e),
                Ok(bytes) => match dex_fault(bytes) {
                    Some(e) => Err(e),
                    None => Ok((bytes, m)),
                },
            },
        },
    }
}

/// The file that a class of the DEX file at `base` is extracted to, and its
/// tables.
pub open spec fn extracted(data: Seq<u8>, base: int, descriptor: Seq<char>) -> Result<
    (Seq<u8>, Tables),
    Error,
> {
    match DexTables::tables_in(data, base) {
        Err(e) => Err(e),
        Ok(dex) => extracted_from(dex, descriptor),
    }
}

/// Extracts one class and its direct DEX dependencies into a dense, standalone
/// DEX file.
pub fn extract_minimal_dex(data: &[u8], descriptor: &str) -> (r: Result<MinimalDex, Error>)
    ensures
        match r {
            Ok(v) => extracted(data@, 0, descriptor@) matches Ok((bytes, m)) && bytes == v.bytes@
                && v.stats == stats_of(data@.len() as int, bytes.len() as int, m) && dex_fault(
                v.bytes@,
            ) is None,
            Err(e) => extracted(data@, 0, descriptor@) == Err::<(Seq<u8>, Tables), Error>(e),
        },
{
    extract_minimal_dex_at(data, 0, descriptor)
}

/// Extracts one class of the logical DEX file whose header stands at
/// `header_offset`.
pub fn extract_minimal_dex_at(data: &[u8], header_offset: u64, descriptor: &str) -> (r: Result<
    MinimalDex,
    Error,
>)
    ensures
        match r {
            Ok(v) => extracted(data@, header_offset as int, descriptor@) matches Ok((bytes, m))
                && bytes == v.bytes@ && v.stats == stats_of(
                data@.len() as int,
                bytes.len() as int,
                m,
            ) && dex_fault(v.bytes@) is None,
            Err(e) => extracted(data@, header_offset as int, descriptor@) == Err::<
                (Seq<u8>, Tables),
                Error,
            >(e),
        },
{
    let dex = DexView::parse_at(data, header_offset)?;
    let class = match dex.find_class(descriptor)? {
        Some(class) => class,
        None => return Err(Error::ClassNotFound),
    };
    let class_data = dex.class_data(class.class_data_off)?;
    let mut refs = BytecodeRefs::new();
    let hollowed = hollow_class(&dex, class, &class_data, &mut refs)?;
    let mut mapper = IndexMapper::new(&dex);
    gather(&mut mapper, class, &class_data, &hollowed, &refs)?;
    proof {
        lemma_gathered_ok(dex@, class, class_data@, hollowed@, refs@);
    }
    mapper.canonicalize();
    let codes = relink_codes(&hollowed.codes, &refs, &mapper)?;
    let linked = Hollowed { codes, ..hollowed };
    let bytes = build_dex(class, &class_data, &linked, &mapper)?;
    validate_minimal_dex(bytes.as_slice())?;
    let stats = MinimalDexStats {
        input_bytes: data.len(),
        output_bytes: bytes.len(),
        strings: mapper.strings.len(),
        types: mapper.types.len(),
        protos: mapper.protos.len(),
        fields: mapper.fields.len(),
        methods: mapper.methods.len(),
    };
    Ok(MinimalDex { bytes, stats })
}

} // verus!
