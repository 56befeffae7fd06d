//! Taking a class apart: its code with numbered operands, its metadata, and
//! what all of it refers to.
use vstd::prelude::*;

use crate::collections::{Entries, SortedMap};
use crate::error::Error;
use crate::minidex::bytecode::{numbered, remap_code_indices, BytecodeRefs, CodeRefs};
use crate::minidex::metadata::{
    annotations_in, debug_in, parse_debug_info, Annotations, ClassAnnotations,
};
use crate::minidex::reader::{
    code_in, ClassData, ClassDef, Code, CodeItem, DexTables, DexView, EncodedMethod, Members,
};
use crate::minidex::sections::static_model;
use crate::minidex::values::{
    array_in, parse_encoded_array, DebugInfo, Debugging, EncodedValue, MetadataRefs, RefSets, Value,
};
use crate::results::run;

verus! {

/// A class taken apart.
#[derive(Debug)]
pub struct Hollowed {
    pub interfaces: Vec<u16>,
    pub codes: SortedMap<CodeItem>,
    pub debug_info: SortedMap<DebugInfo>,
    pub annotations: Annotations,
    pub static_values: Option<Vec<EncodedValue>>,
    pub metadata_refs: MetadataRefs,
}

/// The meaning of a class taken apart.
#[verifier::ext_equal]
pub struct Parts {
    pub interfaces: Seq<u16>,
    pub codes: Entries<Code>,
    pub debug_info: Entries<Debugging>,
    pub annotations: ClassAnnotations,
    pub static_values: Option<Seq<Value>>,
    pub metadata_refs: RefSets,
}

impl View for Hollowed {
    type V = Parts;

    open spec fn view(&self) -> Parts {
        Parts {
            interfaces: self.interfaces@,
            codes: self.codes@,
            debug_info: self.debug_info@,
            annotations: self.annotations@,
            static_values: static_model(self.static_values),
            metadata_refs: self.metadata_refs@,
        }
    }
}

impl Hollowed {
    pub open spec fn wf(self) -> bool {
        self.codes.wf() && self.debug_info.wf() && self.annotations.wf()
    }
}

/// Reads the code of one method, numbers its operands and keeps it under the
/// method's index.
pub open spec fn code_step(data: Seq<u8>, methods: Seq<EncodedMethod>) -> spec_fn(
    (Entries<Code>, CodeRefs),
    int,
) -> Result<(Entries<Code>, CodeRefs), Error> {
    |s: (Entries<Code>, CodeRefs), i: int|
        if methods[i].code_off == 0 {
            Ok(s)
        } else {
            match code_in(data, methods[i].code_off as int) {
                Err(e) => Err(e),
                Ok(code) => match numbered(code.insns, s.1) {
                    Err(e) => Err(e),
                    Ok((insns, refs)) => Ok(
                        (s.0.put(methods[i].method_idx, Code { insns, ..code }), refs),
                    ),
                },
            }
        }
}

/// The code of all methods.
pub open spec fn codes_of(data: Seq<u8>, methods: Seq<EncodedMethod>, refs: CodeRefs) -> Result<
    (Entries<Code>, CodeRefs),
    Error,
> {
    run(code_step(data, methods), (Entries::<Code>::empty(), refs), 0, methods.len() as int)
}

/// Reads the debug item of one piece of code, if it has one.
pub open spec fn debug_step(data: Seq<u8>, codes: Entries<Code>) -> spec_fn(
    (Entries<Debugging>, RefSets),
    int,
) -> Result<(Entries<Debugging>, RefSets), Error> {
    |s: (Entries<Debugging>, RefSets), i: int|
        if codes.values[i].debug_info_off == 0 {
            Ok(s)
        } else {
            match debug_in(data, codes.values[i].debug_info_off as int, s.1) {
                Err(e) => Err(e),
                Ok((d, refs)) => Ok((s.0.put(codes.keys[i], d), refs)),
            }
        }
}

/// The debug items of all code, in the order of the methods' indices.
pub open spec fn debugs_of(data: Seq<u8>, codes: Entries<Code>, refs: RefSets) -> Result<
    (Entries<Debugging>, RefSets),
    Error,
> {
    run(
        debug_step(data, codes),
        (Entries::<Debugging>::empty(), refs),
        0,
        codes.keys.len() as int,
    )
}

/// The static values at `offset`; offset zero stands for none.
pub open spec fn statics_of(data: Seq<u8>, offset: u32, refs: RefSets) -> Result<
    (Option<Seq<Value>>, RefSets),
    Error,
> {
    if offset == 0 {
        Ok((None, refs))
    } else {
        match array_in(data, offset, refs) {
            Err(e) => Err(e),
            Ok((items, more)) => Ok((Some(items), more)),
        }
    }
}

/// A class taken apart, and the references that its code makes.
pub open spec fn parts_of(dex: DexTables, class: ClassDef, members: Members, refs: CodeRefs) -> Result<
    (Parts, CodeRefs),
    Error,
> {
    match dex.type_list(class.interfaces_off) {
        Err(e) => Err(e),
        Ok(interfaces) => match codes_of(dex.data, members.methods(), refs) {
            Err(e) => Err(e),
            Ok((codes, code_refs)) => match annotations_in(
                dex.data,
                class.annotations_off,
                RefSets::empty(),
            ) {
                Err(e) => Err(e),
                Ok((annotations, a)) => match statics_of(dex.data, class.static_values_off, a) {
                    Err(e) => Err(e),
                    Ok((static_values, b)) => match debugs_of(dex.data, codes, b) {
                        Err(e) => Err(e),
                        Ok((debug_info, metadata_refs)) => Ok(
                            (
                                Parts {
                                    interfaces,
                                    codes,
                                    debug_info,
                                    annotations,
                                    static_values,
                                    metadata_refs,
                                },
                                code_refs,
                            ),
                        ),
                    },
                },
            },
        },
    }
}

fn read_codes(dex: &DexView<'_>, methods: &Vec<EncodedMethod>, refs: &mut BytecodeRefs) -> (r: Result<
    SortedMap<CodeItem>,
    Error,
>)
    requires
        old(refs).wf(),
    ensures
        match r {
            Ok(v) => v.wf() && final(refs).wf() && codes_of(dex.data@, methods@, old(refs)@)
                == Ok::<(Entries<Code>, CodeRefs), Error>((v@, final(refs)@)),
            Err(e) => codes_of(dex.data@, methods@, old(refs)@) == Err::<
                (Entries<Code>, CodeRefs),
                Error,
            >(e),
        },
{
    let mut codes: SortedMap<CodeItem> = SortedMap::new();
    let ghost step = code_step(dex.data@, methods@);
    let mut i: usize = 0;
    while i < methods.len()
        invariant
            i <= methods.len(),
            codes.wf(),
            refs.wf(),
            step == code_step(dex.data@, methods@),
            codes_of(dex.data@, methods@, old(refs)@) == run(
                step,
                (codes@, refs@),
                i as int,
                methods@.len() as int,
            ),
        decreases methods.len() - i,
    {
        let ghost outcome = step((codes@, refs@), i as int);
        let method = methods[i];
        if method.code_off != 0 {
            let mut code = dex.code_item(method.code_off)?;
            remap_code_indices(&mut code, refs)?;
            codes.insert(method.method_idx, code);
        }
        assert(outcome == Ok::<(Entries<Code>, CodeRefs), Error>((codes@, refs@)));
        i += 1;
    }
    Ok(codes)
}

fn read_debug_items(data: &[u8], codes: &SortedMap<CodeItem>, refs: &mut MetadataRefs) -> (r: Result<
    SortedMap<DebugInfo>,
    Error,
>)
    requires
        codes.wf(),
    ensures
        match r {
            Ok(v) => v.wf() && debugs_of(data@, codes@, old(refs)@) == Ok::<
                (Entries<Debugging>, RefSets),
                Error,
            >((v@, final(refs)@)),
            Err(e) => debugs_of(data@, codes@, old(refs)@) == Err::<
                (Entries<Debugging>, RefSets),
                Error,
            >(e),
        },
{
    let mut debug_info: SortedMap<DebugInfo> = SortedMap::new();
    let ghost all = codes@;
    let ghost step = debug_step(data@, all);
    let mut i: usize = 0;
    while i < codes.keys.len()
        invariant
            i <= codes.keys.len(),
            codes.wf(),
            debug_info.wf(),
            all == codes@,
            step == debug_step(data@, all),
            debugs_of(data@, all, old(refs)@) == run(
                step,
                (debug_info@, refs@),
                i as int,
                all.keys.len() as int,
            ),
        decreases codes.keys.len() - i,
    {
        let ghost outcome = step((debug_info@, refs@), i as int);
        assert(all.values[i as int] == codes.values@[i as int]@);
        let offset: u32 = codes.values[i].debug_info_off;
        if offset != 0 {
            let debug = parse_debug_info(data, offset, refs)?;
            debug_info.insert(codes.keys[i], debug);
        }
        assert(outcome == Ok::<(Entries<Debugging>, RefSets), Error>((debug_info@, refs@)));
        i += 1;
    }
    Ok(debug_info)
}

/// Takes a class apart and notes what its code refers to. An error leaves the
/// references where the reading stopped.
pub fn hollow_class(
    dex: &DexView<'_>,
    class: ClassDef,
    class_data: &ClassData,
    bytecode_refs: &mut BytecodeRefs,
) -> (r: Result<Hollowed, Error>)
    requires
        old(bytecode_refs).wf(),
    ensures
        match r {
            Ok(v) => v.wf() && final(bytecode_refs).wf() && parts_of(
                dex@,
                class,
                class_data@,
                old(bytecode_refs)@,
            ) == Ok::<(Parts, CodeRefs), Error>((v@, final(bytecode_refs)@)),
            Err(e) => parts_of(dex@, class, class_data@, old(bytecode_refs)@) == Err::<
                (Parts, CodeRefs),
                Error,
            >(e),
        },
{
    let interfaces = dex.type_list(class.interfaces_off)?;
    let methods = class_data.methods();
    let codes = read_codes(dex, &methods, bytecode_refs)?;
    let mut metadata_refs = MetadataRefs::new();
    let annotations = Annotations::parse(dex.data, class.annotations_off, &mut metadata_refs)?;
    let static_values: Option<Vec<EncodedValue>> = if class.static_values_off == 0 {
        None
    } else {
        Some(parse_encoded_array(dex.data, class.static_values_off, &mut metadata_refs)?)
    };
    let debug_info = read_debug_items(dex.data, &codes, &mut metadata_refs)?;
    Ok(Hollowed { interfaces, codes, debug_info, annotations, static_values, metadata_refs })
}

} // verus!
