//! Gathering everything that a class refers to into new identifier tables, and
//! pointing its code at them.
use vstd::prelude::*;

use crate::collections::{lemma_views_empty, lemma_views_push, views, Entries, SortedMap};
use crate::error::Error;
use crate::minidex::assemble::NO_INDEX;
use crate::minidex::bytecode::{normalize_code_indices, rewritten, BytecodeRefs, CodeRefs};
use crate::minidex::hollow::{Hollowed, Parts};
use crate::minidex::mapper::IndexMapper;
use crate::minidex::reader::{
    CatchHandler, ClassData, ClassDef, Code, CodeItem, DexTables, EncodedField, EncodedMethod,
    Handler, Members, TryItem,
};
use crate::minidex::tables::{
    lemma_add_field, lemma_add_method, lemma_add_origin_type, lemma_add_proto, lemma_add_string,
    lemma_fill_primitives, Tables,
};
use crate::minidex::values::{MetadataRefs, RefSets};
use crate::results::{collect, lemma_collect_error, run};

verus! {

// ---------------------------------------------------------------------------
// Adding lists of identifiers
// ---------------------------------------------------------------------------

/// The tables after an addition, whose index has to be `i` where the order
/// matters.
pub open spec fn placed(
    added: Result<(Tables, u16), Error>,
    i: int,
    ordered: bool,
    fault: Error,
) -> Result<Tables, Error> {
    match added {
        Err(e) => Err(e),
        Ok((m, index)) => if ordered && index != i {
            Err(fault)
        } else {
            Ok(m)
        },
    }
}

pub open spec fn string_adder(dex: DexTables, list: Seq<u32>) -> spec_fn(Tables, int) -> Result<
    Tables,
    Error,
> {
    |m: Tables, i: int|
        match m.add_origin_string(dex, list[i]) {
            Err(e) => Err(e),
            Ok((n, _)) => Ok(n),
        }
}

pub open spec fn type_adder(dex: DexTables, list: Seq<u32>, ordered: bool) -> spec_fn(
    Tables,
    int,
) -> Result<Tables, Error> {
    |m: Tables, i: int| placed(m.add_origin_type(dex, list[i]), i, ordered, Error::TypeOrder)
}

pub open spec fn proto_adder(dex: DexTables, list: Seq<u32>, ordered: bool) -> spec_fn(
    Tables,
    int,
) -> Result<Tables, Error> {
    |m: Tables, i: int| placed(m.add_proto(dex, list[i]), i, ordered, Error::ProtoOrder)
}

pub open spec fn field_adder(dex: DexTables, list: Seq<u32>, ordered: bool) -> spec_fn(
    Tables,
    int,
) -> Result<Tables, Error> {
    |m: Tables, i: int| placed(m.add_field(dex, list[i]), i, ordered, Error::FieldOrder)
}

pub open spec fn method_adder(dex: DexTables, list: Seq<u32>, ordered: bool) -> spec_fn(
    Tables,
    int,
) -> Result<Tables, Error> {
    |m: Tables, i: int| placed(m.add_method(dex, list[i]), i, ordered, Error::MethodOrder)
}

pub open spec fn with_strings(m: Tables, dex: DexTables, list: Seq<u32>) -> Result<Tables, Error> {
    run(string_adder(dex, list), m, 0, list.len() as int)
}

pub open spec fn with_types(m: Tables, dex: DexTables, list: Seq<u32>, ordered: bool) -> Result<
    Tables,
    Error,
> {
    run(type_adder(dex, list, ordered), m, 0, list.len() as int)
}

pub open spec fn with_protos(m: Tables, dex: DexTables, list: Seq<u32>, ordered: bool) -> Result<
    Tables,
    Error,
> {
    run(proto_adder(dex, list, ordered), m, 0, list.len() as int)
}

pub open spec fn with_fields(m: Tables, dex: DexTables, list: Seq<u32>, ordered: bool) -> Result<
    Tables,
    Error,
> {
    run(field_adder(dex, list, ordered), m, 0, list.len() as int)
}

pub open spec fn with_methods(m: Tables, dex: DexTables, list: Seq<u32>, ordered: bool) -> Result<
    Tables,
    Error,
> {
    run(method_adder(dex, list, ordered), m, 0, list.len() as int)
}

/// The tables after what the code refers to: the identifiers keep the numbers
/// that the operands hold.
pub open spec fn with_code_refs(m: Tables, dex: DexTables, refs: CodeRefs) -> Result<
    Tables,
    Error,
> {
    match with_strings(m, dex, refs.strings) {
        Err(e) => Err(e),
        Ok(a) => match with_types(a, dex, refs.types, true) {
            Err(e) => Err(e),
            Ok(b) => match b.fill_primitives() {
                Err(e) => Err(e),
                Ok(c) => match with_protos(c, dex, refs.protos, true) {
                    Err(e) => Err(e),
                    Ok(d) => match with_fields(d, dex, refs.fields, true) {
                        Err(e) => Err(e),
                        Ok(f) => with_methods(f, dex, refs.methods, true),
                    },
                },
            },
        },
    }
}

/// The tables after what the metadata refers to.
pub open spec fn with_metadata_refs(m: Tables, dex: DexTables, refs: RefSets) -> Result<
    Tables,
    Error,
> {
    match with_strings(m, dex, refs.strings) {
        Err(e) => Err(e),
        Ok(a) => match with_types(a, dex, refs.types, false) {
            Err(e) => Err(e),
            Ok(b) => match with_protos(b, dex, refs.protos, false) {
                Err(e) => Err(e),
                Ok(c) => match with_fields(c, dex, refs.fields, false) {
                    Err(e) => Err(e),
                    Ok(d) => with_methods(d, dex, refs.methods, false),
                },
            },
        },
    }
}

pub open spec fn field_ids(fields: Seq<EncodedField>) -> Seq<u32> {
    fields.map_values(|f: EncodedField| f.field_idx)
}

pub open spec fn method_ids(methods: Seq<EncodedMethod>) -> Seq<u32> {
    methods.map_values(|m: EncodedMethod| m.method_idx)
}

pub open spec fn widened_ids(list: Seq<u16>) -> Seq<u32> {
    list.map_values(|x: u16| x as u32)
}

/// The strings that the class definition names.
pub open spec fn class_strings(class: ClassDef) -> Seq<u32> {
    if class.source_file_idx == NO_INDEX {
        Seq::empty()
    } else {
        seq![class.source_file_idx]
    }
}

/// The types that the class definition names.
pub open spec fn class_types(class: ClassDef) -> Seq<u32> {
    if class.superclass_idx == NO_INDEX {
        seq![class.class_idx]
    } else {
        seq![class.class_idx, class.superclass_idx]
    }
}

/// The types that handlers catch, behind `done`.
pub open spec fn caught_by(pairs: Seq<(u32, u32)>) -> Seq<u32> {
    pairs.map_values(|p: (u32, u32)| p.0)
}

pub open spec fn caught_in(handlers: Seq<Handler>) -> Seq<u32>
    decreases handlers.len(),
{
    if handlers.len() == 0 {
        Seq::empty()
    } else {
        caught_in(handlers.drop_last()) + caught_by(handlers.last().pairs)
    }
}

pub open spec fn caught_types(codes: Seq<Code>) -> Seq<u32>
    decreases codes.len(),
{
    if codes.len() == 0 {
        Seq::empty()
    } else {
        caught_types(codes.drop_last()) + caught_in(codes.last().handlers)
    }
}

/// The tables with everything that a class refers to.
pub open spec fn gathered(
    dex: DexTables,
    class: ClassDef,
    members: Members,
    parts: Parts,
    refs: CodeRefs,
) -> Result<Tables, Error> {
    match with_code_refs(Tables::empty(), dex, refs) {
        Err(e) => Err(e),
        Ok(a) => match with_fields(a, dex, field_ids(members.fields()), false) {
            Err(e) => Err(e),
            Ok(b) => match with_methods(b, dex, method_ids(members.methods()), false) {
                Err(e) => Err(e),
                Ok(c) => match with_strings(c, dex, class_strings(class)) {
                    Err(e) => Err(e),
                    Ok(d) => match with_types(d, dex, class_types(class), false) {
                        Err(e) => Err(e),
                        Ok(f) => match with_types(f, dex, widened_ids(parts.interfaces), false) {
                            Err(e) => Err(e),
                            Ok(g) => match with_metadata_refs(g, dex, parts.metadata_refs) {
                                Err(e) => Err(e),
                                Ok(h) => with_types(h, dex, caught_types(parts.codes.values), false),
                            },
                        },
                    },
                },
            },
        },
    }
}

// ---------------------------------------------------------------------------
// Every addition keeps what always holds
// ---------------------------------------------------------------------------

proof fn lemma_strings_ok(m: Tables, dex: DexTables, list: Seq<u32>, i: int)
    requires
        m.ok(),
        run(string_adder(dex, list), m, i, list.len() as int) is Ok,
    ensures
        run(string_adder(dex, list), m, i, list.len() as int)->Ok_0.ok(),
    decreases list.len() - i,
{
    if i < list.len() {
        lemma_add_string(m, dex.strings[list[i] as int]);
        lemma_strings_ok(string_adder(dex, list)(m, i)->Ok_0, dex, list, i + 1);
    }
}

proof fn lemma_types_ok(m: Tables, dex: DexTables, list: Seq<u32>, ordered: bool, i: int)
    requires
        m.ok(),
        run(type_adder(dex, list, ordered), m, i, list.len() as int) is Ok,
    ensures
        run(type_adder(dex, list, ordered), m, i, list.len() as int)->Ok_0.ok(),
    decreases list.len() - i,
{
    if i < list.len() {
        lemma_add_origin_type(m, dex, list[i]);
        lemma_types_ok(type_adder(dex, list, ordered)(m, i)->Ok_0, dex, list, ordered, i + 1);
    }
}

proof fn lemma_protos_ok(m: Tables, dex: DexTables, list: Seq<u32>, ordered: bool, i: int)
    requires
        m.ok(),
        run(proto_adder(dex, list, ordered), m, i, list.len() as int) is Ok,
    ensures
        run(proto_adder(dex, list, ordered), m, i, list.len() as int)->Ok_0.ok(),
    decreases list.len() - i,
{
    if i < list.len() {
        lemma_add_proto(m, dex, list[i]);
        lemma_protos_ok(proto_adder(dex, list, ordered)(m, i)->Ok_0, dex, list, ordered, i + 1);
    }
}

proof fn lemma_fields_ok(m: Tables, dex: DexTables, list: Seq<u32>, ordered: bool, i: int)
    requires
        m.ok(),
        run(field_adder(dex, list, ordered), m, i, list.len() as int) is Ok,
    ensures
        run(field_adder(dex, list, ordered), m, i, list.len() as int)->Ok_0.ok(),
    decreases list.len() - i,
{
    if i < list.len() {
        lemma_add_field(m, dex, list[i]);
        lemma_fields_ok(field_adder(dex, list, ordered)(m, i)->Ok_0, dex, list, ordered, i + 1);
    }
}

proof fn lemma_methods_ok(m: Tables, dex: DexTables, list: Seq<u32>, ordered: bool, i: int)
    requires
        m.ok(),
        run(method_adder(dex, list, ordered), m, i, list.len() as int) is Ok,
    ensures
        run(method_adder(dex, list, ordered), m, i, list.len() as int)->Ok_0.ok(),
    decreases list.len() - i,
{
    if i < list.len() {
        lemma_add_method(m, dex, list[i]);
        lemma_methods_ok(method_adder(dex, list, ordered)(m, i)->Ok_0, dex, list, ordered, i + 1);
    }
}

/// The gathered tables hold together.
pub proof fn lemma_gathered_ok(
    dex: DexTables,
    class: ClassDef,
    members: Members,
    parts: Parts,
    refs: CodeRefs,
)
    requires
        gathered(dex, class, members, parts, refs) is Ok,
    ensures
        gathered(dex, class, members, parts, refs)->Ok_0.ok(),
{
    let e = Tables::empty();
    lemma_strings_ok(e, dex, refs.strings, 0);
    let a = with_strings(e, dex, refs.strings)->Ok_0;
    lemma_types_ok(a, dex, refs.types, true, 0);
    let b = with_types(a, dex, refs.types, true)->Ok_0;
    lemma_fill_primitives(b);
    let c = b.fill_primitives()->Ok_0;
    lemma_protos_ok(c, dex, refs.protos, true, 0);
    let d = with_protos(c, dex, refs.protos, true)->Ok_0;
    lemma_fields_ok(d, dex, refs.fields, true, 0);
    let f = with_fields(d, dex, refs.fields, true)->Ok_0;
    lemma_methods_ok(f, dex, refs.methods, true, 0);
    let g = with_code_refs(e, dex, refs)->Ok_0;
    lemma_fields_ok(g, dex, field_ids(members.fields()), false, 0);
    let h = with_fields(g, dex, field_ids(members.fields()), false)->Ok_0;
    lemma_methods_ok(h, dex, method_ids(members.methods()), false, 0);
    let i = with_methods(h, dex, method_ids(members.methods()), false)->Ok_0;
    lemma_strings_ok(i, dex, class_strings(class), 0);
    let j = with_strings(i, dex, class_strings(class))->Ok_0;
    lemma_types_ok(j, dex, class_types(class), false, 0);
    let k = with_types(j, dex, class_types(class), false)->Ok_0;
    lemma_types_ok(k, dex, widened_ids(parts.interfaces), false, 0);
    let l = with_types(k, dex, widened_ids(parts.interfaces), false)->Ok_0;
    lemma_metadata_ok(l, dex, parts.metadata_refs);
    let n = with_metadata_refs(l, dex, parts.metadata_refs)->Ok_0;
    lemma_types_ok(n, dex, caught_types(parts.codes.values), false, 0);
}

proof fn lemma_metadata_ok(m: Tables, dex: DexTables, refs: RefSets)
    requires
        m.ok(),
        with_metadata_refs(m, dex, refs) is Ok,
    ensures
        with_metadata_refs(m, dex, refs)->Ok_0.ok(),
{
    lemma_strings_ok(m, dex, refs.strings, 0);
    let a = with_strings(m, dex, refs.strings)->Ok_0;
    lemma_types_ok(a, dex, refs.types, false, 0);
    let b = with_types(a, dex, refs.types, false)->Ok_0;
    lemma_protos_ok(b, dex, refs.protos, false, 0);
    let c = with_protos(b, dex, refs.protos, false)->Ok_0;
    lemma_fields_ok(c, dex, refs.fields, false, 0);
    let d = with_fields(c, dex, refs.fields, false)->Ok_0;
    lemma_methods_ok(d, dex, refs.methods, false, 0);
}

// ---------------------------------------------------------------------------
// Gathering
// ---------------------------------------------------------------------------

/// What an addition of a list says about its outcome.
pub open spec fn extends<'a>(
    outcome: Result<(), Error>,
    before: IndexMapper<'a>,
    after: IndexMapper<'a>,
    tables: Result<Tables, Error>,
) -> bool {
    match outcome {
        Ok(_) => after.wf() && after.dex == before.dex && tables == Ok::<Tables, Error>(after@),
        Err(e) => tables == Err::<Tables, Error>(e),
    }
}

impl<'a> IndexMapper<'a> {
    fn add_strings(&mut self, list: &Vec<u32>) -> (r: Result<(), Error>)
        requires
            old(self).wf(),
        ensures
            extends(r, *old(self), *final(self), with_strings(old(self)@, old(self).dex@, list@)),
    {
        let ghost step = string_adder(self.dex@, list@);
        let mut i: usize = 0;
        while i < list.len()
            invariant
                i <= list.len(),
                self.wf(),
                self.dex == old(self).dex,
                step == string_adder(self.dex@, list@),
                with_strings(old(self)@, self.dex@, list@) == run(
                    step,
                    self@,
                    i as int,
                    list@.len() as int,
                ),
            decreases list.len() - i,
        {
            let ghost outcome = step(self@, i as int);
            let _index: u32 = self.add_origin_string(list[i])?;
            assert(outcome == Ok::<Tables, Error>(self@));
            i += 1;
        }
        Ok(())
    }

    fn add_types(&mut self, list: &Vec<u32>, ordered: bool) -> (r: Result<(), Error>)
        requires
            old(self).wf(),
        ensures
            extends(
                r,
                *old(self),
                *final(self),
                with_types(old(self)@, old(self).dex@, list@, ordered),
            ),
    {
        let ghost step = type_adder(self.dex@, list@, ordered);
        let mut i: usize = 0;
        while i < list.len()
            invariant
                i <= list.len(),
                self.wf(),
                self.dex == old(self).dex,
                step == type_adder(self.dex@, list@, ordered),
                with_types(old(self)@, self.dex@, list@, ordered) == run(
                    step,
                    self@,
                    i as int,
                    list@.len() as int,
                ),
            decreases list.len() - i,
        {
            let ghost outcome = step(self@, i as int);
            let index: u16 = self.add_origin_type(list[i])?;
            if ordered && index as usize != i {
                return Err(Error::TypeOrder);
            }
            assert(outcome == Ok::<Tables, Error>(self@));
            i += 1;
        }
        Ok(())
    }

    fn add_protos(&mut self, list: &Vec<u32>, ordered: bool) -> (r: Result<(), Error>)
        requires
            old(self).wf(),
        ensures
            extends(
                r,
                *old(self),
                *final(self),
                with_protos(old(self)@, old(self).dex@, list@, ordered),
            ),
    {
        let ghost step = proto_adder(self.dex@, list@, ordered);
        let mut i: usize = 0;
        while i < list.len()
            invariant
                i <= list.len(),
                self.wf(),
                self.dex == old(self).dex,
                step == proto_adder(self.dex@, list@, ordered),
                with_protos(old(self)@, self.dex@, list@, ordered) == run(
                    step,
                    self@,
                    i as int,
                    list@.len() as int,
                ),
            decreases list.len() - i,
        {
            let ghost outcome = step(self@, i as int);
            let index: u16 = self.add_proto(list[i])?;
            if ordered && index as usize != i {
                return Err(Error::ProtoOrder);
            }
            assert(outcome == Ok::<Tables, Error>(self@));
            i += 1;
        }
        Ok(())
    }

    fn add_fields(&mut self, list: &Vec<u32>, ordered: bool) -> (r: Result<(), Error>)
        requires
            old(self).wf(),
        ensures
            extends(
                r,
                *old(self),
                *final(self),
                with_fields(old(self)@, old(self).dex@, list@, ordered),
            ),
    {
        let ghost step = field_adder(self.dex@, list@, ordered);
        let mut i: usize = 0;
        while i < list.len()
            invariant
                i <= list.len(),
                self.wf(),
                self.dex == old(self).dex,
                step == field_adder(self.dex@, list@, ordered),
                with_fields(old(self)@, self.dex@, list@, ordered) == run(
                    step,
                    self@,
                    i as int,
                    list@.len() as int,
                ),
            decreases list.len() - i,
        {
            let ghost outcome = step(self@, i as int);
            let index: u16 = self.add_field(list[i])?;
            if ordered && index as usize != i {
                return Err(Error::FieldOrder);
            }
            assert(outcome == Ok::<Tables, Error>(self@));
            i += 1;
        }
        Ok(())
    }

    fn add_methods(&mut self, list: &Vec<u32>, ordered: bool) -> (r: Result<(), Error>)
        requires
            old(self).wf(),
        ensures
            extends(
                r,
                *old(self),
                *final(self),
                with_methods(old(self)@, old(self).dex@, list@, ordered),
            ),
    {
        let ghost step = method_adder(self.dex@, list@, ordered);
        let mut i: usize = 0;
        while i < list.len()
            invariant
                i <= list.len(),
                self.wf(),
                self.dex == old(self).dex,
                step == method_adder(self.dex@, list@, ordered),
                with_methods(old(self)@, self.dex@, list@, ordered) == run(
                    step,
                    self@,
                    i as int,
                    list@.len() as int,
                ),
            decreases list.len() - i,
        {
            let ghost outcome = step(self@, i as int);
            let index: u16 = self.add_method(list[i])?;
            if ordered && index as usize != i {
                return Err(Error::MethodOrder);
            }
            assert(outcome == Ok::<Tables, Error>(self@));
            i += 1;
        }
        Ok(())
    }

    /// Adds what the code refers to, in the order of the numbers that its
    /// operands hold.
    pub fn include_bytecode_refs(&mut self, refs: &BytecodeRefs) -> (r: Result<(), Error>)
        requires
            old(self).wf(),
        ensures
            extends(r, *old(self), *final(self), with_code_refs(old(self)@, old(self).dex@, refs@)),
    {
        self.add_strings(&refs.strings.values)?;
        self.add_types(&refs.types.values, true)?;
        self.fill_primitives()?;
        self.add_protos(&refs.protos.values, true)?;
        self.add_fields(&refs.fields.values, true)?;
        self.add_methods(&refs.methods.values, true)
    }
}

/// Adds what the metadata refers to.
pub fn include_metadata_refs(mapper: &mut IndexMapper<'_>, refs: &MetadataRefs) -> (r: Result<
    (),
    Error,
>)
    requires
        old(mapper).wf(),
    ensures
        extends(
            r,
            *old(mapper),
            *final(mapper),
            with_metadata_refs(old(mapper)@, old(mapper).dex@, refs@),
        ),
{
    mapper.add_strings(&refs.strings.members)?;
    mapper.add_types(&refs.types.members, false)?;
    mapper.add_protos(&refs.protos.members, false)?;
    mapper.add_fields(&refs.fields.members, false)?;
    mapper.add_methods(&refs.methods.members, false)
}

fn list_field_ids(class_data: &ClassData) -> (r: Vec<u32>)
    ensures
        r@ == field_ids(class_data@.fields()),
{
    let fields = class_data.fields();
    let mut out: Vec<u32> = Vec::new();
    let mut i: usize = 0;
    while i < fields.len()
        invariant
            i <= fields.len(),
            out.len() == i,
            forall|j: int| 0 <= j < i ==> #[trigger] out@[j] == fields@[j].field_idx,
        decreases fields.len() - i,
    {
        out.push(fields[i].field_idx);
        i += 1;
    }
    assert(out@ =~= field_ids(class_data@.fields()));
    out
}

fn list_method_ids(class_data: &ClassData) -> (r: Vec<u32>)
    ensures
        r@ == method_ids(class_data@.methods()),
{
    let methods = class_data.methods();
    let mut out: Vec<u32> = Vec::new();
    let mut i: usize = 0;
    while i < methods.len()
        invariant
            i <= methods.len(),
            out.len() == i,
            forall|j: int| 0 <= j < i ==> #[trigger] out@[j] == methods@[j].method_idx,
        decreases methods.len() - i,
    {
        out.push(methods[i].method_idx);
        i += 1;
    }
    assert(out@ =~= method_ids(class_data@.methods()));
    out
}

fn widen_ids(list: &Vec<u16>) -> (r: Vec<u32>)
    ensures
        r@ == widened_ids(list@),
{
    let mut out: Vec<u32> = Vec::new();
    let mut i: usize = 0;
    while i < list.len()
        invariant
            i <= list.len(),
            out.len() == i,
            forall|j: int| 0 <= j < i ==> #[trigger] out@[j] == list@[j] as u32,
        decreases list.len() - i,
    {
        out.push(list[i] as u32);
        i += 1;
    }
    assert(out@ =~= widened_ids(list@));
    out
}

fn push_caught(code: &CodeItem, out: &mut Vec<u32>)
    ensures
        final(out)@ == old(out)@ + caught_in(code@.handlers),
{
    let ghost before = out@;
    let ghost handlers = code@.handlers;
    let mut h: usize = 0;
    assert(handlers.take(0) =~= Seq::<Handler>::empty());
    assert(out@ =~= before + caught_in(handlers.take(0)));
    while h < code.handlers.len()
        invariant
            h <= code.handlers.len(),
            handlers == code@.handlers,
            out@ == before + caught_in(handlers.take(h as int)),
        decreases code.handlers.len() - h,
    {
        let ghost now = out@;
        let ghost pairs = handlers[h as int].pairs;
        assert(handlers[h as int] == code.handlers@[h as int]@);
        let mut p: usize = 0;
        assert(out@ =~= now + caught_by(pairs).take(0));
        while p < code.handlers[h].pairs.len()
            invariant
                h < code.handlers.len(),
                p <= pairs.len(),
                pairs == code.handlers@[h as int].pairs@,
                out@ == now + caught_by(pairs).take(p as int),
            decreases pairs.len() - p,
        {
            out.push(code.handlers[h].pairs[p].0);
            p += 1;
            assert(caught_by(pairs).take(p as int) =~= caught_by(pairs).take(p - 1).push(
                pairs[p - 1].0,
            ));
            assert(out@ =~= now + caught_by(pairs).take(p as int));
        }
        assert(caught_by(pairs).take(p as int) =~= caught_by(pairs));
        h += 1;
        assert(handlers.take(h as int).drop_last() =~= handlers.take(h - 1));
        assert(out@ =~= before + caught_in(handlers.take(h as int)));
    }
    assert(handlers.take(h as int) =~= handlers);
}

fn list_caught(codes: &SortedMap<CodeItem>) -> (r: Vec<u32>)
    ensures
        r@ == caught_types(codes@.values),
{
    let ghost all = codes@.values;
    let mut out: Vec<u32> = Vec::new();
    let mut i: usize = 0;
    assert(all.take(0) =~= Seq::<Code>::empty());
    while i < codes.values.len()
        invariant
            i <= codes.values.len(),
            all == codes@.values,
            out@ == caught_types(all.take(i as int)),
        decreases codes.values.len() - i,
    {
        assert(all[i as int] == codes.values@[i as int]@);
        push_caught(&codes.values[i], &mut out);
        i += 1;
        assert(all.take(i as int).drop_last() =~= all.take(i - 1));
    }
    assert(all.take(i as int) =~= all);
    out
}

/// Gathers everything that a class refers to.
#[verifier::rlimit(40)]
#[verifier::spinoff_prover]
pub fn gather(
    mapper: &mut IndexMapper<'_>,
    class: ClassDef,
    class_data: &ClassData,
    hollowed: &Hollowed,
    refs: &BytecodeRefs,
) -> (r: Result<(), Error>)
    requires
        old(mapper).wf(),
        old(mapper)@ == Tables::empty(),
    ensures
        extends(
            r,
            *old(mapper),
            *final(mapper),
            gathered(old(mapper).dex@, class, class_data@, hollowed@, refs@),
        ),
{
    mapper.include_bytecode_refs(refs)?;
    let fields = list_field_ids(class_data);
    mapper.add_fields(&fields, false)?;
    let methods = list_method_ids(class_data);
    mapper.add_methods(&methods, false)?;
    let mut strings: Vec<u32> = Vec::new();
    if class.source_file_idx != NO_INDEX {
        strings.push(class.source_file_idx);
    }
    assert(strings@ =~= class_strings(class));
    mapper.add_strings(&strings)?;
    let mut types: Vec<u32> = Vec::new();
    types.push(class.class_idx);
    if class.superclass_idx != NO_INDEX {
        types.push(class.superclass_idx);
    }
    assert(types@ =~= class_types(class));
    mapper.add_types(&types, false)?;
    let interfaces = widen_ids(&hollowed.interfaces);
    mapper.add_types(&interfaces, false)?;
    include_metadata_refs(mapper, &hollowed.metadata_refs)?;
    let caught = list_caught(&hollowed.codes);
    mapper.add_types(&caught, false)
}

// ---------------------------------------------------------------------------
// Pointing the code at the new tables
// ---------------------------------------------------------------------------

/// A caught type with its new index.
pub open spec fn pair_mapper(pairs: Seq<(u32, u32)>, m: Tables) -> spec_fn(int) -> Result<
    (u32, u32),
    Error,
> {
    |i: int|
        match m.mapped_type(pairs[i].0) {
            Err(e) => Err(e),
            Ok(index) => Ok((index as u32, pairs[i].1)),
        }
}

/// A handler list with new type indices.
pub open spec fn handler_mapper(handlers: Seq<Handler>, m: Tables) -> spec_fn(int) -> Result<
    Handler,
    Error,
> {
    |i: int|
        match collect(pair_mapper(handlers[i].pairs, m), handlers[i].pairs.len()) {
            Err(e) => Err(e),
            Ok(pairs) => Ok(Handler { pairs, ..handlers[i] }),
        }
}

/// A piece of code with new indices in its handlers and instructions.
pub open spec fn relinked(code: Code, refs: CodeRefs, m: Tables, dex: DexTables) -> Result<
    Code,
    Error,
> {
    match collect(handler_mapper(code.handlers, m), code.handlers.len()) {
        Err(e) => Err(e),
        Ok(handlers) => match rewritten(code.insns, refs, m, dex) {
            Err(e) => Err(e),
            Ok(insns) => Ok(Code { handlers, insns, ..code }),
        },
    }
}

pub open spec fn relinker(codes: Seq<Code>, refs: CodeRefs, m: Tables, dex: DexTables) -> spec_fn(
    int,
) -> Result<Code, Error> {
    |i: int| relinked(codes[i], refs, m, dex)
}

/// All code with new indices.
pub open spec fn relinked_codes(codes: Entries<Code>, refs: CodeRefs, m: Tables, dex: DexTables) -> Result<
    Entries<Code>,
    Error,
> {
    match collect(relinker(codes.values, refs, m, dex), codes.values.len()) {
        Err(e) => Err(e),
        Ok(values) => Ok(Entries { keys: codes.keys, values }),
    }
}

fn map_pairs(pairs: &Vec<(u32, u32)>, mapper: &IndexMapper<'_>) -> (r: Result<
    Vec<(u32, u32)>,
    Error,
>)
    ensures
        match r {
            Ok(v) => collect(pair_mapper(pairs@, mapper@), pairs@.len()) == Ok::<
                Seq<(u32, u32)>,
                Error,
            >(v@),
            Err(e) => collect(pair_mapper(pairs@, mapper@), pairs@.len()) == Err::<
                Seq<(u32, u32)>,
                Error,
            >(e),
        },
{
    let ghost f = pair_mapper(pairs@, mapper@);
    let mut out: Vec<(u32, u32)> = Vec::new();
    let mut i: usize = 0;
    while i < pairs.len()
        invariant
            i <= pairs.len(),
            f == pair_mapper(pairs@, mapper@),
            collect(f, i as nat) == Ok::<Seq<(u32, u32)>, Error>(out@),
        decreases pairs.len() - i,
    {
        match mapper.mapped_type(pairs[i].0) {
            Ok(index) => out.push((index as u32, pairs[i].1)),
            Err(e) => {
                proof {
                    lemma_collect_error(f, i as nat, pairs@.len());
                }
                return Err(e);
            },
        }
        i += 1;
    }
    Ok(out)
}

fn map_handlers(handlers: &Vec<CatchHandler>, mapper: &IndexMapper<'_>) -> (r: Result<
    Vec<CatchHandler>,
    Error,
>)
    ensures
        match r {
            Ok(v) => collect(handler_mapper(views(handlers@), mapper@), handlers@.len()) == Ok::<
                Seq<Handler>,
                Error,
            >(views(v@)),
            Err(e) => collect(handler_mapper(views(handlers@), mapper@), handlers@.len()) == Err::<
                Seq<Handler>,
                Error,
            >(e),
        },
{
    let ghost all = views(handlers@);
    let ghost f = handler_mapper(all, mapper@);
    let mut out: Vec<CatchHandler> = Vec::new();
    let mut i: usize = 0;
    proof {
        lemma_views_empty::<CatchHandler>();
    }
    while i < handlers.len()
        invariant
            i <= handlers.len(),
            all == views(handlers@),
            f == handler_mapper(all, mapper@),
            collect(f, i as nat) == Ok::<Seq<Handler>, Error>(views(out@)),
        decreases handlers.len() - i,
    {
        assert(all[i as int] == handlers@[i as int]@);
        let ghost outcome = f(i as int);
        match map_pairs(&handlers[i].pairs, mapper) {
            Ok(pairs) => {
                let handler = CatchHandler {
                    old_offset: handlers[i].old_offset,
                    size: handlers[i].size,
                    pairs,
                    catch_all_addr: handlers[i].catch_all_addr,
                };
                assert(outcome == Ok::<Handler, Error>(handler@));
                proof {
                    lemma_views_push(out@, handler);
                }
                out.push(handler);
            },
            Err(e) => {
                proof {
                    lemma_collect_error(f, i as nat, handlers@.len());
                }
                return Err(e);
            },
        }
        i += 1;
    }
    Ok(out)
}

fn relink_code(code: &CodeItem, refs: &BytecodeRefs, mapper: &IndexMapper<'_>) -> (r: Result<
    CodeItem,
    Error,
>)
    ensures
        match r {
            Ok(v) => relinked(code@, refs@, mapper@, mapper.dex@) == Ok::<Code, Error>(v@),
            Err(e) => relinked(code@, refs@, mapper@, mapper.dex@) == Err::<Code, Error>(e),
        },
{
    let handlers = map_handlers(&code.handlers, mapper)?;
    let mut insns: Vec<u8> = Vec::new();
    insns.extend_from_slice(code.insns.as_slice());
    let mut tries: Vec<TryItem> = Vec::new();
    tries.extend_from_slice(code.tries.as_slice());
    let mut next = CodeItem {
        registers_size: code.registers_size,
        ins_size: code.ins_size,
        outs_size: code.outs_size,
        tries_size: code.tries_size,
        debug_info_off: code.debug_info_off,
        insns,
        tries,
        handlers,
    };
    assert(next.insns@ =~= code.insns@);
    assert(next.tries@ =~= code.tries@);
    normalize_code_indices(&mut next, refs, mapper)?;
    Ok(next)
}

/// Points all code at the new tables.
pub fn relink_codes(codes: &SortedMap<CodeItem>, refs: &BytecodeRefs, mapper: &IndexMapper<'_>) -> (r:
    Result<SortedMap<CodeItem>, Error>)
    requires
        codes.wf(),
    ensures
        match r {
            Ok(v) => v.wf() && relinked_codes(codes@, refs@, mapper@, mapper.dex@) == Ok::<
                Entries<Code>,
                Error,
            >(v@),
            Err(e) => relinked_codes(codes@, refs@, mapper@, mapper.dex@) == Err::<
                Entries<Code>,
                Error,
            >(e),
        },
{
    let ghost all = codes@.values;
    let ghost f = relinker(all, refs@, mapper@, mapper.dex@);
    let mut values: Vec<CodeItem> = Vec::new();
    let mut i: usize = 0;
    proof {
        lemma_views_empty::<CodeItem>();
    }
    while i < codes.values.len()
        invariant
            i <= codes.values.len(),
            values.len() == i,
            all == codes@.values,
            f == relinker(all, refs@, mapper@, mapper.dex@),
            collect(f, i as nat) == Ok::<Seq<Code>, Error>(views(values@)),
        decreases codes.values.len() - i,
    {
        assert(all[i as int] == codes.values@[i as int]@);
        match relink_code(&codes.values[i], refs, mapper) {
            Ok(code) => {
                proof {
                    lemma_views_push(values@, code);
                }
                values.push(code);
            },
            Err(e) => {
                proof {
                    lemma_collect_error(f, i as nat, all.len());
                }
                return Err(e);
            },
        }
        i += 1;
    }
    let mut keys: Vec<u32> = Vec::new();
    keys.extend_from_slice(codes.keys.as_slice());
    assert(keys@ =~= codes.keys@);
    Ok(SortedMap { keys, values })
}

} // verus!
