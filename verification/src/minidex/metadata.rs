//! Debug information and annotation directories.
use vstd::prelude::*;

use crate::collections::{Entries, SortedMap};
use crate::dex_format::{lemma_uleb_end, read_uleb, u32_at, u32_in, uleb_in};
use crate::error::Error;
use crate::minidex::leb::{lemma_sleb_end, read_sleb, sleb_in};
use crate::minidex::values::{
    annotation_in, parse_encoded_annotation, AnnotationItem, DebugInfo, DebugOp, Debugging, Item,
    MetadataRefs, RefSets,
};
use crate::results::{repeat, run};

verus! {

// ---------------------------------------------------------------------------
// Debug information
// ---------------------------------------------------------------------------

/// Reads one parameter name: a string index plus one, or zero.
pub open spec fn name_step(data: Seq<u8>) -> spec_fn((int, RefSets)) -> Result<
    (u32, (int, RefSets)),
    Error,
> {
    |s: (int, RefSets)|
        match uleb_in(data, s.0) {
            Err(e) => Err(e),
            Ok((value, end)) => Ok((value, (end, s.1.with_string_p1(value)))),
        }
}

/// The debug instruction at `at`, where it ends, and the references with those
/// that it makes.
pub open spec fn debug_op_in(data: Seq<u8>, at: int, refs: RefSets) -> Result<
    (DebugOp, int, RefSets),
    Error,
> {
    if at >= data.len() {
        Err(Error::TruncatedDebugInfo)
    } else if data[at] == 0 {
        Ok((DebugOp::End, at + 1, refs))
    } else if data[at] == 1 {
        match uleb_in(data, at + 1) {
            Err(e) => Err(e),
            Ok((v, end)) => Ok((DebugOp::AdvancePc(v), end, refs)),
        }
    } else if data[at] == 2 {
        match sleb_in(data, at + 1) {
            Err(e) => Err(e),
            Ok((v, end)) => Ok((DebugOp::AdvanceLine(v), end, refs)),
        }
    } else if data[at] == 3 || data[at] == 4 {
        match uleb_in(data, at + 1) {
            Err(e) => Err(e),
            Ok((register, a)) => match uleb_in(data, a) {
                Err(e) => Err(e),
                Ok((name, b)) => match uleb_in(data, b) {
                    Err(e) => Err(e),
                    Ok((typ, c)) => {
                        let r = refs.with_string_p1(name).with_type_p1(typ);
                        if data[at] == 3 {
                            Ok((DebugOp::StartLocal(register, name, typ), c, r))
                        } else {
                            match uleb_in(data, c) {
                                Err(e) => Err(e),
                                Ok((sig, d)) => Ok(
                                    (
                                        DebugOp::StartLocalExtended(register, name, typ, sig),
                                        d,
                                        r.with_string_p1(sig),
                                    ),
                                ),
                            }
                        }
                    },
                },
            },
        }
    } else if data[at] == 5 || data[at] == 6 {
        match uleb_in(data, at + 1) {
            Err(e) => Err(e),
            Ok((register, end)) => Ok((DebugOp::EndOrRestartLocal(data[at], register), end, refs)),
        }
    } else if data[at] == 9 {
        match uleb_in(data, at + 1) {
            Err(e) => Err(e),
            Ok((name, end)) => Ok((DebugOp::SetFile(name), end, refs.with_string_p1(name))),
        }
    } else {
        Ok((DebugOp::Plain(data[at]), at + 1, refs))
    }
}

pub proof fn lemma_debug_op_end(data: Seq<u8>, at: int, refs: RefSets)
    requires
        debug_op_in(data, at, refs) is Ok,
    ensures
        at < debug_op_in(data, at, refs)->Ok_0.1 <= data.len(),
{
    if data[at] == 2 {
        lemma_sleb_end(data, at + 1);
    } else if data[at] == 1 || data[at] == 5 || data[at] == 6 || data[at] == 9 {
        lemma_uleb_end(data, at + 1);
    } else if data[at] == 3 || data[at] == 4 {
        lemma_uleb_end(data, at + 1);
        let a = uleb_in(data, at + 1)->Ok_0.1;
        lemma_uleb_end(data, a);
        let b = uleb_in(data, a)->Ok_0.1;
        lemma_uleb_end(data, b);
        let c = uleb_in(data, b)->Ok_0.1;
        if data[at] == 4 {
            lemma_uleb_end(data, c);
        }
    }
}

/// The debug instructions from `at` on, behind `ops`, up to the first end.
pub open spec fn debug_ops_in(data: Seq<u8>, at: int, refs: RefSets, ops: Seq<DebugOp>) -> Result<
    (Seq<DebugOp>, RefSets),
    Error,
>
    decreases data.len() - at,
{
    match debug_op_in(data, at, refs) {
        Err(e) => Err(e),
        Ok((op, end, r)) => if op == DebugOp::End {
            Ok((ops.push(op), r))
        } else {
            proof {
                lemma_debug_op_end(data, at, refs);
            }
            debug_ops_in(data, end, r, ops.push(op))
        },
    }
}

/// The debug item at `offset`, and the references with those that it makes.
pub open spec fn debug_in(data: Seq<u8>, offset: int, refs: RefSets) -> Result<
    (Debugging, RefSets),
    Error,
> {
    match uleb_in(data, offset) {
        Err(e) => Err(e),
        Ok((line_start, a)) => match uleb_in(data, a) {
            Err(e) => Err(e),
            Ok((count, b)) => match repeat(
                name_step(data),
                (b, refs),
                count as nat,
                Seq::<u32>::empty(),
            ) {
                Err(e) => Err(e),
                Ok((parameter_names, (c, r))) => match debug_ops_in(data, c, r, Seq::empty()) {
                    Err(e) => Err(e),
                    Ok((ops, s)) => Ok((Debugging { line_start, parameter_names, ops }, s)),
                },
            },
        },
    }
}

fn read_parameter_names(data: &[u8], cursor: &mut u64, count: u32, refs: &mut MetadataRefs) -> (r:
    Result<Vec<u32>, Error>)
    ensures
        match r {
            Ok(v) => repeat(
                name_step(data@),
                (*old(cursor) as int, old(refs)@),
                count as nat,
                Seq::<u32>::empty(),
            ) == Ok::<(Seq<u32>, (int, RefSets)), Error>(
                (v@, (*final(cursor) as int, final(refs)@)),
            ),
            Err(e) => repeat(
                name_step(data@),
                (*old(cursor) as int, old(refs)@),
                count as nat,
                Seq::<u32>::empty(),
            ) == Err::<(Seq<u32>, (int, RefSets)), Error>(e),
        },
{
    let mut out: Vec<u32> = Vec::new();
    let mut done: u32 = 0;
    let ghost start = *cursor as int;
    let ghost before = refs@;
    while done < count
        invariant
            done <= count,
            start == *old(cursor),
            before == old(refs)@,
            repeat(name_step(data@), (start, before), count as nat, Seq::<u32>::empty()) == repeat(
                name_step(data@),
                (*cursor as int, refs@),
                (count - done) as nat,
                out@,
            ),
        decreases count - done,
    {
        let value: u32 = read_uleb(data, cursor)?;
        refs.insert_string_p1(value);
        out.push(value);
        done += 1;
    }
    Ok(out)
}

fn read_debug_op(data: &[u8], cursor: &mut u64, refs: &mut MetadataRefs) -> (r: Result<
    DebugOp,
    Error,
>)
    ensures
        match r {
            Ok(v) => debug_op_in(data@, *old(cursor) as int, old(refs)@) == Ok::<
                (DebugOp, int, RefSets),
                Error,
            >((v, *final(cursor) as int, final(refs)@)),
            Err(e) => debug_op_in(data@, *old(cursor) as int, old(refs)@) == Err::<
                (DebugOp, int, RefSets),
                Error,
            >(e),
        },
{
    let at: u64 = *cursor;
    if at >= data.len() as u64 {
        return Err(Error::TruncatedDebugInfo);
    }
    let opcode: u8 = data[at as usize];
    *cursor = at + 1;
    match opcode {
        0x00 => Ok(DebugOp::End),
        0x01 => Ok(DebugOp::AdvancePc(read_uleb(data, cursor)?)),
        0x02 => Ok(DebugOp::AdvanceLine(read_sleb(data, cursor)?)),
        0x03 => {
            let register: u32 = read_uleb(data, cursor)?;
            let name: u32 = read_uleb(data, cursor)?;
            let typ: u32 = read_uleb(data, cursor)?;
            refs.insert_string_p1(name);
            refs.insert_type_p1(typ);
            Ok(DebugOp::StartLocal(register, name, typ))
        },
        0x04 => {
            let register: u32 = read_uleb(data, cursor)?;
            let name: u32 = read_uleb(data, cursor)?;
            let typ: u32 = read_uleb(data, cursor)?;
            let signature: u32 = read_uleb(data, cursor)?;
            refs.insert_string_p1(name);
            refs.insert_type_p1(typ);
            refs.insert_string_p1(signature);
            Ok(DebugOp::StartLocalExtended(register, name, typ, signature))
        },
        0x05 | 0x06 => Ok(DebugOp::EndOrRestartLocal(opcode, read_uleb(data, cursor)?)),
        0x09 => {
            let name: u32 = read_uleb(data, cursor)?;
            refs.insert_string_p1(name);
            Ok(DebugOp::SetFile(name))
        },
        _ => Ok(DebugOp::Plain(opcode)),
    }
}

/// Reads a debug item and notes what it refers to. An error leaves the
/// references where the reading stopped.
pub fn parse_debug_info(data: &[u8], offset: u32, refs: &mut MetadataRefs) -> (r: Result<
    DebugInfo,
    Error,
>)
    ensures
        match r {
            Ok(v) => debug_in(data@, offset as int, old(refs)@) == Ok::<
                (Debugging, RefSets),
                Error,
            >((v@, final(refs)@)),
            Err(e) => debug_in(data@, offset as int, old(refs)@) == Err::<
                (Debugging, RefSets),
                Error,
            >(e),
        },
{
    let mut cursor: u64 = offset as u64;
    let line_start: u32 = read_uleb(data, &mut cursor)?;
    let count: u32 = read_uleb(data, &mut cursor)?;
    let ghost names_at = cursor as int;
    let parameter_names = read_parameter_names(data, &mut cursor, count, refs)?;
    let mut ops: Vec<DebugOp> = Vec::new();
    let ghost ops_at = cursor as int;
    let ghost named = refs@;
    let len: u64 = data.len() as u64;
    loop
        invariant
            len == data@.len(),
            debug_in(data@, offset as int, old(refs)@) == match debug_ops_in(
                data@,
                cursor as int,
                refs@,
                ops@,
            ) {
                Err(e) => Err::<(Debugging, RefSets), Error>(e),
                Ok((o, s)) => Ok(
                    (
                        Debugging { line_start, parameter_names: parameter_names@, ops: o },
                        s,
                    ),
                ),
            },
        decreases len - cursor,
    {
        let ghost at = cursor as int;
        let ghost seen = refs@;
        let op = read_debug_op(data, &mut cursor, refs)?;
        proof {
            lemma_debug_op_end(data@, at, seen);
        }
        ops.push(op);
        if op == DebugOp::End {
            return Ok(DebugInfo { line_start, parameter_names, ops });
        }
    }
}

// ---------------------------------------------------------------------------
// Annotation directories
// ---------------------------------------------------------------------------

#[derive(Debug)]
pub struct AnnotationDirectory {
    pub class_annotations_off: u32,
    pub field_annotations: Vec<(u32, u32)>,
    pub method_annotations: Vec<(u32, u32)>,
    pub parameter_annotations: Vec<(u32, u32)>,
}

/// The meaning of an annotation directory: which annotation sets belong to the
/// class and to its members.
#[verifier::ext_equal]
pub struct Directory {
    pub class_annotations_off: u32,
    pub field_annotations: Seq<(u32, u32)>,
    pub method_annotations: Seq<(u32, u32)>,
    pub parameter_annotations: Seq<(u32, u32)>,
}

impl View for AnnotationDirectory {
    type V = Directory;

    open spec fn view(&self) -> Directory {
        Directory {
            class_annotations_off: self.class_annotations_off,
            field_annotations: self.field_annotations@,
            method_annotations: self.method_annotations@,
            parameter_annotations: self.parameter_annotations@,
        }
    }
}

/// The annotations of a class and its members, by where they stood.
#[derive(Debug)]
pub struct Annotations {
    pub directory: Option<AnnotationDirectory>,
    pub sets: SortedMap<Vec<u32>>,
    pub set_refs: SortedMap<Vec<u32>>,
    pub items: SortedMap<AnnotationItem>,
}

/// The sets, lists of sets and items that have been read so far, and what they
/// refer to.
#[verifier::ext_equal]
pub struct Noted {
    pub sets: Entries<Seq<u32>>,
    pub set_refs: Entries<Seq<u32>>,
    pub items: Entries<Item>,
    pub refs: RefSets,
}

/// The meaning of the annotations of a class.
#[verifier::ext_equal]
pub struct ClassAnnotations {
    pub directory: Option<Directory>,
    pub sets: Entries<Seq<u32>>,
    pub set_refs: Entries<Seq<u32>>,
    pub items: Entries<Item>,
}

impl View for Annotations {
    type V = ClassAnnotations;

    open spec fn view(&self) -> ClassAnnotations {
        ClassAnnotations {
            directory: match self.directory {
                Some(d) => Some(d@),
                None => None,
            },
            sets: self.sets@,
            set_refs: self.set_refs@,
            items: self.items@,
        }
    }
}

/// One entry of an annotation set: the item is read unless it has been.
pub open spec fn item_step(data: Seq<u8>, offset: int) -> spec_fn((Seq<u32>, Noted), int) -> Result<
    (Seq<u32>, Noted),
    Error,
> {
    |s: (Seq<u32>, Noted), i: int|
        match u32_in(data, offset + 4 + i * 4) {
            Err(e) => Err(e),
            Ok(item_off) => if item_off == 0 || s.1.items.get(item_off) is Some {
                Ok((s.0.push(item_off), s.1))
            } else if item_off >= data.len() {
                Err(Error::TruncatedAnnotationItem)
            } else {
                match annotation_in(data, item_off + 1, s.1.refs) {
                    Err(e) => Err(e),
                    Ok((annotation, _, refs)) => {
                        let item = Item { visibility: data[item_off as int], annotation };
                        Ok(
                            (
                                s.0.push(item_off),
                                Noted { items: s.1.items.put(item_off, item), refs, ..s.1 },
                            ),
                        )
                    },
                }
            },
        }
}

/// Reads the annotation set at `offset`, unless there is none or it has been
/// read.
pub open spec fn set_in(data: Seq<u8>, offset: u32, s: Noted) -> Result<Noted, Error> {
    if offset == 0 || s.sets.get(offset) is Some {
        Ok(s)
    } else {
        match u32_in(data, offset as int) {
            Err(e) => Err(e),
            Ok(count) => match run(
                item_step(data, offset as int),
                (Seq::<u32>::empty(), s),
                0,
                count as int,
            ) {
                Err(e) => Err(e),
                Ok((offsets, t)) => Ok(Noted { sets: t.sets.put(offset, offsets), ..t }),
            },
        }
    }
}

/// One entry of a list of annotation sets.
pub open spec fn set_ref_step(data: Seq<u8>, offset: int) -> spec_fn(
    (Seq<u32>, Noted),
    int,
) -> Result<(Seq<u32>, Noted), Error> {
    |s: (Seq<u32>, Noted), i: int|
        match u32_in(data, offset + 4 + i * 4) {
            Err(e) => Err(e),
            Ok(set_off) => match set_in(data, set_off, s.1) {
                Err(e) => Err(e),
                Ok(t) => Ok((s.0.push(set_off), t)),
            },
        }
}

/// Reads the list of annotation sets at `offset`, unless there is none or it
/// has been read.
pub open spec fn set_ref_in(data: Seq<u8>, offset: u32, s: Noted) -> Result<Noted, Error> {
    if offset == 0 || s.set_refs.get(offset) is Some {
        Ok(s)
    } else {
        match u32_in(data, offset as int) {
            Err(e) => Err(e),
            Ok(count) => match run(
                set_ref_step(data, offset as int),
                (Seq::<u32>::empty(), s),
                0,
                count as int,
            ) {
                Err(e) => Err(e),
                Ok((offsets, t)) => Ok(Noted { set_refs: t.set_refs.put(offset, offsets), ..t }),
            },
        }
    }
}

/// One annotated member: its index, and where its set is.
pub open spec fn annotated_step(data: Seq<u8>, start: int, kind: AnnotatedKind) -> spec_fn(
    (Seq<(u32, u32)>, Noted),
    int,
) -> Result<(Seq<(u32, u32)>, Noted), Error> {
    |s: (Seq<(u32, u32)>, Noted), i: int|
        match u32_in(data, start + i * 8) {
            Err(e) => Err(e),
            Ok(index) => match u32_in(data, start + i * 8 + 4) {
                Err(e) => Err(e),
                Ok(off) => {
                    let noted = Noted {
                        refs: if kind == AnnotatedKind::Field {
                            s.1.refs.with_field(index)
                        } else {
                            s.1.refs.with_method(index)
                        },
                        ..s.1
                    };
                    let read = if kind == AnnotatedKind::Parameters {
                        set_ref_in(data, off, noted)
                    } else {
                        set_in(data, off, noted)
                    };
                    match read {
                        Err(e) => Err(e),
                        Ok(t) => Ok((s.0.push((index, off)), t)),
                    }
                },
            },
        }
}

/// What an entry of an annotation directory belongs to.
#[derive(Debug, Clone, Copy, PartialEq, Eq, Structural)]
pub enum AnnotatedKind {
    Field,
    Method,
    Parameters,
}

pub open spec fn annotated_in(
    data: Seq<u8>,
    start: int,
    kind: AnnotatedKind,
    count: u32,
    s: Noted,
) -> Result<(Seq<(u32, u32)>, Noted), Error> {
    run(annotated_step(data, start, kind), (Seq::<(u32, u32)>::empty(), s), 0, count as int)
}

/// The directory at `offset` with everything that it leads to.
pub open spec fn directory_in(data: Seq<u8>, offset: int, s: Noted) -> Result<
    (Directory, Noted),
    Error,
> {
    match u32_in(data, offset) {
        Err(e) => Err(e),
        Ok(class_annotations_off) => match u32_in(data, offset + 4) {
            Err(e) => Err(e),
            Ok(fields) => match u32_in(data, offset + 8) {
                Err(e) => Err(e),
                Ok(methods) => match u32_in(data, offset + 12) {
                    Err(e) => Err(e),
                    Ok(parameters) => match set_in(data, class_annotations_off, s) {
                        Err(e) => Err(e),
                        Ok(t) => members_annotated_in(
                            data,
                            offset + 16,
                            class_annotations_off,
                            fields,
                            methods,
                            parameters,
                            t,
                        ),
                    },
                },
            },
        },
    }
}

/// The three member lists of a directory, which start at `at`.
pub open spec fn members_annotated_in(
    data: Seq<u8>,
    at: int,
    class_annotations_off: u32,
    fields: u32,
    methods: u32,
    parameters: u32,
    s: Noted,
) -> Result<(Directory, Noted), Error> {
    match annotated_in(data, at, AnnotatedKind::Field, fields, s) {
        Err(e) => Err(e),
        Ok((field_annotations, t)) => match annotated_in(
            data,
            at + fields * 8,
            AnnotatedKind::Method,
            methods,
            t,
        ) {
            Err(e) => Err(e),
            Ok((method_annotations, u)) => match annotated_in(
                data,
                at + fields * 8 + methods * 8,
                AnnotatedKind::Parameters,
                parameters,
                u,
            ) {
                Err(e) => Err(e),
                Ok((parameter_annotations, v)) => Ok(
                    (
                        Directory {
                            class_annotations_off,
                            field_annotations,
                            method_annotations,
                            parameter_annotations,
                        },
                        v,
                    ),
                ),
            },
        },
    }
}

/// The annotations of the class whose directory is at `offset`; offset zero
/// stands for none.
pub open spec fn annotations_in(data: Seq<u8>, offset: u32, refs: RefSets) -> Result<
    (ClassAnnotations, RefSets),
    Error,
> {
    if offset == 0 {
        Ok(
            (
                ClassAnnotations {
                    directory: None,
                    sets: Entries::empty(),
                    set_refs: Entries::empty(),
                    items: Entries::empty(),
                },
                refs,
            ),
        )
    } else {
        match directory_in(
            data,
            offset as int,
            Noted { sets: Entries::empty(), set_refs: Entries::empty(), items: Entries::empty(), refs },
        ) {
            Err(e) => Err(e),
            Ok((directory, s)) => Ok(
                (
                    ClassAnnotations {
                        directory: Some(directory),
                        sets: s.sets,
                        set_refs: s.set_refs,
                        items: s.items,
                    },
                    s.refs,
                ),
            ),
        }
    }
}

impl Annotations {
    /// As many entries as keys in each map.
    pub open spec fn wf(self) -> bool {
        self.sets.wf() && self.set_refs.wf() && self.items.wf()
    }

    /// What has been read so far, together with the references.
    pub open spec fn noted(self, refs: RefSets) -> Noted {
        Noted { sets: self.sets@, set_refs: self.set_refs@, items: self.items@, refs }
    }

    pub fn empty() -> (r: Annotations)
        ensures
            r.wf(),
            r.directory is None,
            r@ == annotations_in(Seq::empty(), 0, RefSets::empty())->Ok_0.0,
    {
        Annotations {
            directory: None,
            sets: SortedMap::new(),
            set_refs: SortedMap::new(),
            items: SortedMap::new(),
        }
    }

    /// Reads the annotations of a class and notes what they refer to. An error
    /// leaves the references where the reading stopped.
    pub fn parse(data: &[u8], offset: u32, refs: &mut MetadataRefs) -> (r: Result<
        Annotations,
        Error,
    >)
        ensures
            match r {
                Ok(v) => v.wf() && annotations_in(data@, offset, old(refs)@) == Ok::<
                    (ClassAnnotations, RefSets),
                    Error,
                >((v@, final(refs)@)),
                Err(e) => annotations_in(data@, offset, old(refs)@) == Err::<
                    (ClassAnnotations, RefSets),
                    Error,
                >(e),
            },
    {
        let mut result = Annotations::empty();
        if offset == 0 {
            return Ok(result);
        }
        let at: u64 = offset as u64;
        let class_annotations_off: u32 = u32_at(data, at)?;
        let fields: u32 = u32_at(data, at + 4)?;
        let methods: u32 = u32_at(data, at + 8)?;
        let parameters: u32 = u32_at(data, at + 12)?;
        result.parse_set(data, class_annotations_off, refs)?;
        let start: u64 = at + 16;
        let field_annotations = result.parse_annotated(
            data,
            start,
            AnnotatedKind::Field,
            fields,
            refs,
        )?;
        let second: u64 = start + fields as u64 * 8;
        let method_annotations = result.parse_annotated(
            data,
            second,
            AnnotatedKind::Method,
            methods,
            refs,
        )?;
        let third: u64 = second + methods as u64 * 8;
        let parameter_annotations = result.parse_annotated(
            data,
            third,
            AnnotatedKind::Parameters,
            parameters,
            refs,
        )?;
        result.directory = Some(
            AnnotationDirectory {
                class_annotations_off,
                field_annotations,
                method_annotations,
                parameter_annotations,
            },
        );
        Ok(result)
    }

    fn parse_annotated(
        &mut self,
        data: &[u8],
        start: u64,
        kind: AnnotatedKind,
        count: u32,
        refs: &mut MetadataRefs,
    ) -> (r: Result<Vec<(u32, u32)>, Error>)
        requires
            old(self).wf(),
            start <= 0x100_0000_0000,
        ensures
            match r {
                Ok(v) => final(self).wf() && final(self).directory == old(self).directory
                    && annotated_in(data@, start as int, kind, count, old(self).noted(old(refs)@))
                    == Ok::<(Seq<(u32, u32)>, Noted), Error>((v@, final(self).noted(final(refs)@))),
                Err(e) => annotated_in(
                    data@,
                    start as int,
                    kind,
                    count,
                    old(self).noted(old(refs)@),
                ) == Err::<(Seq<(u32, u32)>, Noted), Error>(e),
            },
    {
        let mut out: Vec<(u32, u32)> = Vec::new();
        let mut i: u32 = 0;
        let ghost before = self.noted(refs@);
        let ghost step = annotated_step(data@, start as int, kind);
        while i < count
            invariant
                i <= count,
                start <= 0x100_0000_0000,
                self.wf(),
                self.directory == old(self).directory,
                before == old(self).noted(old(refs)@),
                step == annotated_step(data@, start as int, kind),
                annotated_in(data@, start as int, kind, count, before) == run(
                    step,
                    (out@, self.noted(refs@)),
                    i as int,
                    count as int,
                ),
            decreases count - i,
        {
            let at: u64 = start + i as u64 * 8;
            let ghost now = self.noted(refs@);
            let ghost outcome = step((out@, now), i as int);
            let index: u32 = u32_at(data, at)?;
            let off: u32 = u32_at(data, at + 4)?;
            match kind {
                AnnotatedKind::Field => refs.fields.insert(index),
                AnnotatedKind::Method => refs.methods.insert(index),
                AnnotatedKind::Parameters => refs.methods.insert(index),
            }
            assert(self.noted(refs@) == (Noted {
                refs: if kind == AnnotatedKind::Field {
                    now.refs.with_field(index)
                } else {
                    now.refs.with_method(index)
                },
                ..now
            }));
            match kind {
                AnnotatedKind::Parameters => self.parse_set_ref(data, off, refs)?,
                _ => self.parse_set(data, off, refs)?,
            }
            out.push((index, off));
            assert(outcome == Ok::<(Seq<(u32, u32)>, Noted), Error>((out@, self.noted(refs@))));
            i += 1;
        }
        Ok(out)
    }

    fn parse_set(&mut self, data: &[u8], offset: u32, refs: &mut MetadataRefs) -> (r: Result<
        (),
        Error,
    >)
        requires
            old(self).wf(),
        ensures
            match r {
                Ok(_) => final(self).wf() && final(self).directory == old(self).directory && set_in(
                    data@,
                    offset,
                    old(self).noted(old(refs)@),
                ) == Ok::<Noted, Error>(final(self).noted(final(refs)@)),
                Err(e) => set_in(data@, offset, old(self).noted(old(refs)@)) == Err::<
                    Noted,
                    Error,
                >(e),
            },
    {
        if offset == 0 || self.sets.contains_key(offset) {
            return Ok(());
        }
        let count: u32 = u32_at(data, offset as u64)?;
        let mut offsets: Vec<u32> = Vec::new();
        let mut i: u32 = 0;
        let ghost before = self.noted(refs@);
        let ghost step = item_step(data@, offset as int);
        while i < count
            invariant
                i <= count,
                self.wf(),
                self.directory == old(self).directory,
                before == old(self).noted(old(refs)@),
                step == item_step(data@, offset as int),
                offset != 0 && before.sets.get(offset) is None,
                u32_in(data@, offset as int) == Ok::<u32, Error>(count),
                run(step, (Seq::<u32>::empty(), before), 0, count as int) == run(
                    step,
                    (offsets@, self.noted(refs@)),
                    i as int,
                    count as int,
                ),
            decreases count - i,
        {
            let ghost now = self.noted(refs@);
            let ghost outcome = step((offsets@, now), i as int);
            let item_off: u32 = u32_at(data, offset as u64 + 4 + i as u64 * 4)?;
            offsets.push(item_off);
            if item_off != 0 && !self.items.contains_key(item_off) {
                if item_off as u64 >= data.len() as u64 {
                    return Err(Error::TruncatedAnnotationItem);
                }
                let visibility: u8 = data[item_off as usize];
                let mut cursor: u64 = item_off as u64 + 1;
                let annotation = parse_encoded_annotation(data, &mut cursor, refs)?;
                self.items.insert(item_off, AnnotationItem { visibility, annotation });
            }
            assert(outcome == Ok::<(Seq<u32>, Noted), Error>((offsets@, self.noted(refs@))));
            i += 1;
        }
        self.sets.insert(offset, offsets);
        Ok(())
    }

    fn parse_set_ref(&mut self, data: &[u8], offset: u32, refs: &mut MetadataRefs) -> (r: Result<
        (),
        Error,
    >)
        requires
            old(self).wf(),
        ensures
            match r {
                Ok(_) => final(self).wf() && final(self).directory == old(self).directory
                    && set_ref_in(data@, offset, old(self).noted(old(refs)@)) == Ok::<Noted, Error>(
                    final(self).noted(final(refs)@),
                ),
                Err(e) => set_ref_in(data@, offset, old(self).noted(old(refs)@)) == Err::<
                    Noted,
                    Error,
                >(e),
            },
    {
        if offset == 0 || self.set_refs.contains_key(offset) {
            return Ok(());
        }
        let count: u32 = u32_at(data, offset as u64)?;
        let mut offsets: Vec<u32> = Vec::new();
        let mut i: u32 = 0;
        let ghost before = self.noted(refs@);
        let ghost step = set_ref_step(data@, offset as int);
        while i < count
            invariant
                i <= count,
                self.wf(),
                self.directory == old(self).directory,
                before == old(self).noted(old(refs)@),
                step == set_ref_step(data@, offset as int),
                offset != 0 && before.set_refs.get(offset) is None,
                u32_in(data@, offset as int) == Ok::<u32, Error>(count),
                run(step, (Seq::<u32>::empty(), before), 0, count as int) == run(
                    step,
                    (offsets@, self.noted(refs@)),
                    i as int,
                    count as int,
                ),
            decreases count - i,
        {
            let ghost now = self.noted(refs@);
            let ghost outcome = step((offsets@, now), i as int);
            let set_off: u32 = u32_at(data, offset as u64 + 4 + i as u64 * 4)?;
            offsets.push(set_off);
            self.parse_set(data, set_off, refs)?;
            assert(outcome == Ok::<(Seq<u32>, Noted), Error>((offsets@, self.noted(refs@))));
            i += 1;
        }
        self.set_refs.insert(offset, offsets);
        Ok(())
    }
}

} // verus!
