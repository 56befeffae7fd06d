//! Building the identifier tables of the extracted class.
use vstd::prelude::*;

use crate::collections::{cut32, lemma_views_push, views, IdMap, SortedMap};
use crate::error::Error;
use crate::minidex::reader::DexView;
use crate::minidex::tables::{
    param_step, position, position_from, primitive_step, primitives, NewField, NewMethod, Proto,
    Tables,
};
use crate::results::run;
use crate::text::{chars_of, lemma_texts_push, push_char, same_text, texts};

verus! {

#[derive(Debug)]
pub struct NewProto {
    pub shorty_idx: u32,
    pub return_type_idx: u32,
    pub params: Vec<u16>,
}

impl View for NewProto {
    type V = Proto;

    open spec fn view(&self) -> Proto {
        Proto {
            shorty_idx: self.shorty_idx,
            return_type_idx: self.return_type_idx,
            params: self.params@,
        }
    }
}

/// The identifier tables of the extracted class, with the source that they
/// draw on.
#[derive(Debug)]
pub struct IndexMapper<'a> {
    pub dex: &'a DexView<'a>,
    pub strings: Vec<String>,
    pub types: Vec<u32>,
    pub origin_types: IdMap,
    pub synthetic_types: SortedMap<u16>,
    pub primitive_types: SortedMap<u16>,
    pub protos: Vec<NewProto>,
    pub origin_protos: IdMap,
    pub fields: Vec<NewField>,
    pub origin_fields: IdMap,
    pub methods: Vec<NewMethod>,
    pub origin_methods: IdMap,
}

impl<'a> View for IndexMapper<'a> {
    type V = Tables;

    open spec fn view(&self) -> Tables {
        Tables {
            strings: texts(self.strings@),
            types: self.types@,
            origin_types: self.origin_types@,
            synthetic_types: self.synthetic_types@,
            primitive_types: self.primitive_types@,
            protos: views(self.protos@),
            origin_protos: self.origin_protos@,
            fields: self.fields@,
            origin_fields: self.origin_fields@,
            methods: self.methods@,
            origin_methods: self.origin_methods@,
        }
    }
}

/// Where a text stands in a list of strings; the length if it does not.
pub fn position_of(strings: &Vec<String>, text: &str) -> (r: usize)
    ensures
        r == position(texts(strings@), text@),
        r <= strings@.len(),
{
    let mut i: usize = 0;
    while i < strings.len()
        invariant
            i <= strings.len(),
            position(texts(strings@), text@) == position_from(texts(strings@), text@, i as int),
        decreases strings.len() - i,
    {
        assert(texts(strings@)[i as int] == strings@[i as int]@);
        if same_text(strings[i].as_str(), text) {
            return i;
        }
        i += 1;
    }
    i
}

impl<'a> IndexMapper<'a> {
    /// The maps have as many values as keys, and the source's tables have the
    /// sizes that its header gives.
    pub open spec fn wf(self) -> bool {
        &&& self.synthetic_types.wf()
        &&& self.primitive_types.wf()
        &&& self.dex@.sized()
    }

    pub fn new(dex: &'a DexView<'a>) -> (r: IndexMapper<'a>)
        requires
            dex@.sized(),
        ensures
            r.wf(),
            r.dex == dex,
            r@ == Tables::empty(),
    {
        let r = IndexMapper {
            dex,
            strings: Vec::new(),
            types: Vec::new(),
            origin_types: IdMap::new(),
            synthetic_types: SortedMap::new(),
            primitive_types: SortedMap::new(),
            protos: Vec::new(),
            origin_protos: IdMap::new(),
            fields: Vec::new(),
            origin_fields: IdMap::new(),
            methods: Vec::new(),
            origin_methods: IdMap::new(),
        };
        assert(r@.strings =~= Seq::<Seq<char>>::empty());
        assert(r@.protos =~= Seq::<Proto>::empty());
        r
    }

    pub fn add_string_value(&mut self, value: &str) -> (r: u32)
        requires
            old(self).wf(),
        ensures
            final(self).wf(),
            final(self).dex == old(self).dex,
            old(self)@.add_string(value@) == (final(self)@, r),
    {
        let p: usize = position_of(&self.strings, value);
        if p >= self.strings.len() {
            let text = value.to_owned();
            proof {
                lemma_texts_push(self.strings@, text);
            }
            self.strings.push(text);
        }
        cut32(p)
    }

    pub fn add_origin_string(&mut self, id: u32) -> (r: Result<u32, Error>)
        requires
            old(self).wf(),
        ensures
            match r {
                Ok(i) => final(self).wf() && final(self).dex == old(self).dex
                    && old(self)@.add_origin_string(old(self).dex@, id) == Ok::<
                    (Tables, u32),
                    Error,
                >((final(self)@, i)),
                Err(e) => old(self)@.add_origin_string(old(self).dex@, id) == Err::<
                    (Tables, u32),
                    Error,
                >(e),
            },
    {
        let dex = self.dex;
        if id as usize >= dex.strings.len() {
            return Err(Error::InvalidStringIndex(id as u64));
        }
        Ok(self.add_string_value(dex.strings[id as usize].as_str()))
    }

    pub fn mapped_string(&self, id: u32) -> (r: Result<u32, Error>)
        ensures
            r == self@.mapped_string(self.dex@, id),
    {
        if id as usize >= self.dex.strings.len() {
            return Err(Error::InvalidStringIndex(id as u64));
        }
        let p: usize = position_of(&self.strings, self.dex.strings[id as usize].as_str());
        if p < self.strings.len() {
            Ok(cut32(p))
        } else {
            Err(Error::StringNotPresent(id))
        }
    }

    fn push_type(&mut self, descriptor: u32) -> (r: Result<u16, Error>)
        requires
            old(self).wf(),
        ensures
            match r {
                Ok(i) => final(self).wf() && final(self).dex == old(self).dex
                    && old(self)@.push_type(descriptor) == Ok::<(Tables, u16), Error>(
                    (final(self)@, i),
                ),
                Err(e) => old(self)@.push_type(descriptor) == Err::<(Tables, u16), Error>(e),
            },
    {
        if self.types.len() > 0xffff {
            return Err(Error::TooManyTypes);
        }
        let index: u16 = self.types.len() as u16;
        self.types.push(descriptor);
        Ok(index)
    }

    pub fn add_origin_type(&mut self, id: u32) -> (r: Result<u16, Error>)
        requires
            old(self).wf(),
        ensures
            match r {
                Ok(i) => final(self).wf() && final(self).dex == old(self).dex
                    && old(self)@.add_origin_type(old(self).dex@, id) == Ok::<
                    (Tables, u16),
                    Error,
                >((final(self)@, i)),
                Err(e) => old(self)@.add_origin_type(old(self).dex@, id) == Err::<
                    (Tables, u16),
                    Error,
                >(e),
            },
    {
        if let Some(index) = self.origin_types.get(id) {
            return Ok(index);
        }
        if id as usize >= self.dex.type_descriptor_indices.len() {
            return Err(Error::InvalidTypeIndex(id));
        }
        let descriptor: u32 = self.add_origin_string(self.dex.type_descriptor_indices[id as usize])?;
        let index: u16 = self.push_type(descriptor)?;
        self.origin_types.put(id, index);
        Ok(index)
    }

    pub fn add_synthetic_type(&mut self, descriptor: &str) -> (r: Result<u16, Error>)
        requires
            old(self).wf(),
        ensures
            match r {
                Ok(i) => final(self).wf() && final(self).dex == old(self).dex
                    && old(self)@.add_synthetic_type(descriptor@) == Ok::<(Tables, u16), Error>(
                    (final(self)@, i),
                ),
                Err(e) => old(self)@.add_synthetic_type(descriptor@) == Err::<
                    (Tables, u16),
                    Error,
                >(e),
            },
    {
        let text: u32 = self.add_string_value(descriptor);
        if let Some(p) = self.synthetic_types.position(text) {
            return Ok(self.synthetic_types.values[p]);
        }
        let index: u16 = self.push_type(text)?;
        self.synthetic_types.insert(text, index);
        Ok(index)
    }

    pub fn mapped_type(&self, id: u32) -> (r: Result<u16, Error>)
        ensures
            r == self@.mapped_type(id),
    {
        match self.origin_types.get(id) {
            Some(index) => Ok(index),
            None => Err(Error::TypeNotPresent(id)),
        }
    }

    fn add_primitive(&mut self, letter: char, Ghost(i): Ghost<int>) -> (r: Result<(), Error>)
        requires
            old(self).wf(),
            letter == primitives()[i],
        ensures
            match r {
                Ok(_) => final(self).wf() && final(self).dex == old(self).dex && primitive_step()(
                    old(self)@,
                    i,
                ) == Ok::<Tables, Error>(final(self)@),
                Err(e) => primitive_step()(old(self)@, i) == Err::<Tables, Error>(e),
            },
    {
        let mut text: String = String::new();
        push_char(&mut text, letter);
        assert(text@ =~= seq![letter]);
        let index: u16 = self.add_synthetic_type(text.as_str())?;
        self.primitive_types.insert(letter as u32, index);
        Ok(())
    }

    pub fn fill_primitives(&mut self) -> (r: Result<(), Error>)
        requires
            old(self).wf(),
        ensures
            match r {
                Ok(_) => final(self).wf() && final(self).dex == old(self).dex
                    && old(self)@.fill_primitives() == Ok::<Tables, Error>(final(self)@),
                Err(e) => old(self)@.fill_primitives() == Err::<Tables, Error>(e),
            },
    {
        let letters: [char; 9] = ['V', 'Z', 'B', 'S', 'C', 'I', 'J', 'F', 'D'];
        assert(letters@ =~= primitives());
        let mut i: usize = 0;
        while i < 9
            invariant
                i <= 9,
                letters@ == primitives(),
                self.wf(),
                self.dex == old(self).dex,
                old(self)@.fill_primitives() == run(primitive_step(), self@, i as int, 9),
            decreases 9 - i,
        {
            self.add_primitive(letters[i], Ghost(i as int))?;
            i += 1;
        }
        Ok(())
    }

    /// Adds one parameter type of a prototype.
    fn add_param(&mut self, id: u16) -> (r: Result<u16, Error>)
        requires
            old(self).wf(),
        ensures
            match r {
                Ok(index) => final(self).wf() && final(self).dex == old(self).dex && forall|
                    params: Seq<u16>,
                    list: Seq<u16>,
                    i: int,
                |
                    list[i] == id ==> #[trigger] param_step(old(self).dex@, list)(
                        (old(self)@, params),
                        i,
                    ) == Ok::<(Tables, Seq<u16>), Error>((final(self)@, params.push(index))),
                Err(e) => forall|params: Seq<u16>, list: Seq<u16>, i: int|
                    list[i] == id ==> #[trigger] param_step(old(self).dex@, list)(
                        (old(self)@, params),
                        i,
                    ) == Err::<(Tables, Seq<u16>), Error>(e),
            },
    {
        let dex = self.dex;
        let descriptor = dex.type_descriptor(id as u32)?;
        let letters = chars_of(descriptor);
        if letters.len() == 1 && (letters[0] as u32) < 0x80 {
            if let Some(p) = self.primitive_types.position(letters[0] as u32) {
                return Ok(self.primitive_types.values[p]);
            }
            return self.add_origin_type(id as u32);
        }
        self.add_synthetic_type(descriptor)
    }

    pub fn add_proto(&mut self, id: u32) -> (r: Result<u16, Error>)
        requires
            old(self).wf(),
        ensures
            match r {
                Ok(i) => final(self).wf() && final(self).dex == old(self).dex
                    && old(self)@.add_proto(old(self).dex@, id) == Ok::<(Tables, u16), Error>(
                    (final(self)@, i),
                ),
                Err(e) => old(self)@.add_proto(old(self).dex@, id) == Err::<(Tables, u16), Error>(
                    e,
                ),
            },
    {
        if let Some(index) = self.origin_protos.get(id) {
            return Ok(index);
        }
        let dex = self.dex;
        if id as usize >= dex.protos.len() {
            return Err(Error::InvalidProtoIndex(id));
        }
        let source = dex.protos[id as usize];
        let shorty_idx: u32 = self.add_origin_string(source.shorty_idx)?;
        let return_type_idx: u16 = self.add_origin_type(source.return_type_idx)?;
        let list = dex.type_list(source.parameters_off)?;
        let mut params: Vec<u16> = Vec::new();
        let ghost start = self@;
        let ghost step = param_step(dex@, list@);
        let mut i: usize = 0;
        while i < list.len()
            invariant
                i <= list.len(),
                self.wf(),
                self.dex == old(self).dex,
                dex == old(self).dex,
                id < dex@.protos.len(),
                source == dex@.protos[id as int],
                !old(self)@.origin_protos.contains_key(id),
                dex@.type_list(source.parameters_off) == Ok::<Seq<u16>, Error>(list@),
                step == param_step(dex@, list@),
                old(self)@.add_proto(dex@, id) == match run(
                    step,
                    (start, Seq::<u16>::empty()),
                    0,
                    list@.len() as int,
                ) {
                    Err(e) => Err(e),
                    Ok((c, params)) => c.push_proto(
                        id,
                        Proto { shorty_idx, return_type_idx: return_type_idx as u32, params },
                    ),
                },
                run(step, (start, Seq::<u16>::empty()), 0, list@.len() as int) == run(
                    step,
                    (self@, params@),
                    i as int,
                    list@.len() as int,
                ),
            decreases list.len() - i,
        {
            let ghost outcome = step((self@, params@), i as int);
            let param: u16 = self.add_param(list[i])?;
            params.push(param);
            assert(outcome == Ok::<(Tables, Seq<u16>), Error>((self@, params@)));
            i += 1;
        }
        if self.protos.len() > 0xffff {
            return Err(Error::TooManyProtos);
        }
        let index: u16 = self.protos.len() as u16;
        let proto = NewProto { shorty_idx, return_type_idx: return_type_idx as u32, params };
        proof {
            lemma_views_push(self.protos@, proto);
        }
        self.protos.push(proto);
        self.origin_protos.put(id, index);
        Ok(index)
    }

    pub fn mapped_proto(&self, id: u32) -> (r: Result<u16, Error>)
        ensures
            r == self@.mapped_proto(id),
    {
        match self.origin_protos.get(id) {
            Some(index) => Ok(index),
            None => Err(Error::ProtoNotPresent),
        }
    }

    pub fn add_field(&mut self, id: u32) -> (r: Result<u16, Error>)
        requires
            old(self).wf(),
        ensures
            match r {
                Ok(i) => final(self).wf() && final(self).dex == old(self).dex
                    && old(self)@.add_field(old(self).dex@, id) == Ok::<(Tables, u16), Error>(
                    (final(self)@, i),
                ),
                Err(e) => old(self)@.add_field(old(self).dex@, id) == Err::<(Tables, u16), Error>(
                    e,
                ),
            },
    {
        if let Some(index) = self.origin_fields.get(id) {
            return Ok(index);
        }
        let dex = self.dex;
        if id as usize >= dex.fields.len() {
            return Err(Error::InvalidFieldIndex(id));
        }
        let source = dex.fields[id as usize];
        let class = dex.type_descriptor(source.class_idx as u32)?;
        let typ = dex.type_descriptor(source.type_idx as u32)?;
        let class_idx: u16 = self.add_synthetic_type(class)?;
        let type_idx: u16 = self.add_synthetic_type(typ)?;
        let name_idx: u32 = self.add_origin_string(source.name_idx)?;
        if self.fields.len() > 0xffff {
            return Err(Error::TooManyFields);
        }
        let index: u16 = self.fields.len() as u16;
        self.fields.push(NewField { class_idx, type_idx, name_idx });
        self.origin_fields.put(id, index);
        Ok(index)
    }

    pub fn mapped_field(&self, id: u32) -> (r: Result<u16, Error>)
        ensures
            r == self@.mapped_field(id),
    {
        match self.origin_fields.get(id) {
            Some(index) => Ok(index),
            None => Err(Error::FieldNotPresent(id)),
        }
    }

    pub fn add_method(&mut self, id: u32) -> (r: Result<u16, Error>)
        requires
            old(self).wf(),
        ensures
            match r {
                Ok(i) => final(self).wf() && final(self).dex == old(self).dex
                    && old(self)@.add_method(old(self).dex@, id) == Ok::<(Tables, u16), Error>(
                    (final(self)@, i),
                ),
                Err(e) => old(self)@.add_method(old(self).dex@, id) == Err::<(Tables, u16), Error>(
                    e,
                ),
            },
    {
        if let Some(index) = self.origin_methods.get(id) {
            return Ok(index);
        }
        let dex = self.dex;
        if id as usize >= dex.methods.len() {
            return Err(Error::InvalidMethodIndex(id));
        }
        let source = dex.methods[id as usize];
        let proto_idx: u16 = self.add_proto(source.proto_idx as u32)?;
        let class = dex.type_descriptor(source.class_idx as u32)?;
        let class_idx: u16 = self.add_synthetic_type(class)?;
        let name_idx: u32 = self.add_origin_string(source.name_idx)?;
        if self.methods.len() > 0xffff {
            return Err(Error::TooManyMethods);
        }
        let index: u16 = self.methods.len() as u16;
        self.methods.push(NewMethod { class_idx, proto_idx, name_idx });
        self.origin_methods.put(id, index);
        Ok(index)
    }

    pub fn mapped_method(&self, id: u32) -> (r: Result<u16, Error>)
        ensures
            r == self@.mapped_method(id),
    {
        match self.origin_methods.get(id) {
            Some(index) => Ok(index),
            None => Err(Error::MethodNotPresent(id)),
        }
    }
}

} // verus!
