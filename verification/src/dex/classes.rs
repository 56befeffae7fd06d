//! Which classes a DEX file is said to define.
use vstd::prelude::*;

use crate::dex::probe::{class_text_in, class_text_reader, class_texts_in};
use crate::dex_format::fields::{lemma_type_read, word};
use crate::dex_format::{string_in, type_reader, types_in, DexHeader};
use crate::error::Error;
use crate::results::lemma_collect_ok;

verus! {

/// Whether class definition `i` defines the class with a descriptor: the word
/// that starts it is a type, and the word of that type is the string with the
/// descriptor.
pub open spec fn defined_at(data: Seq<u8>, h: DexHeader, i: int, descriptor: Seq<char>) -> bool {
    let class = word(data, h.class_defs_off + 32 * i);
    let name = word(data, h.type_ids_off + 4 * class);
    string_in(data, h, name) == Ok::<Seq<char>, Error>(descriptor)
}

/// The classes of a DEX file are those of its class definitions, one for each
/// and in their order.
pub proof fn lemma_classes_defined(data: Seq<u8>, base: int)
    requires
        class_texts_in(data, base) is Ok,
    ensures
        DexHeader::header_in(data, base) is Ok,
        ({
            let h = DexHeader::header_in(data, base)->Ok_0;
            let list = class_texts_in(data, base)->Ok_0;
            &&& list.len() == h.class_defs_size
            &&& forall|i: int| 0 <= i < list.len() ==> defined_at(data, h, i, #[trigger] list[i])
        }),
{
    let h = DexHeader::header_in(data, base)->Ok_0;
    let types = types_in(data, h)->Ok_0;
    let list = class_texts_in(data, base)->Ok_0;
    lemma_collect_ok(class_text_reader(data, h, types), h.class_defs_size as nat);
    assert forall|i: int| 0 <= i < list.len() implies defined_at(data, h, i, #[trigger] list[i]) by {
        assert(class_text_reader(data, h, types)(i) == Ok::<Seq<char>, Error>(list[i]));
        lemma_defined_at(data, h, types, i, list[i]);
    }
}

proof fn lemma_defined_at(data: Seq<u8>, h: DexHeader, types: Seq<u32>, i: int, text: Seq<char>)
    requires
        0 <= i,
        types_in(data, h) == Ok::<Seq<u32>, Error>(types),
        class_text_in(data, h, types, i) == Ok::<Seq<char>, Error>(text),
    ensures
        defined_at(data, h, i, text),
{
    let g = type_reader(data, h);
    lemma_collect_ok(g, h.type_ids_size as nat);
    let class = word(data, h.class_defs_off + 32 * i);
    assert(class < types.len());
    assert(g(class) == Ok::<u32, Error>(types[class]));
    assert(types[class] == word(data, h.type_ids_off + 4 * class)) by {
        lemma_type_read(data, h, class);
    }
}

} // verus!
