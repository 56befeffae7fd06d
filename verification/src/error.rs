//! Everything that can go wrong while a DEX file is read, rebuilt or searched.
use vstd::prelude::*;

use crate::text::{decimal, hexadecimal, push_decimal, push_hex, push_text, zero_filled};

verus! {

/// The identifier tables that a DEX header locates.
#[derive(Debug, Clone, Copy, PartialEq, Eq, Structural)]
pub enum Table {
    StringIds,
    TypeIds,
    ProtoIds,
    FieldIds,
    MethodIds,
    ClassDefs,
}

/// A failure, with the numbers that locate it.
#[derive(Debug, Clone, Copy, PartialEq, Eq, Structural)]
pub enum Error {
    ShortHeader,
    BadMagic,
    TableShape(Table),
    OutOfBounds { start: u64, end: u64 },
    TruncatedUleb(u64),
    InvalidUleb,
    TruncatedSleb(u64),
    InvalidSleb,
    InvalidStringIndex(u64),
    UnterminatedString(u64),
    TypeBadString(u64),
    ProtoBadIndex(u64),
    FieldBadIndex(u64),
    MethodBadIndex(u64),
    TypeListBadIndex,
    InstructionPastCode,
    TruncatedPackedSwitch,
    TruncatedSparseSwitch,
    TruncatedFillArray,
    UnknownPayload(u8),
    InvalidTypeIndex(u32),
    InvalidDescriptorString(u32),
    InvalidClassIndex,
    FieldIndexOverflow,
    MethodIndexOverflow,
    HandlerOffsetTooLarge,
    TruncatedEncodedValue,
    MethodHandleValue,
    TruncatedDebugInfo,
    TruncatedAnnotationItem,
    OddInstructionBytes,
    TruncatedIndexed,
    TruncatedJumbo,
    TruncatedPolymorphic,
    CallSiteOpcode(u8),
    InvalidWidth,
    BadTemporaryString,
    BadTemporaryType,
    BadTemporaryField,
    BadTemporaryMethod,
    BadTemporaryProto,
    JumboRequired,
    InvalidPrimitive,
    HandlerListTooLarge,
    TooLarge,
    UnsupportedVersion,
    FileSizeMismatch,
    BadSignature,
    BadChecksum,
    BadDataOff,
    DataNotTail,
    BadMapOffset,
    MapZero(u64),
    MapDuplicate(u16),
    MapOrder,
    MapMissing,
    TableOverlaps(Table),
    NotSorted(Table),
    TypeOrder,
    ProtoOrder,
    FieldOrder,
    MethodOrder,
    ClassNotFound,
    EmptyClassName,
    InvalidProtoIndex(u32),
    InvalidFieldIndex(u32),
    InvalidMethodIndex(u32),
    TooManyTypes,
    TooManyProtos,
    TooManyFields,
    TooManyMethods,
    StringNotPresent(u32),
    TypeNotPresent(u32),
    ProtoNotPresent,
    FieldNotPresent(u32),
    MethodNotPresent(u32),
    ClassBadType(u64),
    FieldCountOverflow,
    InvalidEncodedMethod,
    EncodedMethodOverflow,
    TooManyCodeItems,
    InvalidWidthAt(u64),
    MatcherTooLarge,
    TruncatedContainerHeader(u64),
    LogicalFileSize { file_size: u32, offset: u64 },
    LogicalFileExceeds(u64),
    ContainerSize { offset: u64, declared: u32, actual: u64 },
    ContainerOffset { expected: u64, declared: u32 },
    ContainerNotCovered,
    NoRootDex,
    NoSuchDex,
    NoWorkers,
    RangeStart { offset: u64, size: u64 },
    RangeLength { selected: u64, available: u64, offset: u64 },
    EndBeforeRange(u64),
    EndWithinRange { selected: u64, offset: u64 },
    Cancelled,
    EmptyBatch,
    JadxPathWithoutJadx,
    NotUtf8,
    EmptyMemberQuery,
    RawWithJson,
    RawWithoutOutput,
}

impl Table {
    pub open spec fn title(self) -> Seq<char> {
        match self {
            Table::StringIds => "string_ids"@,
            Table::TypeIds => "type_ids"@,
            Table::ProtoIds => "proto_ids"@,
            Table::FieldIds => "field_ids"@,
            Table::MethodIds => "method_ids"@,
            Table::ClassDefs => "class_defs"@,
        }
    }

    pub fn label(self) -> (r: &'static str)
        ensures
            r@ == self.title(),
    {
        match self {
            Table::StringIds => "string_ids",
            Table::TypeIds => "type_ids",
            Table::ProtoIds => "proto_ids",
            Table::FieldIds => "field_ids",
            Table::MethodIds => "method_ids",
            Table::ClassDefs => "class_defs",
        }
    }
}

impl Error {
    /// The message of a failure that needs no numbers.
    pub open spec fn plain(self) -> Option<Seq<char>> {
        match self {
            Error::ShortHeader => Some("DEX is shorter than its header"@),
            Error::BadMagic => Some("invalid DEX magic"@),
            Error::InvalidUleb => Some("invalid ULEB128 value"@),
            Error::InvalidSleb => Some("invalid SLEB128"@),
            Error::TypeListBadIndex => Some("type_list contains an invalid type index"@),
            Error::InstructionPastCode => Some("instruction starts past code item"@),
            Error::TruncatedPackedSwitch => Some("truncated packed-switch payload"@),
            Error::TruncatedSparseSwitch => Some("truncated sparse-switch payload"@),
            Error::TruncatedFillArray => Some("truncated fill-array payload"@),
            Error::InvalidClassIndex => Some("invalid class index"@),
            Error::FieldIndexOverflow => Some("field index overflow"@),
            Error::MethodIndexOverflow => Some("method index overflow"@),
            Error::EncodedMethodOverflow => Some("method index overflow in class_data_item"@),
            Error::HandlerOffsetTooLarge => Some("catch handler offset exceeds 16 bits"@),
            Error::TruncatedEncodedValue => Some("truncated encoded_value"@),
            Error::MethodHandleValue => Some("method-handle encoded values are not supported by minimal DEX output"@),
            Error::TruncatedDebugInfo => Some("truncated debug_info_item"@),
            Error::TruncatedAnnotationItem => Some("truncated annotation_item"@),
            Error::OddInstructionBytes => Some("odd instruction byte count"@),
            Error::TruncatedIndexed => Some("truncated indexed instruction"@),
            Error::TruncatedJumbo => Some("truncated const-string/jumbo"@),
            Error::TruncatedPolymorphic => Some("truncated invoke-polymorphic"@),
            Error::InvalidWidth => Some("invalid instruction width"@),
            Error::BadTemporaryString => Some("invalid temporary jumbo string index"@),
            Error::BadTemporaryType => Some("invalid temporary type index"@),
            Error::BadTemporaryField => Some("invalid temporary field index"@),
            Error::BadTemporaryMethod => Some("invalid temporary method index"@),
            Error::BadTemporaryProto => Some("invalid temporary proto index"@),
            Error::JumboRequired => Some("const-string index requires jumbo encoding"@),
            Error::InvalidPrimitive => Some("invalid primitive encoded_value"@),
            Error::HandlerListTooLarge => Some("catch handler list exceeds 65535 bytes"@),
            Error::TooLarge => Some("minimal DEX is too large"@),
            Error::UnsupportedVersion => Some("unsupported rebuilt DEX version"@),
            Error::FileSizeMismatch => Some("DEX header file_size does not match the output length"@),
            Error::BadSignature => Some("invalid DEX SHA-1 signature"@),
            Error::BadChecksum => Some("invalid DEX Adler-32 checksum"@),
            Error::BadDataOff => Some("invalid data_off"@),
            Error::DataNotTail => Some("data section does not cover the rebuilt DEX tail"@),
            Error::BadMapOffset => Some("invalid map_list offset"@),
            Error::MapOrder => Some("map_list offsets are not ordered"@),
            Error::MapMissing => Some("map_list is missing a required rebuilt DEX section"@),
            Error::TypeOrder => Some("type remap order changed"@),
            Error::ProtoOrder => Some("proto remap order changed"@),
            Error::FieldOrder => Some("field remap order changed"@),
            Error::MethodOrder => Some("method remap order changed"@),
            Error::ClassNotFound => Some("class not found in DEX"@),
            Error::EmptyClassName => Some("class name cannot be empty"@),
            Error::TooManyTypes => Some("minimal DEX has too many types"@),
            Error::TooManyProtos => Some("minimal DEX has too many protos"@),
            Error::TooManyFields => Some("minimal DEX has too many fields"@),
            Error::TooManyMethods => Some("minimal DEX has too many methods"@),
            Error::ProtoNotPresent => Some("proto was not included in minimal DEX"@),
            Error::FieldCountOverflow => Some("encoded field count overflow"@),
            Error::InvalidEncodedMethod => Some("invalid encoded method index"@),
            Error::TooManyCodeItems => Some("too many code items to index"@),
            Error::MatcherTooLarge => Some("the patterns need an automaton that is too large"@),
            Error::ContainerNotCovered => Some("DEX 041 logical files do not cover the complete container"@),
            Error::NoRootDex => Some("APK contains no root classes*.dex entries"@),
            Error::NoSuchDex => Some("APK has no such root DEX entry"@),
            Error::NoWorkers => Some("worker count must be at least 1"@),
            Error::Cancelled => Some("operation cancelled"@),
            Error::EmptyBatch => Some("batch string query needs at least one value"@),
            Error::JadxPathWithoutJadx => Some("--jadx-path requires --engine jadx"@),
            Error::NotUtf8 => Some("selected entry bytes are not valid UTF-8; use --encoding hex or raw"@),
            Error::EmptyMemberQuery => Some("member query needs at least a name or --class"@),
            Error::RawWithJson => Some("--encoding raw cannot be combined with --format json"@),
            Error::RawWithoutOutput => Some("--encoding raw requires --output to avoid writing binary data to the terminal"@),
            _ => None,
        }
    }

    /// The message of a failure that is located by numbers.
    pub open spec fn numbered(self) -> Seq<char> {
        match self {
            Error::TableShape(table) => table.title() + " count and offset must both be zero or non-zero"@,
            Error::OutOfBounds { start, end } => "DEX range 0x"@ + hexadecimal(start as nat) + "..0x"@ + hexadecimal(end as nat) + " is out of bounds"@,
            Error::TruncatedUleb(at) => "truncated ULEB128 at 0x"@ + hexadecimal(at as nat),
            Error::TruncatedSleb(at) => "truncated SLEB128 at 0x"@ + hexadecimal(at as nat),
            Error::InvalidStringIndex(index) => "invalid string index "@ + decimal(index as nat),
            Error::UnterminatedString(index) => "unterminated DEX string #"@ + decimal(index as nat),
            Error::TypeBadString(index) => "type #"@ + decimal(index as nat) + " has invalid string index"@,
            Error::ProtoBadIndex(index) => "proto #"@ + decimal(index as nat) + " has an invalid string or type index"@,
            Error::FieldBadIndex(index) => "field #"@ + decimal(index as nat) + " has an invalid type or string index"@,
            Error::MethodBadIndex(index) => "method #"@ + decimal(index as nat) + " has an invalid type, proto, or string index"@,
            Error::UnknownPayload(ident) => "unknown DEX payload identifier 0x"@ + zero_filled(hexadecimal(ident as nat), 2),
            Error::InvalidTypeIndex(index) => "invalid type index "@ + decimal(index as nat),
            Error::InvalidDescriptorString(index) => "invalid descriptor string index "@ + decimal(index as nat),
            Error::CallSiteOpcode(opcode) => "class uses call-site or method-handle opcode 0x"@ + zero_filled(hexadecimal(opcode as nat), 2) + ", which ASC's minimal DEX format cannot represent"@,
            Error::MapZero(index) => "map item #"@ + decimal(index as nat) + " has zero size"@,
            Error::MapDuplicate(kind) => "map_list contains duplicate item type 0x"@ + zero_filled(hexadecimal(kind as nat), 4),
            Error::TableOverlaps(table) => table.title() + " overlaps the data section"@,
            Error::NotSorted(table) => table.title() + " must be strictly sorted and unique"@,
            Error::InvalidProtoIndex(index) => "invalid proto index "@ + decimal(index as nat),
            Error::InvalidFieldIndex(index) => "invalid field index "@ + decimal(index as nat),
            Error::InvalidMethodIndex(index) => "invalid method index "@ + decimal(index as nat),
            Error::StringNotPresent(index) => "string "@ + decimal(index as nat) + " was not included in minimal DEX"@,
            Error::TypeNotPresent(index) => "type "@ + decimal(index as nat) + " was not included in minimal DEX"@,
            Error::FieldNotPresent(index) => "field "@ + decimal(index as nat) + " was not included in minimal DEX"@,
            Error::MethodNotPresent(index) => "method "@ + decimal(index as nat) + " was not included in minimal DEX"@,
            Error::ClassBadType(index) => "class #"@ + decimal(index as nat) + " has invalid type index"@,
            Error::InvalidWidthAt(pc) => "invalid instruction width at code unit "@ + decimal(pc as nat),
            Error::TruncatedContainerHeader(offset) => "truncated DEX 041 header at offset 0x"@ + hexadecimal(offset as nat),
            Error::LogicalFileSize { file_size, offset } => "invalid DEX 041 logical file size "@ + decimal(file_size as nat) + " at offset 0x"@ + hexadecimal(offset as nat),
            Error::LogicalFileExceeds(offset) => "DEX 041 logical file at 0x"@ + hexadecimal(offset as nat) + " exceeds its container"@,
            Error::ContainerSize { offset, declared, actual } => "DEX 041 header at 0x"@ + hexadecimal(offset as nat) + " declares container size "@ + decimal(declared as nat) + ", actual "@ + decimal(actual as nat),
            Error::ContainerOffset { expected, declared } => "DEX 041 header offset mismatch: expected 0x"@ + hexadecimal(expected as nat) + ", got 0x"@ + hexadecimal(declared as nat),
            Error::RangeStart { offset, size } => "entry range starts at "@ + decimal(offset as nat) + ", past the "@ + decimal(size as nat) + "-byte end of the entry"@,
            Error::RangeLength { selected, available, offset } => "entry range length "@ + decimal(selected as nat) + " exceeds the "@ + decimal(available as nat) + " bytes available at offset "@ + decimal(offset as nat),
            Error::EndBeforeRange(offset) => "unexpected end of the entry before byte "@ + decimal(offset as nat),
            Error::EndWithinRange { selected, offset } => "unexpected end of the entry while reading "@ + decimal(selected as nat) + " bytes at offset "@ + decimal(offset as nat),
            _ => Seq::empty(),
        }
    }

    /// The message of a failure.
    pub open spec fn text(self) -> Seq<char> {
        match self.plain() {
            Some(text) => text,
            None => self.numbered(),
        }
    }

    fn plain_message(self) -> (r: Option<&'static str>)
        ensures
            match r {
                Some(s) => self.plain() == Some(s@),
                None => self.plain() is None,
            },
    {
        match self {
            Error::ShortHeader => Some("DEX is shorter than its header"),
            Error::BadMagic => Some("invalid DEX magic"),
            Error::InvalidUleb => Some("invalid ULEB128 value"),
            Error::InvalidSleb => Some("invalid SLEB128"),
            Error::TypeListBadIndex => Some("type_list contains an invalid type index"),
            Error::InstructionPastCode => Some("instruction starts past code item"),
            Error::TruncatedPackedSwitch => Some("truncated packed-switch payload"),
            Error::TruncatedSparseSwitch => Some("truncated sparse-switch payload"),
            Error::TruncatedFillArray => Some("truncated fill-array payload"),
            Error::InvalidClassIndex => Some("invalid class index"),
            Error::FieldIndexOverflow => Some("field index overflow"),
            Error::MethodIndexOverflow => Some("method index overflow"),
            Error::EncodedMethodOverflow => Some("method index overflow in class_data_item"),
            Error::HandlerOffsetTooLarge => Some("catch handler offset exceeds 16 bits"),
            Error::TruncatedEncodedValue => Some("truncated encoded_value"),
            Error::MethodHandleValue => Some("method-handle encoded values are not supported by minimal DEX output"),
            Error::TruncatedDebugInfo => Some("truncated debug_info_item"),
            Error::TruncatedAnnotationItem => Some("truncated annotation_item"),
            Error::OddInstructionBytes => Some("odd instruction byte count"),
            Error::TruncatedIndexed => Some("truncated indexed instruction"),
            Error::TruncatedJumbo => Some("truncated const-string/jumbo"),
            Error::TruncatedPolymorphic => Some("truncated invoke-polymorphic"),
            Error::InvalidWidth => Some("invalid instruction width"),
            Error::BadTemporaryString => Some("invalid temporary jumbo string index"),
            Error::BadTemporaryType => Some("invalid temporary type index"),
            Error::BadTemporaryField => Some("invalid temporary field index"),
            Error::BadTemporaryMethod => Some("invalid temporary method index"),
            Error::BadTemporaryProto => Some("invalid temporary proto index"),
            Error::JumboRequired => Some("const-string index requires jumbo encoding"),
            Error::InvalidPrimitive => Some("invalid primitive encoded_value"),
            Error::HandlerListTooLarge => Some("catch handler list exceeds 65535 bytes"),
            Error::TooLarge => Some("minimal DEX is too large"),
            Error::UnsupportedVersion => Some("unsupported rebuilt DEX version"),
            Error::FileSizeMismatch => Some("DEX header file_size does not match the output length"),
            Error::BadSignature => Some("invalid DEX SHA-1 signature"),
            Error::BadChecksum => Some("invalid DEX Adler-32 checksum"),
            Error::BadDataOff => Some("invalid data_off"),
            Error::DataNotTail => Some("data section does not cover the rebuilt DEX tail"),
            Error::BadMapOffset => Some("invalid map_list offset"),
            Error::MapOrder => Some("map_list offsets are not ordered"),
            Error::MapMissing => Some("map_list is missing a required rebuilt DEX section"),
            Error::TypeOrder => Some("type remap order changed"),
            Error::ProtoOrder => Some("proto remap order changed"),
            Error::FieldOrder => Some("field remap order changed"),
            Error::MethodOrder => Some("method remap order changed"),
            Error::ClassNotFound => Some("class not found in DEX"),
            Error::EmptyClassName => Some("class name cannot be empty"),
            Error::TooManyTypes => Some("minimal DEX has too many types"),
            Error::TooManyProtos => Some("minimal DEX has too many protos"),
            Error::TooManyFields => Some("minimal DEX has too many fields"),
            Error::TooManyMethods => Some("minimal DEX has too many methods"),
            Error::ProtoNotPresent => Some("proto was not included in minimal DEX"),
            Error::FieldCountOverflow => Some("encoded field count overflow"),
            Error::InvalidEncodedMethod => Some("invalid encoded method index"),
            Error::TooManyCodeItems => Some("too many code items to index"),
            Error::MatcherTooLarge => Some("the patterns need an automaton that is too large"),
            Error::ContainerNotCovered => Some("DEX 041 logical files do not cover the complete container"),
            Error::NoRootDex => Some("APK contains no root classes*.dex entries"),
            Error::NoSuchDex => Some("APK has no such root DEX entry"),
            Error::NoWorkers => Some("worker count must be at least 1"),
            Error::Cancelled => Some("operation cancelled"),
            Error::EmptyBatch => Some("batch string query needs at least one value"),
            Error::JadxPathWithoutJadx => Some("--jadx-path requires --engine jadx"),
            Error::NotUtf8 => Some("selected entry bytes are not valid UTF-8; use --encoding hex or raw"),
            Error::EmptyMemberQuery => Some("member query needs at least a name or --class"),
            Error::RawWithJson => Some("--encoding raw cannot be combined with --format json"),
            Error::RawWithoutOutput => Some("--encoding raw requires --output to avoid writing binary data to the terminal"),
            _ => None,
        }
    }

    /// Says what went wrong.
    pub fn message(self) -> (r: String)
        ensures
            r@ == self.text(),
    {
        match self.plain_message() {
            Some(text) => return text.to_owned(),
            None => {},
        }
        let mut out: String = String::new();
        match self {
            Error::TableShape(table) => {
                push_text(&mut out, table.label());
                push_text(&mut out, " count and offset must both be zero or non-zero");
            },
            Error::OutOfBounds { start, end } => {
                push_text(&mut out, "DEX range 0x");
                push_hex(&mut out, start as u64, 1);
                push_text(&mut out, "..0x");
                push_hex(&mut out, end as u64, 1);
                push_text(&mut out, " is out of bounds");
            },
            Error::TruncatedUleb(at) => {
                push_text(&mut out, "truncated ULEB128 at 0x");
                push_hex(&mut out, at as u64, 1);
            },
            Error::TruncatedSleb(at) => {
                push_text(&mut out, "truncated SLEB128 at 0x");
                push_hex(&mut out, at as u64, 1);
            },
            Error::InvalidStringIndex(index) => {
                push_text(&mut out, "invalid string index ");
                push_decimal(&mut out, index as u64);
            },
            Error::UnterminatedString(index) => {
                push_text(&mut out, "unterminated DEX string #");
                push_decimal(&mut out, index as u64);
            },
            Error::TypeBadString(index) => {
                push_text(&mut out, "type #");
                push_decimal(&mut out, index as u64);
                push_text(&mut out, " has invalid string index");
            },
            Error::ProtoBadIndex(index) => {
                push_text(&mut out, "proto #");
                push_decimal(&mut out, index as u64);
                push_text(&mut out, " has an invalid string or type index");
            },
            Error::FieldBadIndex(index) => {
                push_text(&mut out, "field #");
                push_decimal(&mut out, index as u64);
                push_text(&mut out, " has an invalid type or string index");
            },
            Error::MethodBadIndex(index) => {
                push_text(&mut out, "method #");
                push_decimal(&mut out, index as u64);
                push_text(&mut out, " has an invalid type, proto, or string index");
            },
            Error::UnknownPayload(ident) => {
                push_text(&mut out, "unknown DEX payload identifier 0x");
                push_hex(&mut out, ident as u64, 2);
            },
            Error::InvalidTypeIndex(index) => {
                push_text(&mut out, "invalid type index ");
                push_decimal(&mut out, index as u64);
            },
            Error::InvalidDescriptorString(index) => {
                push_text(&mut out, "invalid descriptor string index ");
                push_decimal(&mut out, index as u64);
            },
            Error::CallSiteOpcode(opcode) => {
                push_text(&mut out, "class uses call-site or method-handle opcode 0x");
                push_hex(&mut out, opcode as u64, 2);
                push_text(&mut out, ", which ASC's minimal DEX format cannot represent");
            },
            Error::MapZero(index) => {
                push_text(&mut out, "map item #");
                push_decimal(&mut out, index as u64);
                push_text(&mut out, " has zero size");
            },
            Error::MapDuplicate(kind) => {
                push_text(&mut out, "map_list contains duplicate item type 0x");
                push_hex(&mut out, kind as u64, 4);
            },
            Error::TableOverlaps(table) => {
                push_text(&mut out, table.label());
                push_text(&mut out, " overlaps the data section");
            },
            Error::NotSorted(table) => {
                push_text(&mut out, table.label());
                push_text(&mut out, " must be strictly sorted and unique");
            },
            Error::InvalidProtoIndex(index) => {
                push_text(&mut out, "invalid proto index ");
                push_decimal(&mut out, index as u64);
            },
            Error::InvalidFieldIndex(index) => {
                push_text(&mut out, "invalid field index ");
                push_decimal(&mut out, index as u64);
            },
            Error::InvalidMethodIndex(index) => {
                push_text(&mut out, "invalid method index ");
                push_decimal(&mut out, index as u64);
            },
            Error::StringNotPresent(index) => {
                push_text(&mut out, "string ");
                push_decimal(&mut out, index as u64);
                push_text(&mut out, " was not included in minimal DEX");
            },
            Error::TypeNotPresent(index) => {
                push_text(&mut out, "type ");
                push_decimal(&mut out, index as u64);
                push_text(&mut out, " was not included in minimal DEX");
            },
            Error::FieldNotPresent(index) => {
                push_text(&mut out, "field ");
                push_decimal(&mut out, index as u64);
                push_text(&mut out, " was not included in minimal DEX");
            },
            Error::MethodNotPresent(index) => {
                push_text(&mut out, "method ");
                push_decimal(&mut out, index as u64);
                push_text(&mut out, " was not included in minimal DEX");
            },
            Error::ClassBadType(index) => {
                push_text(&mut out, "class #");
                push_decimal(&mut out, index as u64);
                push_text(&mut out, " has invalid type index");
            },
            Error::InvalidWidthAt(pc) => {
                push_text(&mut out, "invalid instruction width at code unit ");
                push_decimal(&mut out, pc as u64);
            },
            Error::TruncatedContainerHeader(offset) => {
                push_text(&mut out, "truncated DEX 041 header at offset 0x");
                push_hex(&mut out, offset as u64, 1);
            },
            Error::LogicalFileSize { file_size, offset } => {
                push_text(&mut out, "invalid DEX 041 logical file size ");
                push_decimal(&mut out, file_size as u64);
                push_text(&mut out, " at offset 0x");
                push_hex(&mut out, offset as u64, 1);
            },
            Error::LogicalFileExceeds(offset) => {
                push_text(&mut out, "DEX 041 logical file at 0x");
                push_hex(&mut out, offset as u64, 1);
                push_text(&mut out, " exceeds its container");
            },
            Error::ContainerSize { offset, declared, actual } => {
                push_text(&mut out, "DEX 041 header at 0x");
                push_hex(&mut out, offset as u64, 1);
                push_text(&mut out, " declares container size ");
                push_decimal(&mut out, declared as u64);
                push_text(&mut out, ", actual ");
                push_decimal(&mut out, actual as u64);
            },
            Error::ContainerOffset { expected, declared } => {
                push_text(&mut out, "DEX 041 header offset mismatch: expected 0x");
                push_hex(&mut out, expected as u64, 1);
                push_text(&mut out, ", got 0x");
                push_hex(&mut out, declared as u64, 1);
            },
            Error::RangeStart { offset, size } => {
                push_text(&mut out, "entry range starts at ");
                push_decimal(&mut out, offset as u64);
                push_text(&mut out, ", past the ");
                push_decimal(&mut out, size as u64);
                push_text(&mut out, "-byte end of the entry");
            },
            Error::RangeLength { selected, available, offset } => {
                push_text(&mut out, "entry range length ");
                push_decimal(&mut out, selected as u64);
                push_text(&mut out, " exceeds the ");
                push_decimal(&mut out, available as u64);
                push_text(&mut out, " bytes available at offset ");
                push_decimal(&mut out, offset as u64);
            },
            Error::EndBeforeRange(offset) => {
                push_text(&mut out, "unexpected end of the entry before byte ");
                push_decimal(&mut out, offset as u64);
            },
            Error::EndWithinRange { selected, offset } => {
                push_text(&mut out, "unexpected end of the entry while reading ");
                push_decimal(&mut out, selected as u64);
                push_text(&mut out, " bytes at offset ");
                push_decimal(&mut out, offset as u64);
            },
            _ => {},
        }
        proof {
            lemma_unfilled();
            assert(out@ =~= self.numbered());
        }
        out
    }
}

/// A number has at least one digit, so filling up to one changes nothing.
proof fn lemma_unfilled()
    ensures
        forall|n: nat| #[trigger] zero_filled(hexadecimal(n), 1) == hexadecimal(n),
{
    assert forall|n: nat| #[trigger] zero_filled(hexadecimal(n), 1) == hexadecimal(n) by {
        assert(hexadecimal(n).len() >= 1);
    }
}

} // verus!
