use vstd::prelude::*;

verus! {

pub const PRIORITY_CACHE_PACKED_START: u8 = 0x80;
pub const PRIORITY_CACHE_PACKED_END: u8 = 0xA0;
pub const STRUCT_CACHE_PACKED_START: u8 = 0xA0;
pub const STRUCT_CACHE_PACKED_END: u8 = 0xB0;
pub const LONG_ARRAY: u8 = 0xB0;
pub const DOUBLE_ARRAY: u8 = 0xB1;
pub const BOOLEAN_ARRAY: u8 = 0xB2;
pub const INT_ARRAY: u8 = 0xB3;
pub const FLOAT_ARRAY: u8 = 0xB4;
pub const OBJECT_ARRAY: u8 = 0xB5;
/// Raw UTF-8 string, followed by a byte count.
pub const UTF8: u8 = 0xBF;
pub const MAP: u8 = 0xC0;
pub const SET: u8 = 0xC1;
pub const UUID: u8 = 0xC3;
pub const REGEX: u8 = 0xC4;
pub const URI: u8 = 0xC5;
pub const BIGINT: u8 = 0xC6;
pub const BIGDEC: u8 = 0xC7;
pub const INST: u8 = 0xC8;
pub const SYM: u8 = 0xC9;
pub const KEY: u8 = 0xCA;
pub const ERROR: u8 = 0xCB;
pub const GET_PRIORITY_CACHE: u8 = 0xCC;
pub const PUT_PRIORITY_CACHE: u8 = 0xCD;
pub const PRECACHE: u8 = 0xCE;
pub const FOOTER: u8 = 0xCF;
pub const FOOTER_MAGIC: i64 = 0xCFCFCFCF;
pub const BYTES_PACKED_LENGTH_START: u8 = 0xD0;
pub const BYTES_PACKED_LENGTH_END: u8 = 0xD8;
pub const BYTES_CHUNK: u8 = 0xD8;
pub const BYTES: u8 = 0xD9;
pub const STRING_PACKED_LENGTH_START: u8 = 0xDA;
pub const STRING_PACKED_LENGTH_END: u8 = 0xE2;
pub const STRING_CHUNK: u8 = 0xE2;
pub const STRING: u8 = 0xE3;
pub const LIST_PACKED_LENGTH_START: u8 = 0xE4;
pub const LIST_PACKED_LENGTH_END: u8 = 0xEC;
pub const LIST: u8 = 0xEC;
pub const BEGIN_CLOSED_LIST: u8 = 0xED;
pub const BEGIN_OPEN_LIST: u8 = 0xEE;
pub const STRUCTTYPE: u8 = 0xEF;
pub const STRUCT: u8 = 0xF0;
pub const META: u8 = 0xF1;
/// Extended code, written only by the WebAssembly client.
pub const STR: u8 = 0xF2;
pub const ANY: u8 = 0xF4;
pub const TRUE: u8 = 0xF5;
pub const FALSE: u8 = 0xF6;
pub const NULL: u8 = 0xF7;
pub const INT: u8 = 0xF8;
pub const FLOAT: u8 = 0xF9;
pub const DOUBLE: u8 = 0xFA;
pub const DOUBLE_0: u8 = 0xFB;
pub const DOUBLE_1: u8 = 0xFC;
pub const END_COLLECTION: u8 = 0xFD;
pub const RESET_CACHES: u8 = 0xFE;
pub const INT_PACKED_1_START: u8 = 0xFF;
pub const INT_PACKED_1_END: u8 = 0x40;
pub const INT_PACKED_2_START: u8 = 0x40;
pub const INT_PACKED_2_ZERO: u8 = 0x50;
pub const INT_PACKED_2_END: u8 = 0x60;
pub const INT_PACKED_3_START: u8 = 0x60;
pub const INT_PACKED_3_ZERO: u8 = 0x68;
pub const INT_PACKED_3_END: u8 = 0x70;
pub const INT_PACKED_4_START: u8 = 0x70;
pub const INT_PACKED_4_ZERO: u8 = 0x72;
pub const INT_PACKED_4_END: u8 = 0x74;
pub const INT_PACKED_5_START: u8 = 0x74;
pub const INT_PACKED_5_ZERO: u8 = 0x76;
pub const INT_PACKED_5_END: u8 = 0x78;
pub const INT_PACKED_6_START: u8 = 0x78;
pub const INT_PACKED_6_ZERO: u8 = 0x7A;
pub const INT_PACKED_6_END: u8 = 0x7C;
pub const INT_PACKED_7_START: u8 = 0x7C;
pub const INT_PACKED_7_ZERO: u8 = 0x7E;
pub const INT_PACKED_7_END: u8 = 0x80;

} // verus!
