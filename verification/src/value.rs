//! Runtime values and the port types of wires.
use crate::float::Float64;
use vstd::prelude::*;

verus! {

// ---------------------------------------------------------------------
// Port types
// ---------------------------------------------------------------------

/// The type of a wire.
#[derive(Clone, Copy, Debug, PartialEq, Eq, Structural)]
pub enum PortType {
    U64,
    I64,
    F64,
    U32,
    I32,
    F32,
    U16,
    I16,
    U8,
    I8,
    F16,
    U128,
    I128,
    Bool,
    Str,
    Bytes,
    Json,
    Ext,
    Handle,
    Reg128,
    RegI8x16,
    RegI16x8,
    RegI32x4,
    RegI64x2,
    RegF16x8,
    RegF32x4,
    RegF64x2,
}

/// The keyword that writes a port type.
pub open spec fn port_keyword(t: PortType) -> Seq<char> {
    match t {
        PortType::U64 => "u64"@,
        PortType::I64 => "i64"@,
        PortType::F64 => "f64"@,
        PortType::U32 => "u32"@,
        PortType::I32 => "i32"@,
        PortType::F32 => "f32"@,
        PortType::U16 => "u16"@,
        PortType::I16 => "i16"@,
        PortType::U8 => "u8"@,
        PortType::I8 => "i8"@,
        PortType::F16 => "f16"@,
        PortType::U128 => "u128"@,
        PortType::I128 => "i128"@,
        PortType::Bool => "bool"@,
        PortType::Str => "str"@,
        PortType::Bytes => "bytes"@,
        PortType::Json => "json"@,
        PortType::Ext => "ext"@,
        PortType::Handle => "handle"@,
        PortType::Reg128 => "reg128"@,
        PortType::RegI8x16 => "reg_i8x16"@,
        PortType::RegI16x8 => "reg_i16x8"@,
        PortType::RegI32x4 => "reg_i32x4"@,
        PortType::RegI64x2 => "reg_i64x2"@,
        PortType::RegF16x8 => "reg_f16x8"@,
        PortType::RegF32x4 => "reg_f32x4"@,
        PortType::RegF64x2 => "reg_f64x2"@,
    }
}

/// The port type that a keyword writes. `String` is a second spelling of
/// `str`.
pub open spec fn port_of_keyword(kw: Seq<char>) -> Option<PortType> {
    if kw == "String"@ {
        Some(PortType::Str)
    } else if exists|t: PortType| port_keyword(t) == kw {
        Some(choose|t: PortType| port_keyword(t) == kw)
    } else {
        None
    }
}

/// The name of a port type in messages.
pub open spec fn port_name(t: PortType) -> Seq<char> {
    match t {
        PortType::U64 => "U64"@,
        PortType::I64 => "I64"@,
        PortType::F64 => "F64"@,
        PortType::U32 => "U32"@,
        PortType::I32 => "I32"@,
        PortType::F32 => "F32"@,
        PortType::U16 => "U16"@,
        PortType::I16 => "I16"@,
        PortType::U8 => "U8"@,
        PortType::I8 => "I8"@,
        PortType::F16 => "F16"@,
        PortType::U128 => "U128"@,
        PortType::I128 => "I128"@,
        PortType::Bool => "Bool"@,
        PortType::Str => "Str"@,
        PortType::Bytes => "Bytes"@,
        PortType::Json => "Json"@,
        PortType::Ext => "Ext"@,
        PortType::Handle => "Handle"@,
        PortType::Reg128 => "Reg128"@,
        PortType::RegI8x16 => "RegI8x16"@,
        PortType::RegI16x8 => "RegI16x8"@,
        PortType::RegI32x4 => "RegI32x4"@,
        PortType::RegI64x2 => "RegI64x2"@,
        PortType::RegF16x8 => "RegF16x8"@,
        PortType::RegF32x4 => "RegF32x4"@,
        PortType::RegF64x2 => "RegF64x2"@,
    }
}


proof fn lemma_keywords_differ(a: PortType, b: PortType)
    requires
        port_keyword(a) == port_keyword(b),
    ensures
        a == b,
{
    reveal_strlit("u64");
    reveal_strlit("i64");
    reveal_strlit("f64");
    reveal_strlit("u32");
    reveal_strlit("i32");
    reveal_strlit("f32");
    reveal_strlit("u16");
    reveal_strlit("i16");
    reveal_strlit("u8");
    reveal_strlit("i8");
    reveal_strlit("f16");
    reveal_strlit("u128");
    reveal_strlit("i128");
    reveal_strlit("bool");
    reveal_strlit("str");
    reveal_strlit("bytes");
    reveal_strlit("json");
    reveal_strlit("ext");
    reveal_strlit("handle");
    reveal_strlit("reg128");
    reveal_strlit("reg_i8x16");
    reveal_strlit("reg_i16x8");
    reveal_strlit("reg_i32x4");
    reveal_strlit("reg_i64x2");
    reveal_strlit("reg_f16x8");
    reveal_strlit("reg_f32x4");
    reveal_strlit("reg_f64x2");
    let x = port_keyword(a);
    let y = port_keyword(b);
    assert(x.len() == y.len());
    assert(x[0] == y[0] && x[1] == y[1] && x[2] == y[2]);
    if x.len() >= 7 {
        assert(x[3] == y[3] && x[4] == y[4] && x[5] == y[5] && x[6] == y[6]);
    }
}

/// The place of a type in the list of all types.
spec fn slot(t: PortType) -> int {
    match t {
        PortType::U64 => 0,
        PortType::I64 => 1,
        PortType::F64 => 2,
        PortType::U32 => 3,
        PortType::I32 => 4,
        PortType::F32 => 5,
        PortType::U16 => 6,
        PortType::I16 => 7,
        PortType::U8 => 8,
        PortType::I8 => 9,
        PortType::F16 => 10,
        PortType::U128 => 11,
        PortType::I128 => 12,
        PortType::Bool => 13,
        PortType::Str => 14,
        PortType::Bytes => 15,
        PortType::Json => 16,
        PortType::Ext => 17,
        PortType::Handle => 18,
        PortType::Reg128 => 19,
        PortType::RegI8x16 => 20,
        PortType::RegI16x8 => 21,
        PortType::RegI32x4 => 22,
        PortType::RegI64x2 => 23,
        PortType::RegF16x8 => 24,
        PortType::RegF32x4 => 25,
        PortType::RegF64x2 => 26,
    }
}

impl PortType {
    /// The keyword that writes this type.
    pub fn to_keyword(self) -> (r: &'static str)
        ensures
            r@ == port_keyword(self),
    {
        match self {
            PortType::U64 => "u64",
            PortType::I64 => "i64",
            PortType::F64 => "f64",
            PortType::U32 => "u32",
            PortType::I32 => "i32",
            PortType::F32 => "f32",
            PortType::U16 => "u16",
            PortType::I16 => "i16",
            PortType::U8 => "u8",
            PortType::I8 => "i8",
            PortType::F16 => "f16",
            PortType::U128 => "u128",
            PortType::I128 => "i128",
            PortType::Bool => "bool",
            PortType::Str => "str",
            PortType::Bytes => "bytes",
            PortType::Json => "json",
            PortType::Ext => "ext",
            PortType::Handle => "handle",
            PortType::Reg128 => "reg128",
            PortType::RegI8x16 => "reg_i8x16",
            PortType::RegI16x8 => "reg_i16x8",
            PortType::RegI32x4 => "reg_i32x4",
            PortType::RegI64x2 => "reg_i64x2",
            PortType::RegF16x8 => "reg_f16x8",
            PortType::RegF32x4 => "reg_f32x4",
            PortType::RegF64x2 => "reg_f64x2",
        }
    }

    /// The name of this type in messages.
    pub fn name(self) -> (r: &'static str)
        ensures
            r@ == port_name(self),
    {
        match self {
            PortType::U64 => "U64",
            PortType::I64 => "I64",
            PortType::F64 => "F64",
            PortType::U32 => "U32",
            PortType::I32 => "I32",
            PortType::F32 => "F32",
            PortType::U16 => "U16",
            PortType::I16 => "I16",
            PortType::U8 => "U8",
            PortType::I8 => "I8",
            PortType::F16 => "F16",
            PortType::U128 => "U128",
            PortType::I128 => "I128",
            PortType::Bool => "Bool",
            PortType::Str => "Str",
            PortType::Bytes => "Bytes",
            PortType::Json => "Json",
            PortType::Ext => "Ext",
            PortType::Handle => "Handle",
            PortType::Reg128 => "Reg128",
            PortType::RegI8x16 => "RegI8x16",
            PortType::RegI16x8 => "RegI16x8",
            PortType::RegI32x4 => "RegI32x4",
            PortType::RegI64x2 => "RegI64x2",
            PortType::RegF16x8 => "RegF16x8",
            PortType::RegF32x4 => "RegF32x4",
            PortType::RegF64x2 => "RegF64x2",
        }
    }

    /// The type that `kw` writes, if it is a type keyword.
    pub fn from_keyword(kw: &str) -> (r: Option<PortType>)
        ensures
            r == port_of_keyword(kw@),
    {
        if *kw == *"String" {
            return Some(PortType::Str);
        }
        let all: [PortType; 27] = [
            PortType::U64,
            PortType::I64,
            PortType::F64,
            PortType::U32,
            PortType::I32,
            PortType::F32,
            PortType::U16,
            PortType::I16,
            PortType::U8,
            PortType::I8,
            PortType::F16,
            PortType::U128,
            PortType::I128,
            PortType::Bool,
            PortType::Str,
            PortType::Bytes,
            PortType::Json,
            PortType::Ext,
            PortType::Handle,
            PortType::Reg128,
            PortType::RegI8x16,
            PortType::RegI16x8,
            PortType::RegI32x4,
            PortType::RegI64x2,
            PortType::RegF16x8,
            PortType::RegF32x4,
            PortType::RegF64x2,
        ];
        assert forall|t: PortType| all@[#[trigger] slot(t)] == t by {}
        let mut i: usize = 0;
        while i < 27
            invariant
                i <= 27,
                all@.len() == 27,
                forall|k: int| 0 <= k < i ==> port_keyword(#[trigger] all@[k]) != kw@,
                kw@ != "String"@,
            decreases 27 - i,
        {
            let t: PortType = all[i];
            if *t.to_keyword() == *kw {
                proof {
                    let c = choose|x: PortType| port_keyword(x) == kw@;
                    assert(port_keyword(t) == kw@);
                    lemma_keywords_differ(c, t);
                }
                return Some(t);
            }
            i = i + 1;
        }
        assert forall|t: PortType| #[trigger] port_keyword(t) != kw@ by {
            assert(all@[slot(t)] == t);
        }
        None
    }
}

/// A port type's keyword reads back as that type.
pub proof fn law_keyword_round_trip(t: PortType)
    ensures
        port_of_keyword(port_keyword(t)) == Some(t),
{
    reveal_strlit("String");
    reveal_strlit("handle");
    reveal_strlit("reg128");
    reveal_strlit("str");
    reveal_strlit("u64");
    reveal_strlit("i64");
    reveal_strlit("f64");
    reveal_strlit("u32");
    reveal_strlit("i32");
    reveal_strlit("f32");
    reveal_strlit("u16");
    reveal_strlit("i16");
    reveal_strlit("u8");
    reveal_strlit("i8");
    reveal_strlit("f16");
    reveal_strlit("u128");
    reveal_strlit("i128");
    reveal_strlit("bool");
    reveal_strlit("bytes");
    reveal_strlit("json");
    reveal_strlit("ext");
    reveal_strlit("reg_i8x16");
    reveal_strlit("reg_i16x8");
    reveal_strlit("reg_i32x4");
    reveal_strlit("reg_i64x2");
    reveal_strlit("reg_f16x8");
    reveal_strlit("reg_f32x4");
    reveal_strlit("reg_f64x2");
    if port_keyword(t) == "String"@ {
        assert(port_keyword(t)[0] == "String"@[0]);
    }
    let c = choose|x: PortType| port_keyword(x) == port_keyword(t);
    assert(port_keyword(t) == port_keyword(t));
    lemma_keywords_differ(c, t);
}

// ---------------------------------------------------------------------
// JSON
// ---------------------------------------------------------------------

/// A JSON document. A number is kept as its text; an object keeps its
/// members in order.
#[derive(Debug, PartialEq)]
pub enum Json {
    Null,
    Bool(bool),
    Number(String),
    Text(String),
    Array(Vec<Json>),
    Object(Vec<(String, Json)>),
}

/// The content of a JSON document.
#[verifier::ext_equal]
pub enum JsonV {
    Null,
    Bool(bool),
    Number(Seq<char>),
    Text(Seq<char>),
    Array(Seq<JsonV>),
    Object(Seq<(Seq<char>, JsonV)>),
}

/// The content of a JSON document.
pub open spec fn json_view(j: Json) -> JsonV
    decreases j, 0nat,
{
    match j {
        Json::Null => JsonV::Null,
        Json::Bool(b) => JsonV::Bool(b),
        Json::Number(s) => JsonV::Number(s@),
        Json::Text(s) => JsonV::Text(s@),
        Json::Array(items) => JsonV::Array(json_items(items@)),
        Json::Object(members) => JsonV::Object(json_members(members@)),
    }
}

/// The contents of a run of documents.
pub open spec fn json_items(s: Seq<Json>) -> Seq<JsonV>
    decreases s, s.len(),
{
    if s.len() == 0 {
        Seq::empty()
    } else {
        json_items(s.drop_last()).push(json_view(s.last()))
    }
}

/// The contents of a run of object members.
pub open spec fn json_members(s: Seq<(String, Json)>) -> Seq<(Seq<char>, JsonV)>
    decreases s, s.len(),
{
    if s.len() == 0 {
        Seq::empty()
    } else {
        json_members(s.drop_last()).push((s.last().0@, json_view(s.last().1)))
    }
}

/// A run of documents has as many contents, each that of its document.
pub proof fn lemma_json_items(s: Seq<Json>)
    ensures
        json_items(s).len() == s.len(),
        forall|i: int| 0 <= i < s.len() ==> #[trigger] json_items(s)[i] == json_view(s[i]),
    decreases s.len(),
{
    if s.len() > 0 {
        lemma_json_items(s.drop_last());
    }
}

/// A run of members has as many contents, each that of its member.
pub proof fn lemma_json_members(s: Seq<(String, Json)>)
    ensures
        json_members(s).len() == s.len(),
        forall|i: int|
            0 <= i < s.len() ==> #[trigger] json_members(s)[i] == (s[i].0@, json_view(s[i].1)),
    decreases s.len(),
{
    if s.len() > 0 {
        lemma_json_members(s.drop_last());
    }
}

impl Json {
    /// The same document.
    pub fn copy(&self) -> (r: Json)
        ensures
            json_view(r) == json_view(*self),
        decreases self,
    {
        match self {
            Json::Null => Json::Null,
            Json::Bool(b) => Json::Bool(*b),
            Json::Number(s) => Json::Number(s.clone()),
            Json::Text(s) => Json::Text(s.clone()),
            Json::Array(items) => {
                let mut out: Vec<Json> = Vec::new();
                let mut i: usize = 0;
                while i < items.len()
                    invariant
                        i <= items.len(),
                        out.len() == i,
                        forall|k: int|
                            0 <= k < i ==> json_view(#[trigger] out@[k]) == json_view(items@[k]),
                        *self == Json::Array(*items),
                    decreases items.len() - i,
                {
                    assert(decreases_to!(items@ => items@[i as int]));
                    assert(decreases_to!(*self => self->Array_0));
                    assert(decreases_to!(*items => items@));
                    out.push(items[i].copy());
                    i = i + 1;
                }
                proof {
                    lemma_json_items(out@);
                    lemma_json_items(items@);
                    assert(json_items(out@) =~= json_items(items@));
                }
                Json::Array(out)
            },
            Json::Object(members) => {
                let mut out: Vec<(String, Json)> = Vec::new();
                let mut i: usize = 0;
                while i < members.len()
                    invariant
                        i <= members.len(),
                        out.len() == i,
                        forall|k: int|
                            0 <= k < i ==> (#[trigger] out@[k]).0@ == members@[k].0@ && json_view(
                                out@[k].1,
                            ) == json_view(members@[k].1),
                        *self == Json::Object(*members),
                    decreases members.len() - i,
                {
                    let m: &(String, Json) = &members[i];
                    assert(decreases_to!(members@ => members@[i as int]));
                    assert(decreases_to!(members@[i as int] => members@[i as int].1));
                    assert(decreases_to!(*self => self->Object_0));
                    assert(decreases_to!(*members => members@));
                    out.push((m.0.clone(), m.1.copy()));
                    i = i + 1;
                }
                proof {
                    lemma_json_members(out@);
                    lemma_json_members(members@);
                    assert(json_members(out@) =~= json_members(members@));
                }
                Json::Object(out)
            },
        }
    }
}

// ---------------------------------------------------------------------
// Values
// ---------------------------------------------------------------------

/// How a 128-bit register is read.
#[derive(Clone, Copy, Debug, PartialEq, Eq, Structural)]
pub enum RegLanes {
    Raw,
    I8x16,
    I16x8,
    I32x4,
    I64x2,
    F16x8,
    F32x4,
    F64x2,
}

/// A 128-bit register by its lanes: `ints` holds the lanes of the integer
/// readings, `floats`, widened to doubles, those of the others.
#[derive(Debug, PartialEq)]
pub struct Register {
    pub lanes: RegLanes,
    pub ints: Vec<i64>,
    pub floats: Vec<Float64>,
}

/// A range of ordinals.
#[derive(Clone, Copy, Debug, PartialEq, Eq, Structural)]
pub struct Partition {
    pub start: u64,
    pub end: u64,
}

/// A reflected value that an adapter contributes.
#[derive(Debug, PartialEq)]
pub enum ExtValue {
    /// A value the crate does not look into.
    Opaque(u64),
    /// One partition.
    Partition(Partition),
    /// A list of partitions.
    Partitions(Vec<Partition>),
}

/// A runtime value. Floating-point lanes are held widened to doubles.
#[derive(Debug, PartialEq)]
pub enum Datum {
    Nothing,
    U64(u64),
    I64(i64),
    U128(u128),
    I128(i128),
    F64(Float64),
    Bool(bool),
    Str(String),
    Bytes(Vec<u8>),
    Json(Json),
    Ext(ExtValue),
    Handle(u64),
    Reg128(Register),
    VecF32(Vec<Float64>),
    VecF64(Vec<Float64>),
    VecF16(Vec<Float64>),
    VecI32(Vec<i32>),
    VecI64(Vec<i64>),
    VecI16(Vec<i16>),
    VecI8(Vec<i8>),
}

/// The content of a runtime value.
#[verifier::ext_equal]
pub enum DatumV {
    Nothing,
    U64(u64),
    I64(i64),
    U128(u128),
    I128(i128),
    F64(Float64),
    Bool(bool),
    Str(Seq<char>),
    Bytes(Seq<u8>),
    Json(JsonV),
    Opaque(u64),
    Partition(Partition),
    Partitions(Seq<Partition>),
    Handle(u64),
    Reg128(RegLanes, Seq<i64>, Seq<Float64>),
    VecF32(Seq<Float64>),
    VecF64(Seq<Float64>),
    VecF16(Seq<Float64>),
    VecI32(Seq<i32>),
    VecI64(Seq<i64>),
    VecI16(Seq<i16>),
    VecI8(Seq<i8>),
}

impl View for Datum {
    type V = DatumV;

    open spec fn view(&self) -> DatumV {
        match *self {
            Datum::Nothing => DatumV::Nothing,
            Datum::U64(n) => DatumV::U64(n),
            Datum::I64(n) => DatumV::I64(n),
            Datum::U128(n) => DatumV::U128(n),
            Datum::I128(n) => DatumV::I128(n),
            Datum::F64(x) => DatumV::F64(x),
            Datum::Bool(b) => DatumV::Bool(b),
            Datum::Str(s) => DatumV::Str(s@),
            Datum::Bytes(b) => DatumV::Bytes(b@),
            Datum::Json(j) => DatumV::Json(json_view(j)),
            Datum::Ext(ExtValue::Opaque(id)) => DatumV::Opaque(id),
            Datum::Ext(ExtValue::Partition(p)) => DatumV::Partition(p),
            Datum::Ext(ExtValue::Partitions(ps)) => DatumV::Partitions(ps@),
            Datum::Handle(h) => DatumV::Handle(h),
            Datum::Reg128(r) => DatumV::Reg128(r.lanes, r.ints@, r.floats@),
            Datum::VecF32(v) => DatumV::VecF32(v@),
            Datum::VecF64(v) => DatumV::VecF64(v@),
            Datum::VecF16(v) => DatumV::VecF16(v@),
            Datum::VecI32(v) => DatumV::VecI32(v@),
            Datum::VecI64(v) => DatumV::VecI64(v@),
            Datum::VecI16(v) => DatumV::VecI16(v@),
            Datum::VecI8(v) => DatumV::VecI8(v@),
        }
    }
}

/// The contents of a run of values.
pub open spec fn views(s: Seq<Datum>) -> Seq<DatumV> {
    Seq::new(s.len(), |i: int| s[i]@)
}

impl Datum {
    /// The same value.
    pub fn copy(&self) -> (r: Datum)
        ensures
            r@ == self@,
    {
        match self {
            Datum::Nothing => Datum::Nothing,
            Datum::U64(n) => Datum::U64(*n),
            Datum::I64(n) => Datum::I64(*n),
            Datum::U128(n) => Datum::U128(*n),
            Datum::I128(n) => Datum::I128(*n),
            Datum::F64(x) => Datum::F64(*x),
            Datum::Bool(b) => Datum::Bool(*b),
            Datum::Str(s) => Datum::Str(s.clone()),
            Datum::Bytes(b) => Datum::Bytes(same_items(b)),
            Datum::Json(j) => Datum::Json(j.copy()),
            Datum::Ext(ExtValue::Opaque(id)) => Datum::Ext(ExtValue::Opaque(*id)),
            Datum::Ext(ExtValue::Partition(p)) => Datum::Ext(ExtValue::Partition(*p)),
            Datum::Ext(ExtValue::Partitions(ps)) => Datum::Ext(
                ExtValue::Partitions(same_items(ps)),
            ),
            Datum::Handle(h) => Datum::Handle(*h),
            Datum::Reg128(r) => Datum::Reg128(
                Register {
                    lanes: r.lanes,
                    ints: same_items(&r.ints),
                    floats: same_items(&r.floats),
                },
            ),
            Datum::VecF32(v) => Datum::VecF32(same_items(v)),
            Datum::VecF64(v) => Datum::VecF64(same_items(v)),
            Datum::VecF16(v) => Datum::VecF16(same_items(v)),
            Datum::VecI32(v) => Datum::VecI32(same_items(v)),
            Datum::VecI64(v) => Datum::VecI64(same_items(v)),
            Datum::VecI16(v) => Datum::VecI16(same_items(v)),
            Datum::VecI8(v) => Datum::VecI8(same_items(v)),
        }
    }
}

impl Clone for Datum {
    fn clone(&self) -> (r: Datum)
        ensures
            r@ == self@,
    {
        self.copy()
    }
}

/// A vector with the same items.
pub fn same_items<T: Copy>(v: &Vec<T>) -> (r: Vec<T>)
    ensures
        r@ == v@,
{
    let mut out: Vec<T> = Vec::new();
    let mut i: usize = 0;
    while i < v.len()
        invariant
            i <= v.len(),
            out@ == v@.take(i as int),
        decreases v.len() - i,
    {
        out.push(v[i]);
        i = i + 1;
        assert(v@.take(i as int) =~= v@.take(i - 1).push(v@[i - 1]));
    }
    assert(v@.take(i as int) =~= v@);
    out
}

} // verus!
