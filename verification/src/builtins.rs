use vstd::prelude::*;

verus! {

/// The enumerated set of built-in functions. Tags on the wire are the
/// declaration order, and every tag fits in seven bits.
#[derive(Clone, Copy, Debug, PartialEq, Eq, Structural)]
pub enum DefaultFunction {
    AddInteger,
    SubtractInteger,
    MultiplyInteger,
    DivideInteger,
    QuotientInteger,
    RemainderInteger,
    ModInteger,
    EqualsInteger,
    LessThanInteger,
    LessThanEqualsInteger,
    AppendByteString,
    ConsByteString,
    SliceByteString,
    LengthOfByteString,
    IndexByteString,
    EqualsByteString,
    LessThanByteString,
    LessThanEqualsByteString,
    Sha2256,
    Sha3256,
    Blake2b256,
    VerifySignature,
    AppendString,
    EqualsString,
    EncodeUtf8,
    DecodeUtf8,
    IfThenElse,
    ChooseUnit,
    Trace,
    FstPair,
    SndPair,
    ChooseList,
    MkCons,
    HeadList,
    TailList,
    NullList,
    ChooseData,
    ConstrData,
    MapData,
    ListData,
    IData,
    BData,
    UnConstrData,
    UnMapData,
    UnListData,
    UnIData,
    UnBData,
    EqualsData,
    MkPairData,
    MkNilData,
    MkNilPairData,
}

/// The wire tag of a built-in function: its position in the enumeration.
pub open spec fn builtin_tag(f: DefaultFunction) -> u8 {
    match f {
        DefaultFunction::AddInteger => 0,
        DefaultFunction::SubtractInteger => 1,
        DefaultFunction::MultiplyInteger => 2,
        DefaultFunction::DivideInteger => 3,
        DefaultFunction::QuotientInteger => 4,
        DefaultFunction::RemainderInteger => 5,
        DefaultFunction::ModInteger => 6,
        DefaultFunction::EqualsInteger => 7,
        DefaultFunction::LessThanInteger => 8,
        DefaultFunction::LessThanEqualsInteger => 9,
        DefaultFunction::AppendByteString => 10,
        DefaultFunction::ConsByteString => 11,
        DefaultFunction::SliceByteString => 12,
        DefaultFunction::LengthOfByteString => 13,
        DefaultFunction::IndexByteString => 14,
        DefaultFunction::EqualsByteString => 15,
        DefaultFunction::LessThanByteString => 16,
        DefaultFunction::LessThanEqualsByteString => 17,
        DefaultFunction::Sha2256 => 18,
        DefaultFunction::Sha3256 => 19,
        DefaultFunction::Blake2b256 => 20,
        DefaultFunction::VerifySignature => 21,
        DefaultFunction::AppendString => 22,
        DefaultFunction::EqualsString => 23,
        DefaultFunction::EncodeUtf8 => 24,
        DefaultFunction::DecodeUtf8 => 25,
        DefaultFunction::IfThenElse => 26,
        DefaultFunction::ChooseUnit => 27,
        DefaultFunction::Trace => 28,
        DefaultFunction::FstPair => 29,
        DefaultFunction::SndPair => 30,
        DefaultFunction::ChooseList => 31,
        DefaultFunction::MkCons => 32,
        DefaultFunction::HeadList => 33,
        DefaultFunction::TailList => 34,
        DefaultFunction::NullList => 35,
        DefaultFunction::ChooseData => 36,
        DefaultFunction::ConstrData => 37,
        DefaultFunction::MapData => 38,
        DefaultFunction::ListData => 39,
        DefaultFunction::IData => 40,
        DefaultFunction::BData => 41,
        DefaultFunction::UnConstrData => 42,
        DefaultFunction::UnMapData => 43,
        DefaultFunction::UnListData => 44,
        DefaultFunction::UnIData => 45,
        DefaultFunction::UnBData => 46,
        DefaultFunction::EqualsData => 47,
        DefaultFunction::MkPairData => 48,
        DefaultFunction::MkNilData => 49,
        DefaultFunction::MkNilPairData => 50,
    }
}

pub const BUILTIN_COUNT: u8 = 51;

impl DefaultFunction {
    /// The seven-bit wire tag of this built-in.
    pub fn tag(&self) -> (r: u8)
        ensures
            r == builtin_tag(*self),
            r < BUILTIN_COUNT,
    {
        match self {
            DefaultFunction::AddInteger => 0,
            DefaultFunction::SubtractInteger => 1,
            DefaultFunction::MultiplyInteger => 2,
            DefaultFunction::DivideInteger => 3,
            DefaultFunction::QuotientInteger => 4,
            DefaultFunction::RemainderInteger => 5,
            DefaultFunction::ModInteger => 6,
            DefaultFunction::EqualsInteger => 7,
            DefaultFunction::LessThanInteger => 8,
            DefaultFunction::LessThanEqualsInteger => 9,
            DefaultFunction::AppendByteString => 10,
            DefaultFunction::ConsByteString => 11,
            DefaultFunction::SliceByteString => 12,
            DefaultFunction::LengthOfByteString => 13,
            DefaultFunction::IndexByteString => 14,
            DefaultFunction::EqualsByteString => 15,
            DefaultFunction::LessThanByteString => 16,
            DefaultFunction::LessThanEqualsByteString => 17,
            DefaultFunction::Sha2256 => 18,
            DefaultFunction::Sha3256 => 19,
            DefaultFunction::Blake2b256 => 20,
            DefaultFunction::VerifySignature => 21,
            DefaultFunction::AppendString => 22,
            DefaultFunction::EqualsString => 23,
            DefaultFunction::EncodeUtf8 => 24,
            DefaultFunction::DecodeUtf8 => 25,
            DefaultFunction::IfThenElse => 26,
            DefaultFunction::ChooseUnit => 27,
            DefaultFunction::Trace => 28,
            DefaultFunction::FstPair => 29,
            DefaultFunction::SndPair => 30,
            DefaultFunction::ChooseList => 31,
            DefaultFunction::MkCons => 32,
            DefaultFunction::HeadList => 33,
            DefaultFunction::TailList => 34,
            DefaultFunction::NullList => 35,
            DefaultFunction::ChooseData => 36,
            DefaultFunction::ConstrData => 37,
            DefaultFunction::MapData => 38,
            DefaultFunction::ListData => 39,
            DefaultFunction::IData => 40,
            DefaultFunction::BData => 41,
            DefaultFunction::UnConstrData => 42,
            DefaultFunction::UnMapData => 43,
            DefaultFunction::UnListData => 44,
            DefaultFunction::UnIData => 45,
            DefaultFunction::UnBData => 46,
            DefaultFunction::EqualsData => 47,
            DefaultFunction::MkPairData => 48,
            DefaultFunction::MkNilData => 49,
            DefaultFunction::MkNilPairData => 50,
        }
    }

    /// The built-in carrying a given wire tag, if the tag is in the
    /// enumerated set.
    pub fn from_tag(tag: u8) -> (r: Option<DefaultFunction>)
        ensures
            r is Some <==> tag < BUILTIN_COUNT,
            r is Some ==> builtin_tag(r->0) == tag,
    {
        match tag {
            0 => Some(DefaultFunction::AddInteger),
            1 => Some(DefaultFunction::SubtractInteger),
            2 => Some(DefaultFunction::MultiplyInteger),
            3 => Some(DefaultFunction::DivideInteger),
            4 => Some(DefaultFunction::QuotientInteger),
            5 => Some(DefaultFunction::RemainderInteger),
            6 => Some(DefaultFunction::ModInteger),
            7 => Some(DefaultFunction::EqualsInteger),
            8 => Some(DefaultFunction::LessThanInteger),
            9 => Some(DefaultFunction::LessThanEqualsInteger),
            10 => Some(DefaultFunction::AppendByteString),
            11 => Some(DefaultFunction::ConsByteString),
            12 => Some(DefaultFunction::SliceByteString),
            13 => Some(DefaultFunction::LengthOfByteString),
            14 => Some(DefaultFunction::IndexByteString),
            15 => Some(DefaultFunction::EqualsByteString),
            16 => Some(DefaultFunction::LessThanByteString),
            17 => Some(DefaultFunction::LessThanEqualsByteString),
            18 => Some(DefaultFunction::Sha2256),
            19 => Some(DefaultFunction::Sha3256),
            20 => Some(DefaultFunction::Blake2b256),
            21 => Some(DefaultFunction::VerifySignature),
            22 => Some(DefaultFunction::AppendString),
            23 => Some(DefaultFunction::EqualsString),
            24 => Some(DefaultFunction::EncodeUtf8),
            25 => Some(DefaultFunction::DecodeUtf8),
            26 => Some(DefaultFunction::IfThenElse),
            27 => Some(DefaultFunction::ChooseUnit),
            28 => Some(DefaultFunction::Trace),
            29 => Some(DefaultFunction::FstPair),
            30 => Some(DefaultFunction::SndPair),
            31 => Some(DefaultFunction::ChooseList),
            32 => Some(DefaultFunction::MkCons),
            33 => Some(DefaultFunction::HeadList),
            34 => Some(DefaultFunction::TailList),
            35 => Some(DefaultFunction::NullList),
            36 => Some(DefaultFunction::ChooseData),
            37 => Some(DefaultFunction::ConstrData),
            38 => Some(DefaultFunction::MapData),
            39 => Some(DefaultFunction::ListData),
            40 => Some(DefaultFunction::IData),
            41 => Some(DefaultFunction::BData),
            42 => Some(DefaultFunction::UnConstrData),
            43 => Some(DefaultFunction::UnMapData),
            44 => Some(DefaultFunction::UnListData),
            45 => Some(DefaultFunction::UnIData),
            46 => Some(DefaultFunction::UnBData),
            47 => Some(DefaultFunction::EqualsData),
            48 => Some(DefaultFunction::MkPairData),
            49 => Some(DefaultFunction::MkNilData),
            50 => Some(DefaultFunction::MkNilPairData),
            _ => None,
        }
    }
}

} // verus!
