//! Parser for textual message types.
//!
//! A schema string such as `message m { required int32 a; }` is split into
//! tokens and parsed recursively into a [`ParquetType`] tree. Keywords are
//! matched after ASCII upper-casing, as the format's textual form is
//! case-insensitive for them.

use vstd::prelude::*;
use vstd::string::*;
use crate::errors::ParquetError;
use crate::schema::types::{
    ConvertedType, GroupConvertedType, IntType, LogicalType, ParquetType, PhysicalType,
    PrimitiveConvertedType, Repetition, Type, converted_to_primitive_converted,
    BsonType, DateType, EnumType, JsonType, ListType, MapType, MicroSeconds, MilliSeconds,
    NullType, StringType, TimeType, TimeUnit, TimestampType, UUIDType,
};
use crate::strutil::{parse_decimal_i32, spec_parse_i32, spec_upper, str_eq, to_ascii_upper};

verus! {

/// Whether a character separates tokens without being one: the
/// characters with the White_Space property.
pub open spec fn spec_is_ws(c: char) -> bool {
    c == '\u{9}' || c == '\u{a}' || c == '\u{b}' || c == '\u{c}' || c == '\u{d}' || c == ' '
        || c == '\u{85}' || c == '\u{a0}' || c == '\u{1680}' || ('\u{2000}' <= c && c
        <= '\u{200a}') || c == '\u{2028}' || c == '\u{2029}' || c == '\u{202f}' || c
        == '\u{205f}' || c == '\u{3000}'
}

/// Whether a character is one of the schema's one-character tokens.
pub open spec fn spec_is_delim(c: char) -> bool {
    c == ';' || c == '{' || c == '}' || c == '(' || c == ')' || c == '=' || c == ','
}

/// A pending token as a sequence of tokens: nothing when it is empty.
pub open spec fn spec_flush(cur: Seq<char>) -> Seq<Seq<char>> {
    if cur.len() == 0 {
        seq![]
    } else {
        seq![cur]
    }
}

/// Splits one whitespace-free word at its delimiters, keeping the
/// delimiters as tokens; `cur` is the part of the current token already
/// read.
pub open spec fn spec_split_rec(s: Seq<char>, cur: Seq<char>) -> Seq<Seq<char>>
    decreases s.len(),
{
    if s.len() == 0 {
        spec_flush(cur)
    } else if spec_is_delim(s[0]) {
        spec_flush(cur) + seq![seq![s[0]]] + spec_split_rec(s.skip(1), Seq::empty())
    } else {
        spec_split_rec(s.skip(1), cur.push(s[0]))
    }
}

/// The tokens of one whitespace-free word.
pub open spec fn spec_split_token(s: Seq<char>) -> Seq<Seq<char>> {
    spec_split_rec(s, Seq::empty())
}

/// Splits a string at whitespace; `cur` is the part of the current word
/// already read.
pub open spec fn spec_words_rec(s: Seq<char>, cur: Seq<char>) -> Seq<Seq<char>>
    decreases s.len(),
{
    if s.len() == 0 {
        spec_flush(cur)
    } else if spec_is_ws(s[0]) {
        spec_flush(cur) + spec_words_rec(s.skip(1), Seq::empty())
    } else {
        spec_words_rec(s.skip(1), cur.push(s[0]))
    }
}

/// The whitespace-separated words of a string.
pub open spec fn spec_words(s: Seq<char>) -> Seq<Seq<char>> {
    spec_words_rec(s, Seq::empty())
}

/// The token sequence of a schema string: its words, each split at the
/// delimiters.
pub open spec fn spec_tokenize(s: Seq<char>) -> Seq<Seq<char>> {
    spec_words(s).map_values(|w: Seq<char>| spec_split_token(w)).flatten()
}

/// The character sequences of a sequence of string slices.
pub open spec fn token_views(ts: Seq<&str>) -> Seq<Seq<char>> {
    ts.map_values(|t: &str| t@)
}

proof fn lemma_token_views_push(ts: Seq<&str>, t: &str)
    ensures
        token_views(ts.push(t)) =~= token_views(ts).push(t@),
{
}

/// Splits a message type string into tokens, separated by whitespace and
/// by the delimiter characters, which are tokens themselves. The tokenizer
/// hands tokens out one by one and can step back to reprocess one.
pub struct Tokenizer<'a> {
    pub tokens: Vec<&'a str>,
    pub index: usize,
}

impl<'a> Tokenizer<'a> {
    /// The position never runs past the token list.
    pub open spec fn wf(&self) -> bool {
        self.index <= self.tokens@.len()
    }

    /// Builds a tokenizer over a message type string.
    pub fn from_str(string: &'a str) -> (r: Tokenizer<'a>)
        ensures
            r.wf(),
            r.index == 0,
            token_views(r.tokens@) == spec_tokenize(string@),
    {
        let words = Self::split_whitespace_words(string);
        let ghost wviews = spec_words(string@);
        let mut tokens: Vec<&'a str> = Vec::new();
        let mut j: usize = 0;
        while j < words.len()
            invariant
                token_views(words@) == wviews,
                j <= words@.len(),
                token_views(tokens@) =~= wviews.take(j as int).map_values(
                    |w: Seq<char>| spec_split_token(w),
                ).flatten(),
            decreases words@.len() - j,
        {
            let mut parts = Self::split_token(words[j]);
            let ghost old_tokens = tokens@;
            let ghost part_views = token_views(parts@);
            tokens.append(&mut parts);
            proof {
                broadcast use vstd::seq::Seq::lemma_flatten_push;

                let f = |w: Seq<char>| spec_split_token(w);
                assert(token_views(tokens@) =~= token_views(old_tokens) + part_views);
                assert(part_views == spec_split_token(words@[j as int]@));
                assert(wviews.take(j + 1).map_values(f) =~= wviews.take(j as int).map_values(
                    f,
                ).push(f(wviews[j as int])));
                assert(wviews[j as int] == words@[j as int]@);
            }
            j += 1;
        }
        proof {
            assert(wviews.take(wviews.len() as int) =~= wviews);
        }
        Tokenizer { tokens, index: 0 }
    }

    /// Whether a character is one of the schema's one-character tokens.
    pub fn is_schema_delim(c: char) -> (r: bool)
        ensures
            r == spec_is_delim(c),
    {
        c == ';' || c == '{' || c == '}' || c == '(' || c == ')' || c == '=' || c == ','
    }

    fn is_ws_char(c: char) -> (r: bool)
        ensures
            r == spec_is_ws(c),
    {
        c == '\u{9}' || c == '\u{a}' || c == '\u{b}' || c == '\u{c}' || c == '\u{d}' || c == ' '
            || c == '\u{85}' || c == '\u{a0}' || c == '\u{1680}' || ('\u{2000}' <= c && c
            <= '\u{200a}') || c == '\u{2028}' || c == '\u{2029}' || c == '\u{202f}' || c
            == '\u{205f}' || c == '\u{3000}'
    }

    /// The whitespace-separated words of a string, in order.
    fn split_whitespace_words(string: &'a str) -> (r: Vec<&'a str>)
        ensures
            token_views(r@) == spec_words(string@),
    {
        let len = string.unicode_len();
        let mut out: Vec<&'a str> = Vec::new();
        let mut start: usize = 0;
        let mut i: usize = 0;
        proof {
            assert(string@.skip(0) =~= string@);
            assert(string@.subrange(0, 0) =~= Seq::<char>::empty());
            assert(token_views(Seq::<&str>::empty()) =~= Seq::<Seq<char>>::empty());
        }
        while i < len
            invariant
                len == string@.len(),
                start <= i <= len,
                token_views(out@) + spec_words_rec(
                    string@.skip(i as int),
                    string@.subrange(start as int, i as int),
                ) =~= spec_words(string@),
            decreases len - i,
        {
            let c = string.get_char(i);
            proof {
                assert(string@.skip(i as int)[0] == c);
                assert(string@.skip(i as int).skip(1) =~= string@.skip(i + 1));
            }
            if Self::is_ws_char(c) {
                if start < i {
                    let w = string.substring_char(start, i);
                    let ghost old_out = out@;
                    out.push(w);
                    proof {
                        lemma_token_views_push(old_out, w);
                    }
                }
                proof {
                    assert(string@.subrange(i + 1, i + 1) =~= Seq::<char>::empty());
                }
                start = i + 1;
            } else {
                proof {
                    assert(string@.subrange(start as int, i as int).push(c) =~= string@.subrange(
                        start as int,
                        i + 1,
                    ));
                }
            }
            i += 1;
        }
        if start < len {
            let w = string.substring_char(start, len);
            let ghost old_out = out@;
            out.push(w);
            proof {
                lemma_token_views_push(old_out, w);
            }
        }
        proof {
            assert(string@.skip(len as int) =~= Seq::<char>::empty());
        }
        out
    }

    /// Splits one whitespace-free word into tokens: runs of ordinary
    /// characters, and each delimiter character on its own.
    pub fn split_token<'b>(string: &'b str) -> (r: Vec<&'b str>)
        ensures
            token_views(r@) == spec_split_token(string@),
    {
        let len = string.unicode_len();
        let mut out: Vec<&'b str> = Vec::new();
        let mut start: usize = 0;
        let mut i: usize = 0;
        proof {
            assert(string@.skip(0) =~= string@);
            assert(string@.subrange(0, 0) =~= Seq::<char>::empty());
            assert(token_views(Seq::<&str>::empty()) =~= Seq::<Seq<char>>::empty());
        }
        while i < len
            invariant
                len == string@.len(),
                start <= i <= len,
                token_views(out@) + spec_split_rec(
                    string@.skip(i as int),
                    string@.subrange(start as int, i as int),
                ) =~= spec_split_token(string@),
            decreases len - i,
        {
            let c = string.get_char(i);
            proof {
                assert(string@.skip(i as int)[0] == c);
                assert(string@.skip(i as int).skip(1) =~= string@.skip(i + 1));
            }
            if Self::is_schema_delim(c) {
                if start < i {
                    let h = string.substring_char(start, i);
                    let ghost old_out = out@;
                    out.push(h);
                    proof {
                        lemma_token_views_push(old_out, h);
                    }
                }
                let d = string.substring_char(i, i + 1);
                let ghost old_out = out@;
                out.push(d);
                proof {
                    lemma_token_views_push(old_out, d);
                    assert(d@ =~= seq![c]);
                    assert(string@.subrange(i + 1, i + 1) =~= Seq::<char>::empty());
                }
                start = i + 1;
            } else {
                proof {
                    assert(string@.subrange(start as int, i as int).push(c) =~= string@.subrange(
                        start as int,
                        i + 1,
                    ));
                }
            }
            i += 1;
        }
        if start < len {
            let t = string.substring_char(start, len);
            let ghost old_out = out@;
            out.push(t);
            proof {
                lemma_token_views_push(old_out, t);
            }
        }
        proof {
            assert(string@.skip(len as int) =~= Seq::<char>::empty());
        }
        out
    }

    /// Hands out the next token and advances, or nothing at the end.
    pub fn next(&mut self) -> (r: Option<&'a str>)
        requires
            old(self).wf(),
        ensures
            final(self).wf(),
            final(self).tokens == old(self).tokens,
            old(self).index < old(self).tokens@.len() ==> {
                &&& r == Some(old(self).tokens@[old(self).index as int])
                &&& final(self).index == old(self).index + 1
            },
            old(self).index >= old(self).tokens@.len() ==> {
                &&& r is None
                &&& final(self).index == old(self).index
            },
    {
        if self.index < self.tokens.len() {
            self.index += 1;
            Some(self.tokens[self.index - 1])
        } else {
            None
        }
    }

    /// Steps back to the previous token.
    pub fn backtrack(&mut self)
        requires
            old(self).index >= 1,
        ensures
            final(self).tokens == old(self).tokens,
            final(self).index == old(self).index - 1,
    {
        self.index -= 1;
    }
}

} // verus!

verus! {

fn err1(msg: &str) -> (r: ParquetError)
    ensures
        r.msg@ == msg@,
{
    ParquetError::general(String::from_str(msg))
}

fn err2(head: &str, tail: &str) -> (r: ParquetError)
    ensures
        r.msg@ == head@ + tail@,
{
    let mut m = String::from_str(head);
    m.append(tail);
    ParquetError { msg: m }
}

/// What `repetition_from_str` gives for each keyword.
pub open spec fn spec_repetition_from(s: Seq<char>) -> Option<Repetition> {
    if s == "REQUIRED"@ {
        Some(Repetition::Required)
    } else if s == "OPTIONAL"@ {
        Some(Repetition::Optional)
    } else if s == "REPEATED"@ {
        Some(Repetition::Repeated)
    } else {
        None
    }
}

/// Reads a repetition keyword, already upper-cased.
pub fn repetition_from_str(s: &str) -> (r: Result<Repetition, ParquetError>)
    ensures
        r is Ok <==> spec_repetition_from(s@) is Some,
        r is Ok ==> r->Ok_0 == spec_repetition_from(s@)->0,
        r is Err ==> r->Err_0.msg@ == "Invalid repetition "@ + s@,
{
    if str_eq(s, "REQUIRED") {
        Ok(Repetition::Required)
    } else if str_eq(s, "OPTIONAL") {
        Ok(Repetition::Optional)
    } else if str_eq(s, "REPEATED") {
        Ok(Repetition::Repeated)
    } else {
        Err(err2("Invalid repetition ", s))
    }
}

/// What `type_from_str` gives for each keyword.
pub open spec fn spec_type_from(s: Seq<char>) -> Option<Type> {
    if s == "BOOLEAN"@ {
        Some(Type::Boolean)
    } else if s == "INT32"@ {
        Some(Type::Int32)
    } else if s == "INT64"@ {
        Some(Type::Int64)
    } else if s == "INT96"@ {
        Some(Type::Int96)
    } else if s == "FLOAT"@ {
        Some(Type::Float)
    } else if s == "DOUBLE"@ {
        Some(Type::Double)
    } else if s == "BYTE_ARRAY"@ || s == "BINARY"@ {
        Some(Type::ByteArray)
    } else if s == "FIXED_LEN_BYTE_ARRAY"@ {
        Some(Type::FixedLenByteArray)
    } else {
        None
    }
}

/// Reads a physical type keyword, already upper-cased.
pub fn type_from_str(s: &str) -> (r: Result<Type, ParquetError>)
    ensures
        r is Ok <==> spec_type_from(s@) is Some,
        r is Ok ==> r->Ok_0 == spec_type_from(s@)->0,
        r is Err ==> r->Err_0.msg@ == "Invalid type "@ + s@,
{
    if str_eq(s, "BOOLEAN") {
        Ok(Type::Boolean)
    } else if str_eq(s, "INT32") {
        Ok(Type::Int32)
    } else if str_eq(s, "INT64") {
        Ok(Type::Int64)
    } else if str_eq(s, "INT96") {
        Ok(Type::Int96)
    } else if str_eq(s, "FLOAT") {
        Ok(Type::Float)
    } else if str_eq(s, "DOUBLE") {
        Ok(Type::Double)
    } else if str_eq(s, "BYTE_ARRAY") || str_eq(s, "BINARY") {
        Ok(Type::ByteArray)
    } else if str_eq(s, "FIXED_LEN_BYTE_ARRAY") {
        Ok(Type::FixedLenByteArray)
    } else {
        Err(err2("Invalid type ", s))
    }
}

/// What `converted_group_from_str` gives for each keyword.
pub open spec fn spec_converted_group_from(s: Seq<char>) -> Option<GroupConvertedType> {
    if s == "MAP"@ {
        Some(GroupConvertedType::MapGroup)
    } else if s == "MAP_KEY_VALUE"@ {
        Some(GroupConvertedType::MapKeyValue)
    } else if s == "LIST"@ {
        Some(GroupConvertedType::List)
    } else {
        None
    }
}

/// Reads a group converted-type keyword, already upper-cased.
pub fn converted_group_from_str(s: &str) -> (r: Result<GroupConvertedType, ParquetError>)
    ensures
        r is Ok <==> spec_converted_group_from(s@) is Some,
        r is Ok ==> r->Ok_0 == spec_converted_group_from(s@)->0,
        r is Err ==> r->Err_0.msg@ == "Invalid converted type "@ + s@,
{
    if str_eq(s, "MAP") {
        Ok(GroupConvertedType::MapGroup)
    } else if str_eq(s, "MAP_KEY_VALUE") {
        Ok(GroupConvertedType::MapKeyValue)
    } else if str_eq(s, "LIST") {
        Ok(GroupConvertedType::List)
    } else {
        Err(err2("Invalid converted type ", s))
    }
}

/// What `converted_primitive_from_str` gives for each keyword.
pub open spec fn spec_converted_primitive_from(s: Seq<char>) -> Option<ConvertedType> {
    if s == "UTF8"@ {
        Some(ConvertedType::Utf8)
    } else if s == "ENUM"@ {
        Some(ConvertedType::Enum)
    } else if s == "DECIMAL"@ {
        Some(ConvertedType::Decimal)
    } else if s == "DATE"@ {
        Some(ConvertedType::Date)
    } else if s == "TIME_MILLIS"@ {
        Some(ConvertedType::TimeMillis)
    } else if s == "TIME_MICROS"@ {
        Some(ConvertedType::TimeMicros)
    } else if s == "TIMESTAMP_MILLIS"@ {
        Some(ConvertedType::TimestampMillis)
    } else if s == "TIMESTAMP_MICROS"@ {
        Some(ConvertedType::TimestampMicros)
    } else if s == "UINT_8"@ {
        Some(ConvertedType::Uint8)
    } else if s == "UINT_16"@ {
        Some(ConvertedType::Uint16)
    } else if s == "UINT_32"@ {
        Some(ConvertedType::Uint32)
    } else if s == "UINT_64"@ {
        Some(ConvertedType::Uint64)
    } else if s == "INT_8"@ {
        Some(ConvertedType::Int8)
    } else if s == "INT_16"@ {
        Some(ConvertedType::Int16)
    } else if s == "INT_32"@ {
        Some(ConvertedType::Int32)
    } else if s == "INT_64"@ {
        Some(ConvertedType::Int64)
    } else if s == "JSON"@ {
        Some(ConvertedType::Json)
    } else if s == "BSON"@ {
        Some(ConvertedType::Bson)
    } else if s == "INTERVAL"@ {
        Some(ConvertedType::Interval)
    } else {
        None
    }
}

/// Reads a primitive converted-type keyword, already upper-cased, into the
/// file format's converted type.
pub fn converted_primitive_from_str(s: &str) -> (r: Result<ConvertedType, ParquetError>)
    ensures
        r is Ok <==> spec_converted_primitive_from(s@) is Some,
        r is Ok ==> r->Ok_0 == spec_converted_primitive_from(s@)->0,
        r is Err ==> r->Err_0.msg@ == "Invalid converted type "@ + s@,
{
    if str_eq(s, "UTF8") {
        Ok(ConvertedType::Utf8)
    } else if str_eq(s, "ENUM") {
        Ok(ConvertedType::Enum)
    } else if str_eq(s, "DECIMAL") {
        Ok(ConvertedType::Decimal)
    } else if str_eq(s, "DATE") {
        Ok(ConvertedType::Date)
    } else if str_eq(s, "TIME_MILLIS") {
        Ok(ConvertedType::TimeMillis)
    } else if str_eq(s, "TIME_MICROS") {
        Ok(ConvertedType::TimeMicros)
    } else if str_eq(s, "TIMESTAMP_MILLIS") {
        Ok(ConvertedType::TimestampMillis)
    } else if str_eq(s, "TIMESTAMP_MICROS") {
        Ok(ConvertedType::TimestampMicros)
    } else if str_eq(s, "UINT_8") {
        Ok(ConvertedType::Uint8)
    } else if str_eq(s, "UINT_16") {
        Ok(ConvertedType::Uint16)
    } else if str_eq(s, "UINT_32") {
        Ok(ConvertedType::Uint32)
    } else if str_eq(s, "UINT_64") {
        Ok(ConvertedType::Uint64)
    } else if str_eq(s, "INT_8") {
        Ok(ConvertedType::Int8)
    } else if str_eq(s, "INT_16") {
        Ok(ConvertedType::Int16)
    } else if str_eq(s, "INT_32") {
        Ok(ConvertedType::Int32)
    } else if str_eq(s, "INT_64") {
        Ok(ConvertedType::Int64)
    } else if str_eq(s, "JSON") {
        Ok(ConvertedType::Json)
    } else if str_eq(s, "BSON") {
        Ok(ConvertedType::Bson)
    } else if str_eq(s, "INTERVAL") {
        Ok(ConvertedType::Interval)
    } else {
        Err(err2("Invalid converted type ", s))
    }
}

} // verus!

verus! {

/// What `logical_from_str` gives for each keyword.
pub open spec fn spec_logical_from(s: Seq<char>) -> Option<LogicalType> {
    if s == "INTEGER(8,true)"@ {
        Some(LogicalType::INTEGER(IntType { bit_width: 8, is_signed: true }))
    } else if s == "INTEGER(16,true)"@ {
        Some(LogicalType::INTEGER(IntType { bit_width: 16, is_signed: true }))
    } else if s == "INTEGER(32,true)"@ {
        Some(LogicalType::INTEGER(IntType { bit_width: 32, is_signed: true }))
    } else if s == "INTEGER(64,true)"@ {
        Some(LogicalType::INTEGER(IntType { bit_width: 64, is_signed: true }))
    } else if s == "INTEGER(8,false)"@ {
        Some(LogicalType::INTEGER(IntType { bit_width: 8, is_signed: false }))
    } else if s == "INTEGER(16,false)"@ {
        Some(LogicalType::INTEGER(IntType { bit_width: 16, is_signed: false }))
    } else if s == "INTEGER(32,false)"@ {
        Some(LogicalType::INTEGER(IntType { bit_width: 32, is_signed: false }))
    } else if s == "INTEGER(64,false)"@ {
        Some(LogicalType::INTEGER(IntType { bit_width: 64, is_signed: false }))
    } else if s == "MAP"@ {
        Some(LogicalType::MAP(MapType {  }))
    } else if s == "LIST"@ {
        Some(LogicalType::LIST(ListType {  }))
    } else if s == "ENUM"@ {
        Some(LogicalType::ENUM(EnumType {  }))
    } else if s == "DATE"@ {
        Some(LogicalType::DATE(DateType {  }))
    } else if s == "TIME(MILLIS,true)"@ {
        Some(
            LogicalType::TIME(
                TimeType {
                    is_adjusted_to_u_t_c: true,
                    unit: TimeUnit::MILLIS(MilliSeconds {  }),
                },
            ),
        )
    } else if s == "TIME(MILLIS,false)"@ {
        Some(
            LogicalType::TIME(
                TimeType {
                    is_adjusted_to_u_t_c: false,
                    unit: TimeUnit::MILLIS(MilliSeconds {  }),
                },
            ),
        )
    } else if s == "TIME(MICROS,true)"@ {
        Some(
            LogicalType::TIME(
                TimeType {
                    is_adjusted_to_u_t_c: true,
                    unit: TimeUnit::MICROS(MicroSeconds {  }),
                },
            ),
        )
    } else if s == "TIME(MICROS,false)"@ {
        Some(
            LogicalType::TIME(
                TimeType {
                    is_adjusted_to_u_t_c: false,
                    unit: TimeUnit::MICROS(MicroSeconds {  }),
                },
            ),
        )
    } else if s == "TIMESTAMP(MILLIS,true)"@ {
        Some(
            LogicalType::TIMESTAMP(
                TimestampType {
                    is_adjusted_to_u_t_c: true,
                    unit: TimeUnit::MILLIS(MilliSeconds {  }),
                },
            ),
        )
    } else if s == "TIMESTAMP(MILLIS,false)"@ {
        Some(
            LogicalType::TIMESTAMP(
                TimestampType {
                    is_adjusted_to_u_t_c: false,
                    unit: TimeUnit::MILLIS(MilliSeconds {  }),
                },
            ),
        )
    } else if s == "TIMESTAMP(MICROS,true)"@ {
        Some(
            LogicalType::TIMESTAMP(
                TimestampType {
                    is_adjusted_to_u_t_c: true,
                    unit: TimeUnit::MICROS(MicroSeconds {  }),
                },
            ),
        )
    } else if s == "TIMESTAMP(MICROS,false)"@ {
        Some(
            LogicalType::TIMESTAMP(
                TimestampType {
                    is_adjusted_to_u_t_c: false,
                    unit: TimeUnit::MICROS(MicroSeconds {  }),
                },
            ),
        )
    } else if s == "TIMESTAMP(NANOS,true)"@ {
        Some(
            LogicalType::TIMESTAMP(
                TimestampType {
                    is_adjusted_to_u_t_c: true,
                    unit: TimeUnit::MICROS(MicroSeconds {  }),
                },
            ),
        )
    } else if s == "TIMESTAMP(NANOS,false)"@ {
        Some(
            LogicalType::TIMESTAMP(
                TimestampType {
                    is_adjusted_to_u_t_c: false,
                    unit: TimeUnit::MICROS(MicroSeconds {  }),
                },
            ),
        )
    } else if s == "STRING"@ {
        Some(LogicalType::STRING(StringType {  }))
    } else if s == "JSON"@ {
        Some(LogicalType::JSON(JsonType {  }))
    } else if s == "BSON"@ {
        Some(LogicalType::BSON(BsonType {  }))
    } else if s == "UUID"@ {
        Some(LogicalType::UUID(UUIDType {  }))
    } else if s == "UNKNOWN"@ {
        Some(LogicalType::UNKNOWN(NullType {  }))
    } else {
        None
    }
}

/// Reads a logical type keyword with its arguments, already upper-cased.
/// The interval logical type is recognised but not supported.
pub fn logical_from_str(s: &str) -> (r: Result<LogicalType, ParquetError>)
    ensures
        r is Ok <==> spec_logical_from(s@) is Some,
        r is Ok ==> r->Ok_0 == spec_logical_from(s@)->0,
        r is Err && s@ == "INTERVAL"@ ==> r->Err_0.msg@
            == "Interval logical type not yet supported"@,
        r is Err && s@ != "INTERVAL"@ ==> r->Err_0.msg@ == "Invalid logical type "@ + s@,
{
    if str_eq(s, "INTEGER(8,true)") {
        Ok(LogicalType::INTEGER(IntType { bit_width: 8, is_signed: true }))
    } else if str_eq(s, "INTEGER(16,true)") {
        Ok(LogicalType::INTEGER(IntType { bit_width: 16, is_signed: true }))
    } else if str_eq(s, "INTEGER(32,true)") {
        Ok(LogicalType::INTEGER(IntType { bit_width: 32, is_signed: true }))
    } else if str_eq(s, "INTEGER(64,true)") {
        Ok(LogicalType::INTEGER(IntType { bit_width: 64, is_signed: true }))
    } else if str_eq(s, "INTEGER(8,false)") {
        Ok(LogicalType::INTEGER(IntType { bit_width: 8, is_signed: false }))
    } else if str_eq(s, "INTEGER(16,false)") {
        Ok(LogicalType::INTEGER(IntType { bit_width: 16, is_signed: false }))
    } else if str_eq(s, "INTEGER(32,false)") {
        Ok(LogicalType::INTEGER(IntType { bit_width: 32, is_signed: false }))
    } else if str_eq(s, "INTEGER(64,false)") {
        Ok(LogicalType::INTEGER(IntType { bit_width: 64, is_signed: false }))
    } else if str_eq(s, "MAP") {
        Ok(LogicalType::MAP(MapType {  }))
    } else if str_eq(s, "LIST") {
        Ok(LogicalType::LIST(ListType {  }))
    } else if str_eq(s, "ENUM") {
        Ok(LogicalType::ENUM(EnumType {  }))
    } else if str_eq(s, "DATE") {
        Ok(LogicalType::DATE(DateType {  }))
    } else if str_eq(s, "TIME(MILLIS,true)") {
        Ok(
            LogicalType::TIME(
                TimeType {
                    is_adjusted_to_u_t_c: true,
                    unit: TimeUnit::MILLIS(MilliSeconds {  }),
                },
            ),
        )
    } else if str_eq(s, "TIME(MILLIS,false)") {
        Ok(
            LogicalType::TIME(
                TimeType {
                    is_adjusted_to_u_t_c: false,
                    unit: TimeUnit::MILLIS(MilliSeconds {  }),
                },
            ),
        )
    } else if str_eq(s, "TIME(MICROS,true)") {
        Ok(
            LogicalType::TIME(
                TimeType {
                    is_adjusted_to_u_t_c: true,
                    unit: TimeUnit::MICROS(MicroSeconds {  }),
                },
            ),
        )
    } else if str_eq(s, "TIME(MICROS,false)") {
        Ok(
            LogicalType::TIME(
                TimeType {
                    is_adjusted_to_u_t_c: false,
                    unit: TimeUnit::MICROS(MicroSeconds {  }),
                },
            ),
        )
    } else if str_eq(s, "TIMESTAMP(MILLIS,true)") {
        Ok(
            LogicalType::TIMESTAMP(
                TimestampType {
                    is_adjusted_to_u_t_c: true,
                    unit: TimeUnit::MILLIS(MilliSeconds {  }),
                },
            ),
        )
    } else if str_eq(s, "TIMESTAMP(MILLIS,false)") {
        Ok(
            LogicalType::TIMESTAMP(
                TimestampType {
                    is_adjusted_to_u_t_c: false,
                    unit: TimeUnit::MILLIS(MilliSeconds {  }),
                },
            ),
        )
    } else if str_eq(s, "TIMESTAMP(MICROS,true)") {
        Ok(
            LogicalType::TIMESTAMP(
                TimestampType {
                    is_adjusted_to_u_t_c: true,
                    unit: TimeUnit::MICROS(MicroSeconds {  }),
                },
            ),
        )
    } else if str_eq(s, "TIMESTAMP(MICROS,false)") {
        Ok(
            LogicalType::TIMESTAMP(
                TimestampType {
                    is_adjusted_to_u_t_c: false,
                    unit: TimeUnit::MICROS(MicroSeconds {  }),
                },
            ),
        )
    } else if str_eq(s, "TIMESTAMP(NANOS,true)") {
        Ok(
            LogicalType::TIMESTAMP(
                TimestampType {
                    is_adjusted_to_u_t_c: true,
                    unit: TimeUnit::MICROS(MicroSeconds {  }),
                },
            ),
        )
    } else if str_eq(s, "TIMESTAMP(NANOS,false)") {
        Ok(
            LogicalType::TIMESTAMP(
                TimestampType {
                    is_adjusted_to_u_t_c: false,
                    unit: TimeUnit::MICROS(MicroSeconds {  }),
                },
            ),
        )
    } else if str_eq(s, "STRING") {
        Ok(LogicalType::STRING(StringType {  }))
    } else if str_eq(s, "JSON") {
        Ok(LogicalType::JSON(JsonType {  }))
    } else if str_eq(s, "BSON") {
        Ok(LogicalType::BSON(BsonType {  }))
    } else if str_eq(s, "UUID") {
        Ok(LogicalType::UUID(UUIDType {  }))
    } else if str_eq(s, "UNKNOWN") {
        Ok(LogicalType::UNKNOWN(NullType {  }))
    } else if str_eq(s, "INTERVAL") {
        Err(err1("Interval logical type not yet supported"))
    } else {
        Err(err2("Invalid logical type ", s))
    }
}

/// Checks that a token is present and is the expected one.
pub fn assert_token(token: Option<&str>, expected: &str) -> (r: Result<(), ParquetError>)
    ensures
        r is Ok <==> (token matches Some(t) && t@ == expected@),
        token matches Some(t) ==> (t@ != expected@ ==> r->Err_0.msg@ == "Expected '"@ + expected@
            + "', found token '"@ + t@ + "'"@),
        token is None ==> r->Err_0.msg@ == "Expected '"@ + expected@
            + "', but no token found (None)"@,
{
    match token {
        Some(value) => {
            if str_eq(value, expected) {
                Ok(())
            } else {
                let mut m = String::from_str("Expected '");
                m.append(expected);
                m.append("', found token '");
                m.append(value);
                m.append("'");
                Err(ParquetError { msg: m })
            }
        },
        None => {
            let mut m = String::from_str("Expected '");
            m.append(expected);
            m.append("', but no token found (None)");
            Err(ParquetError { msg: m })
        },
    }
}

/// Reads a 32-bit integer from an optional token, with one message for a
/// missing token and one for an unreadable number.
pub fn parse_i32(value: Option<&str>, not_found_msg: &str, parse_fail_msg: &str) -> (r: Result<
    i32,
    ParquetError,
>)
    ensures
        r is Ok <==> (value matches Some(v) && spec_parse_i32(v@) is Some),
        value matches Some(v) ==> {
            &&& spec_parse_i32(v@) is Some ==> r->Ok_0 == spec_parse_i32(v@)->0
            &&& spec_parse_i32(v@) is None ==> r->Err_0.msg@ == parse_fail_msg@
        },
        value is None ==> r->Err_0.msg@ == not_found_msg@,
{
    match value {
        Some(v) => match parse_decimal_i32(v) {
            Some(n) => Ok(n),
            None => Err(err1(parse_fail_msg)),
        },
        None => Err(err1(not_found_msg)),
    }
}

} // verus!

verus! {

/// Recursive-descent parser over a tokenizer: reads one message type with
/// its nested groups and primitive fields.
pub struct Parser<'a> {
    pub tokenizer: Tokenizer<'a>,
}

impl<'a> Parser<'a> {
    /// Parses the whole message type: the `message` keyword, the root
    /// name, then the children.
    pub fn parse_message_type(&mut self) -> (r: Result<ParquetType, ParquetError>)
        requires
            old(self).tokenizer.wf(),
        ensures
            final(self).tokenizer.wf(),
            final(self).tokenizer.tokens == old(self).tokenizer.tokens,
            ({
                let toks = old(self).tokenizer.tokens@;
                let i = old(self).tokenizer.index as int;
                &&& (i >= toks.len() || toks[i]@ != "message"@) ==> (r is Err
                    && r->Err_0.msg@ == "Message type does not start with 'message'"@)
                &&& (i < toks.len() && toks[i]@ == "message"@ && i + 1 >= toks.len()) ==> (r is Err
                    && r->Err_0.msg@ == "Expected name, found None"@)
                &&& (r is Ok <==> spec_parse_message_at(token_views(toks), i) is Some)
                &&& (r matches Ok(t) ==> (spec_parse_message_at(token_views(toks), i)
                    matches Some(p) && matches_model(t, p.0) && final(self).tokenizer.index
                    == p.1))
            }),
    {
        let ghost gtoks = token_views(self.tokenizer.tokens@);
        let ghost i0 = self.tokenizer.index as int;
        let nxt = self.tokenizer.next();
        match nxt {
            Some(v) => {
                if str_eq(v, "message") {
                    match self.tokenizer.next() {
                        Some(name) => {
                            let fields = match self.parse_child_types() {
                                Ok(f) => f,
                                Err(e) => {
                                    return Err(e);
                                },
                            };
                            let root = ParquetType::from_fields(name.to_owned(), fields);
                            proof {
                                let p = spec_parse_children(gtoks, i0 + 2)->Some_0;
                                assert(spec_parse_message_at(gtoks, i0) matches Some(q)
                                    && q.0 == (SchemaModel::Group {
                                    name: gtoks[i0 + 1],
                                    repetition: Repetition::Optional,
                                    converted_type: None,
                                    id: None,
                                    fields: p.0,
                                }) && q.1 == p.1);
                                assert(matches_model(root, spec_parse_message_at(gtoks, i0)->Some_0.0));
                            }
                            Ok(root)
                        },
                        None => Err(err1("Expected name, found None")),
                    }
                } else {
                    Err(err1("Message type does not start with 'message'"))
                }
            },
            None => Err(err1("Message type does not start with 'message'")),
        }
    }

    /// Parses the children of a group: a `{`, then fields until the
    /// matching `}` or the end of the input.
    pub fn parse_child_types(&mut self) -> (r: Result<Vec<ParquetType>, ParquetError>)
        requires
            old(self).tokenizer.wf(),
        ensures
            final(self).tokenizer.wf(),
            final(self).tokenizer.tokens == old(self).tokenizer.tokens,
            r is Ok ==> final(self).tokenizer.index > old(self).tokenizer.index,
            ({
                let toks = token_views(old(self).tokenizer.tokens@);
                let i = old(self).tokenizer.index as int;
                &&& (r is Ok <==> spec_parse_children(toks, i) is Some)
                &&& (r matches Ok(v) ==> (spec_parse_children(toks, i) matches Some(p)
                    && v@.len() == p.0.len() && (forall|k: int|
                    0 <= k < p.0.len() ==> matches_model(v@[k], #[trigger] p.0[k]))
                    && final(self).tokenizer.index == p.1))
            }),
        decreases old(self).tokenizer.tokens@.len() - old(self).tokenizer.index, 0int,
    {
        let ghost gtoks = token_views(self.tokenizer.tokens@);
        let ghost i0 = self.tokenizer.index as int;
        assert_token(self.tokenizer.next(), "{")?;
        let ghost fullp = spec_parse_fields(gtoks, i0 + 1);
        let mut vec: Vec<ParquetType> = Vec::new();
        loop
            invariant
                self.tokenizer.wf(),
                self.tokenizer.tokens == old(self).tokenizer.tokens,
                gtoks == token_views(self.tokenizer.tokens@),
                i0 == old(self).tokenizer.index as int,
                0 <= i0 < gtoks.len(),
                gtoks[i0] == "{"@,
                fullp == spec_parse_fields(gtoks, i0 + 1),
                self.tokenizer.index > i0,
                ({
                    let rest = spec_parse_fields(gtoks, self.tokenizer.index as int);
                    &&& (rest is Some <==> fullp is Some)
                    &&& (rest matches Some(p) ==> (fullp matches Some(q) && q.1 == p.1
                        && q.0.len() == vec@.len() + p.0.len() && (forall|k: int|
                        0 <= k < vec@.len() ==> matches_model(#[trigger] vec@[k], q.0[k])) && (
                    forall|k: int| 0 <= k < p.0.len() ==> q.0[vec@.len() + k] == #[trigger] p.0[
                        k
                    ])))
                }),
            decreases self.tokenizer.tokens@.len() - self.tokenizer.index,
        {
            let ghost idx = self.tokenizer.index as int;
            let nxt = self.tokenizer.next();
            match nxt {
                Some(value) => {
                    if str_eq(value, "}") {
                        proof {
                            assert(gtoks[idx] == "}"@);
                            assert(spec_parse_fields(gtoks, idx) == Some(
                                (Seq::<SchemaModel>::empty(), idx + 1),
                            ));
                        }
                        return Ok(vec);
                    }
                    self.tokenizer.backtrack();
                    let t = match self.add_type() {
                        Ok(t) => t,
                        Err(e) => {
                            proof {
                                assert(spec_parse_fields(gtoks, idx) is None);
                            }
                            return Err(e);
                        },
                    };
                    proof {
                        let p1 = spec_parse_one(gtoks, idx)->Some_0;
                        let j = self.tokenizer.index as int;
                        assert(j == p1.1);
                        assert(idx < j <= gtoks.len());
                        assert(spec_parse_fields(gtoks, idx) == (
                        match spec_parse_fields(gtoks, j) {
                            None => None,
                            Some(q) => Some((seq![p1.0] + q.0, q.1)),
                        }));
                        if spec_parse_fields(gtoks, j) is Some {
                            let pr = spec_parse_fields(gtoks, j)->Some_0;
                            let oldrest = spec_parse_fields(gtoks, idx)->Some_0;
                            assert(oldrest.0 =~= seq![p1.0] + pr.0);
                            let q = fullp->Some_0;
                            assert forall|k: int| 0 <= k < vec@.len() + 1 implies matches_model(
                                #[trigger] vec@.push(t)[k],
                                q.0[k],
                            ) by {
                                if k < vec@.len() {
                                } else {
                                    assert(q.0[vec@.len() as int] == oldrest.0[0]);
                                    assert(oldrest.0[0] == p1.0);
                                }
                            }
                            assert forall|k: int| 0 <= k < pr.0.len() implies q.0[vec@.len() + 1
                                + k] == #[trigger] pr.0[k] by {
                                assert(q.0[vec@.len() + (k + 1)] == oldrest.0[k + 1]);
                                assert(oldrest.0[k + 1] == pr.0[k]);
                            }
                        }
                    }
                    vec.push(t);
                },
                None => {
                    proof {
                        assert(spec_parse_fields(gtoks, idx) == Some(
                            (Seq::<SchemaModel>::empty(), idx),
                        ));
                    }
                    return Ok(vec);
                },
            }
        }
    }

    /// Parses one field: its repetition, then a group or a primitive.
    pub fn add_type(&mut self) -> (r: Result<ParquetType, ParquetError>)
        requires
            old(self).tokenizer.wf(),
        ensures
            final(self).tokenizer.wf(),
            final(self).tokenizer.tokens == old(self).tokenizer.tokens,
            r is Ok ==> final(self).tokenizer.index > old(self).tokenizer.index,
            ({
                let toks = token_views(old(self).tokenizer.tokens@);
                let i = old(self).tokenizer.index as int;
                &&& (r is Ok <==> spec_parse_one(toks, i) is Some)
                &&& (r matches Ok(t) ==> (spec_parse_one(toks, i) matches Some(p)
                    && matches_model(t, p.0) && final(self).tokenizer.index == p.1))
            }),
        decreases old(self).tokenizer.tokens@.len() - old(self).tokenizer.index, 1int,
    {
        let ghost gtoks = token_views(self.tokenizer.tokens@);
        let ghost i0 = self.tokenizer.index as int;
        let rep_tok = self.tokenizer.next();
        let repetition = match rep_tok {
            Some(v) => {
                let u = to_ascii_upper(v);
                repetition_from_str(u.as_str())?
            },
            None => {
                return Err(err1("Expected repetition, found None"));
            },
        };
        match self.tokenizer.next() {
            Some(type_string) => {
                let u = to_ascii_upper(type_string);
                if str_eq(u.as_str(), "GROUP") {
                    self.add_group_type(Some(repetition))
                } else {
                    let physical_type = type_from_str(u.as_str())?;
                    self.add_primitive_type(repetition, physical_type)
                }
            },
            None => Err(err1("Invalid type, could not extract next token")),
        }
    }

    /// Parses a group field: its name, an optional converted type, an
    /// optional id, then its children.
    #[verifier::rlimit(100)]
    pub fn add_group_type(&mut self, repetition: Option<Repetition>) -> (r: Result<
        ParquetType,
        ParquetError,
    >)
        requires
            old(self).tokenizer.wf(),
        ensures
            final(self).tokenizer.wf(),
            final(self).tokenizer.tokens == old(self).tokenizer.tokens,
            r is Ok ==> final(self).tokenizer.index > old(self).tokenizer.index,
            ({
                let toks = token_views(old(self).tokenizer.tokens@);
                let g = old(self).tokenizer.index as int;
                &&& (r is Ok <==> spec_parse_group(toks, g, repetition) is Some)
                &&& (r matches Ok(t) ==> (spec_parse_group(toks, g, repetition) matches Some(p)
                    && matches_model(t, p.0) && final(self).tokenizer.index == p.1))
            }),
        decreases old(self).tokenizer.tokens@.len() - old(self).tokenizer.index, 2int,
    {
        let ghost gtoks = token_views(self.tokenizer.tokens@);
        let ghost g0 = self.tokenizer.index as int;
        let name = match self.tokenizer.next() {
            Some(n) => n,
            None => {
                return Err(err1("Expected name, found None"));
            },
        };
        let converted_type: Option<GroupConvertedType> = match self.tokenizer.next() {
            Some(p) => {
                if str_eq(p, "(") {
                    let tpe = match self.tokenizer.next() {
                        Some(v) => {
                            let u = to_ascii_upper(v);
                            converted_group_from_str(u.as_str())?
                        },
                        None => {
                            return Err(err1("Expected converted type, found None"));
                        },
                    };
                    assert_token(self.tokenizer.next(), ")")?;
                    Some(tpe)
                } else {
                    self.tokenizer.backtrack();
                    None
                }
            },
            None => {
                self.tokenizer.backtrack();
                None
            },
        };
        let id: Option<i32> = match self.tokenizer.next() {
            Some(e) => {
                if str_eq(e, "=") {
                    match self.tokenizer.next() {
                        Some(v) => parse_decimal_i32(v),
                        None => None,
                    }
                } else {
                    self.tokenizer.backtrack();
                    None
                }
            },
            None => {
                self.tokenizer.backtrack();
                None
            },
        };
        proof {
            assert(spec_parse_group(gtoks, g0, repetition) == (
            match spec_parse_children(gtoks, self.tokenizer.index as int) {
                None => None,
                Some(p) => Some(
                    (
                        SchemaModel::Group {
                            name: gtoks[g0],
                            repetition: if repetition is Some {
                                repetition->0
                            } else {
                                Repetition::Optional
                            },
                            converted_type,
                            id,
                            fields: p.0,
                        },
                        p.1,
                    ),
                ),
            }));
        }
        let fields = match self.parse_child_types() {
            Ok(f) => f,
            Err(e) => {
                return Err(e);
            },
        };
        let node = ParquetType::from_converted(
            name.to_owned(),
            fields,
            repetition,
            converted_type,
            id,
        );
        proof {
            assert(matches_model(node, spec_parse_group(gtoks, g0, repetition)->Some_0.0));
        }
        Ok(node)
    }

    /// Parses a primitive field: a length for fixed-length byte arrays,
    /// the name, an optional converted type, an optional id, then `;`.
    #[verifier::rlimit(100)]
    pub fn add_primitive_type(&mut self, repetition: Repetition, physical_type: Type) -> (r:
        Result<ParquetType, ParquetError>)
        requires
            old(self).tokenizer.wf(),
        ensures
            final(self).tokenizer.wf(),
            final(self).tokenizer.tokens == old(self).tokenizer.tokens,
            r is Ok ==> final(self).tokenizer.index > old(self).tokenizer.index,
            ({
                let toks = token_views(old(self).tokenizer.tokens@);
                let i = old(self).tokenizer.index as int;
                &&& (r is Ok <==> spec_parse_primitive(toks, i, repetition, physical_type)
                    is Some)
                &&& (r matches Ok(t) ==> (spec_parse_primitive(toks, i, repetition, physical_type)
                    matches Some(p) && matches_model(t, p.0) && final(self).tokenizer.index
                    == p.1))
            }),
    {
        let ghost gtoks = token_views(self.tokenizer.tokens@);
        let ghost s0 = self.tokenizer.index as int;
        let mut length: i32 = -1;
        if matches!(physical_type, Type::FixedLenByteArray) {
            assert_token(self.tokenizer.next(), "(")?;
            length = parse_i32(
                self.tokenizer.next(),
                "Expected length for FIXED_LEN_BYTE_ARRAY, found None",
                "Failed to parse length for FIXED_LEN_BYTE_ARRAY",
            )?;
            assert_token(self.tokenizer.next(), ")")?;
        }
        let name = match self.tokenizer.next() {
            Some(n) => n,
            None => {
                return Err(err1("Expected name, found None"));
            },
        };
        let converted_type: Option<PrimitiveConvertedType> = match self.tokenizer.next() {
            Some(p) => {
                if str_eq(p, "(") {
                    let tpe = match self.tokenizer.next() {
                        Some(v) => {
                            let u = to_ascii_upper(v);
                            converted_primitive_from_str(u.as_str())?
                        },
                        None => {
                            return Err(err1("Expected converted type, found None"));
                        },
                    };
                    let tpe = match tpe {
                        ConvertedType::Decimal => {
                            assert_token(self.tokenizer.next(), "(")?;
                            let precision = parse_i32(
                                self.tokenizer.next(),
                                "Expected precision, found None",
                                "Failed to parse precision for DECIMAL type",
                            )?;
                            let scale = match self.tokenizer.next() {
                                Some(c) => {
                                    if str_eq(c, ",") {
                                        parse_i32(
                                            self.tokenizer.next(),
                                            "Expected scale, found None",
                                            "Failed to parse scale for DECIMAL type",
                                        )?
                                    } else {
                                        self.tokenizer.backtrack();
                                        0
                                    }
                                },
                                None => {
                                    self.tokenizer.backtrack();
                                    0
                                },
                            };
                            assert_token(self.tokenizer.next(), ")")?;
                            PrimitiveConvertedType::Decimal(precision, scale)
                        },
                        _ => converted_to_primitive_converted(&tpe)?,
                    };
                    assert_token(self.tokenizer.next(), ")")?;
                    Some(tpe)
                } else {
                    self.tokenizer.backtrack();
                    None
                }
            },
            None => {
                self.tokenizer.backtrack();
                None
            },
        };
        let id: Option<i32> = match self.tokenizer.next() {
            Some(e) => {
                if str_eq(e, "=") {
                    match self.tokenizer.next() {
                        Some(v) => parse_decimal_i32(v),
                        None => None,
                    }
                } else {
                    self.tokenizer.backtrack();
                    None
                }
            },
            None => {
                self.tokenizer.backtrack();
                None
            },
        };
        assert_token(self.tokenizer.next(), ";")?;
        let mapped = match physical_type {
            Type::Boolean => PhysicalType::Boolean,
            Type::Int32 => PhysicalType::Int32,
            Type::Int64 => PhysicalType::Int64,
            Type::Int96 => PhysicalType::Int96,
            Type::Float => PhysicalType::Float,
            Type::Double => PhysicalType::Double,
            Type::ByteArray => PhysicalType::ByteArray,
            Type::FixedLenByteArray => PhysicalType::FixedLenByteArray(length),
        };
        proof {
            assert(mapped == spec_map_physical(physical_type, length));
            assert(spec_parse_primitive(gtoks, s0, repetition, physical_type) == (
            if crate::schema::types::spec_primitive_ok(mapped, converted_type) {
                Some(
                    (
                        SchemaModel::Primitive {
                            name: name@,
                            repetition,
                            converted_type,
                            physical_type: mapped,
                            id,
                        },
                        self.tokenizer.index as int,
                    ),
                )
            } else {
                None
            }));
        }
        ParquetType::try_from_primitive(
            name.to_owned(),
            mapped,
            repetition,
            converted_type,
            id,
        )
    }
}

/// Parses a message type string into a schema tree. It fails with the
/// message's own error text when the string does not start with the
/// `message` keyword or ends before the root's name.
pub fn parse_message_type(message_type: &str) -> (r: Result<ParquetType, ParquetError>)
    ensures
        ({
            let toks = spec_tokenize(message_type@);
            &&& (toks.len() == 0 || toks[0] != "message"@) ==> (r is Err
                && r->Err_0.msg@ == "Message type does not start with 'message'"@)
            &&& (toks.len() == 1 && toks[0] == "message"@) ==> (r is Err
                && r->Err_0.msg@ == "Expected name, found None"@)
            &&& (r is Ok <==> spec_parse_message_at(toks, 0) is Some)
            &&& (r matches Ok(t) ==> (spec_parse_message_at(toks, 0) matches Some(p)
                && matches_model(t, p.0)))
        }),
{
    let tokenizer = Tokenizer::from_str(message_type);
    let mut parser = Parser { tokenizer };
    parser.parse_message_type()
}

} // verus!

verus! {

/// A schema tree as the parser's mathematical model: the same shape as
/// [`ParquetType`], with names as character sequences.
pub enum SchemaModel {
    Primitive {
        name: Seq<char>,
        repetition: Repetition,
        converted_type: Option<PrimitiveConvertedType>,
        physical_type: PhysicalType,
        id: Option<i32>,
    },
    Group {
        name: Seq<char>,
        repetition: Repetition,
        converted_type: Option<GroupConvertedType>,
        id: Option<i32>,
        fields: Seq<SchemaModel>,
    },
}

/// Whether a schema tree is exactly the one a model describes: the same
/// node kinds, names, repetitions, annotations, ids and children.
pub open spec fn matches_model(t: ParquetType, m: SchemaModel) -> bool
    decreases m,
{
    match m {
        SchemaModel::Primitive { name, repetition, converted_type, physical_type, id } => t
            matches ParquetType::PrimitiveType {
            field_info,
            converted_type: tc,
            physical_type: tp,
        } && field_info.name@ == name && field_info.repetition == repetition && field_info.id
            == id && tc == converted_type && tp == physical_type,
        SchemaModel::Group { name, repetition, converted_type, id, fields } => t
            matches ParquetType::GroupType {
            field_info,
            converted_type: tc,
            fields: tf,
        } && field_info.name@ == name && field_info.repetition == repetition && field_info.id
            == id && tc == converted_type && tf@.len() == fields.len() && (forall|i: int|
            0 <= i < fields.len() ==> matches_model(tf@[i], #[trigger] fields[i])),
    }
}

/// The physical type a primitive field ends up with: the parsed length
/// is attached to fixed-length byte arrays.
pub open spec fn spec_map_physical(t: Type, length: i32) -> PhysicalType {
    match t {
        Type::Boolean => PhysicalType::Boolean,
        Type::Int32 => PhysicalType::Int32,
        Type::Int64 => PhysicalType::Int64,
        Type::Int96 => PhysicalType::Int96,
        Type::Float => PhysicalType::Float,
        Type::Double => PhysicalType::Double,
        Type::ByteArray => PhysicalType::ByteArray,
        Type::FixedLenByteArray => PhysicalType::FixedLenByteArray(length),
    }
}

/// What parsing one group field gives, the name expected at `g`: the
/// name, an optional `(CONV)`, an optional `= id`, then the children.
/// Positions move exactly as the tokenizer does, stepping back one
/// token where the input ends at an optional part.
pub open spec fn spec_parse_group(
    toks: Seq<Seq<char>>,
    g: int,
    repetition: Option<Repetition>,
) -> Option<(SchemaModel, int)>
    decreases toks.len() - g, 1int,
{
    if g < 0 || g >= toks.len() {
        None
    } else {
        let name = toks[g];
        let p1 = g + 1;
        let conv_step: Option<(Option<GroupConvertedType>, int)> = if p1 < toks.len() && toks[p1]
            == "("@ {
            if p1 + 1 >= toks.len() {
                None
            } else {
                match spec_converted_group_from(spec_upper(toks[p1 + 1])) {
                    None => None,
                    Some(c) => if p1 + 2 < toks.len() && toks[p1 + 2] == ")"@ {
                        Some((Some(c), p1 + 3))
                    } else {
                        None
                    },
                }
            }
        } else if p1 < toks.len() {
            Some((None, p1))
        } else {
            Some((None, p1 - 1))
        };
        match conv_step {
            None => None,
            Some((converted, p2)) => {
                let id_step: (Option<i32>, int) = if p2 < toks.len() && toks[p2] == "="@ {
                    if p2 + 1 < toks.len() {
                        (spec_parse_i32(toks[p2 + 1]), p2 + 2)
                    } else {
                        (None, p2 + 1)
                    }
                } else if p2 < toks.len() {
                    (None, p2)
                } else {
                    (None, p2 - 1)
                };
                let id = id_step.0;
                let p3 = id_step.1;
                if p3 < toks.len() && toks[p3] == "{"@ {
                    match spec_parse_fields(toks, p3 + 1) {
                        None => None,
                        Some(p) => Some(
                            (
                                SchemaModel::Group {
                                    name,
                                    repetition: if repetition is Some {
                                        repetition->0
                                    } else {
                                        Repetition::Optional
                                    },
                                    converted_type: converted,
                                    id,
                                    fields: p.0,
                                },
                                p.1,
                            ),
                        ),
                    }
                } else {
                    None
                }
            },
        }
    }
}

/// What parsing one field gives: a repetition keyword, then a group or
/// a primitive, both matched case-insensitively.
pub open spec fn spec_parse_one(toks: Seq<Seq<char>>, i: int) -> Option<(SchemaModel, int)>
    decreases toks.len() - i, 0int,
{
    if i < 0 || i >= toks.len() {
        None
    } else {
        match spec_repetition_from(spec_upper(toks[i])) {
            None => None,
            Some(rep) => if i + 1 >= toks.len() {
                None
            } else {
                let u = spec_upper(toks[i + 1]);
                if u == "GROUP"@ {
                    spec_parse_group(toks, i + 2, Some(rep))
                } else {
                    match spec_type_from(u) {
                        None => None,
                        Some(pt) => spec_parse_primitive(toks, i + 2, rep, pt),
                    }
                }
            },
        }
    }
}

/// What parsing a field list gives, after its `{` was consumed: fields
/// until a `}` or the end of the input.
pub open spec fn spec_parse_fields(toks: Seq<Seq<char>>, i: int) -> Option<(Seq<SchemaModel>, int)>
    decreases toks.len() - i, 1int,
{
    if i < 0 {
        None
    } else if i >= toks.len() {
        Some((Seq::empty(), i))
    } else if toks[i] == "}"@ {
        Some((Seq::empty(), i + 1))
    } else {
        match spec_parse_one(toks, i) {
            None => None,
            Some(p) => if p.1 <= i || p.1 > toks.len() {
                None
            } else {
                match spec_parse_fields(toks, p.1) {
                    None => None,
                    Some(q) => Some((seq![p.0] + q.0, q.1)),
                }
            },
        }
    }
}

/// What parsing a primitive field gives, starting after the repetition
/// and type keywords: a `(length)` for fixed-length byte arrays, the
/// name, an optional converted type with the decimal special case, an
/// optional `= id`, the terminating `;`, then the validation that
/// `try_from_primitive` applies.
pub open spec fn spec_parse_primitive(
    toks: Seq<Seq<char>>,
    s: int,
    repetition: Repetition,
    physical_type: Type,
) -> Option<(SchemaModel, int)> {
    if s < 0 {
        None
    } else {
        let len_step: Option<(i32, int)> = if physical_type == Type::FixedLenByteArray {
            if s < toks.len() && toks[s] == "("@ {
                if s + 1 >= toks.len() {
                    None
                } else {
                    match spec_parse_i32(toks[s + 1]) {
                        None => None,
                        Some(l) => if s + 2 < toks.len() && toks[s + 2] == ")"@ {
                            Some((l, s + 3))
                        } else {
                            None
                        },
                    }
                }
            } else {
                None
            }
        } else {
            Some((-1i32, s))
        };
        match len_step {
            None => None,
            Some((length, s1)) => {
                if s1 >= toks.len() {
                    None
                } else {
                    let name = toks[s1];
                    let p1 = s1 + 1;
                    let conv_step: Option<(Option<PrimitiveConvertedType>, int)> = if p1
                        < toks.len() && toks[p1] == "("@ {
                        if p1 + 1 >= toks.len() {
                            None
                        } else {
                            match spec_converted_primitive_from(spec_upper(toks[p1 + 1])) {
                                None => None,
                                Some(ct) => {
                                    let inner: Option<(PrimitiveConvertedType, int)> = if ct
                                        == ConvertedType::Decimal {
                                        if !(p1 + 2 < toks.len() && toks[p1 + 2] == "("@) {
                                            None
                                        } else if p1 + 3 >= toks.len() {
                                            None
                                        } else {
                                            match spec_parse_i32(toks[p1 + 3]) {
                                                None => None,
                                                Some(precision) => {
                                                    // at the end of the input the tokenizer
                                                    // steps back onto the precision digits,
                                                    // which can never be the expected `)`
                                                    let sc: Option<(i32, int)> = if p1 + 4
                                                        < toks.len() && toks[p1 + 4] == ","@ {
                                                        if p1 + 5 >= toks.len() {
                                                            None
                                                        } else {
                                                            match spec_parse_i32(toks[p1 + 5]) {
                                                                None => None,
                                                                Some(sv) => Some((sv, p1 + 6)),
                                                            }
                                                        }
                                                    } else if p1 + 4 < toks.len() {
                                                        Some((0, p1 + 4))
                                                    } else {
                                                        None
                                                    };
                                                    match sc {
                                                        None => None,
                                                        Some((scale, q0)) => if q0 < toks.len()
                                                            && toks[q0] == ")"@ {
                                                            Some(
                                                                (
                                                                    PrimitiveConvertedType::Decimal(
                                                                        precision,
                                                                        scale,
                                                                    ),
                                                                    q0 + 1,
                                                                ),
                                                            )
                                                        } else {
                                                            None
                                                        },
                                                    }
                                                },
                                            }
                                        }
                                    } else {
                                        match crate::schema::types::spec_primitive_converted(ct) {
                                            None => None,
                                            Some(pc) => Some((pc, p1 + 2)),
                                        }
                                    };
                                    match inner {
                                        None => None,
                                        Some((pc, q1)) => if q1 < toks.len() && toks[q1]
                                            == ")"@ {
                                            Some((Some(pc), q1 + 1))
                                        } else {
                                            None
                                        },
                                    }
                                },
                            }
                        }
                    } else if p1 < toks.len() {
                        Some((None, p1))
                    } else {
                        Some((None, p1 - 1))
                    };
                    match conv_step {
                        None => None,
                        Some((converted, p2)) => {
                            let id_step: (Option<i32>, int) = if p2 < toks.len() && toks[p2]
                                == "="@ {
                                if p2 + 1 < toks.len() {
                                    (spec_parse_i32(toks[p2 + 1]), p2 + 2)
                                } else {
                                    (None, p2 + 1)
                                }
                            } else if p2 < toks.len() {
                                (None, p2)
                            } else {
                                (None, p2 - 1)
                            };
                            let id = id_step.0;
                            let p3 = id_step.1;
                            if p3 < toks.len() && toks[p3] == ";"@ {
                                let phys = spec_map_physical(physical_type, length);
                                if crate::schema::types::spec_primitive_ok(phys, converted) {
                                    Some(
                                        (
                                            SchemaModel::Primitive {
                                                name,
                                                repetition,
                                                converted_type: converted,
                                                physical_type: phys,
                                                id,
                                            },
                                            p3 + 1,
                                        ),
                                    )
                                } else {
                                    None
                                }
                            } else {
                                None
                            }
                        },
                    }
                }
            },
        }
    }
}

/// What parsing a child list gives: a `{`, then the fields.
pub open spec fn spec_parse_children(toks: Seq<Seq<char>>, i: int) -> Option<(
    Seq<SchemaModel>,
    int,
)> {
    if i < 0 || i >= toks.len() || toks[i] != "{"@ {
        None
    } else {
        spec_parse_fields(toks, i + 1)
    }
}

/// What parsing a message type gives, starting at token `i`: the
/// `message` keyword, the root's name, then the children. The root is a
/// group with the default optional repetition and no annotation.
pub open spec fn spec_parse_message_at(toks: Seq<Seq<char>>, i: int) -> Option<(SchemaModel, int)> {
    if i < 0 || i >= toks.len() || toks[i] != "message"@ {
        None
    } else if i + 1 >= toks.len() {
        None
    } else {
        match spec_parse_children(toks, i + 2) {
            None => None,
            Some(p) => Some(
                (
                    SchemaModel::Group {
                        name: toks[i + 1],
                        repetition: Repetition::Optional,
                        converted_type: None,
                        id: None,
                        fields: p.0,
                    },
                    p.1,
                ),
            ),
        }
    }
}

} // verus!
