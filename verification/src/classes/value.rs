//! `BlockValue`: the only kind of value that may sit in a block's `metadata` or `content`.
//!
//! A closed enum rather than an untyped bag: every `match` on it is exhaustive, and the typed
//! accessors return `Result` instead of leaving unchecked unwraps in the deserializers.
//!
//! A float is held as the bit pattern of its `f64` (`f64::to_bits`), and the four domain values
//! (date, currency, SFDR article, financial instrument) as the text of their canonical form
//! (`"2024-03-01"`, `"EUR"`, ...): the library carries them, it never computes with them.

use vstd::prelude::*;

use crate::promise::{Promise, PromiseView};
use crate::text::{str_eq, string_of};

verus! {

/// A block value as specifications see it.
pub enum BlockValueView {
    Null,
    Bool(bool),
    Int(i64),
    Float(u64),
    Str(Seq<char>),
    Date(Seq<char>),
    Currency(Seq<char>),
    SfdrArticle(Seq<char>),
    FinancialInstrument(Seq<char>),
    Promise(PromiseView),
    List(Seq<BlockValueView>),
    SetOf(Seq<BlockValueView>),
    MapOf(Seq<(Seq<char>, BlockValueView)>),
}

/// A heterogeneous but typed value, admissible in a block's `metadata` and `content`.
///
/// `SetOf` holds the elements of a set in its iteration order, `MapOf` the entries of a map in key
/// order.
#[derive(Debug, PartialEq, Eq, PartialOrd, Ord, Hash)]
pub enum BlockValue {
    Null,
    Bool(bool),
    Int(i64),
    Float(u64),
    Str(String),
    Date(String),
    Currency(String),
    SfdrArticle(String),
    FinancialInstrument(String),
    Promise(Promise),
    List(Vec<BlockValue>),
    SetOf(Vec<BlockValue>),
    MapOf(Vec<(String, BlockValue)>),
}

pub open spec fn value_view(v: BlockValue) -> BlockValueView
    decreases v,
{
    match v {
        BlockValue::Null => BlockValueView::Null,
        BlockValue::Bool(b) => BlockValueView::Bool(b),
        BlockValue::Int(i) => BlockValueView::Int(i),
        BlockValue::Float(f) => BlockValueView::Float(f),
        BlockValue::Str(s) => BlockValueView::Str(s@),
        BlockValue::Date(s) => BlockValueView::Date(s@),
        BlockValue::Currency(s) => BlockValueView::Currency(s@),
        BlockValue::SfdrArticle(s) => BlockValueView::SfdrArticle(s@),
        BlockValue::FinancialInstrument(s) => BlockValueView::FinancialInstrument(s@),
        BlockValue::Promise(p) => BlockValueView::Promise(p@),
        BlockValue::List(items) => BlockValueView::List(
            Seq::new(
                items.len() as nat,
                |i: int|
                    if 0 <= i < items.len() {
                        value_view(items[i])
                    } else {
                        BlockValueView::Null
                    },
            ),
        ),
        BlockValue::SetOf(items) => BlockValueView::SetOf(
            Seq::new(
                items.len() as nat,
                |i: int|
                    if 0 <= i < items.len() {
                        value_view(items[i])
                    } else {
                        BlockValueView::Null
                    },
            ),
        ),
        BlockValue::MapOf(entries) => BlockValueView::MapOf(
            Seq::new(
                entries.len() as nat,
                |i: int|
                    if 0 <= i < entries.len() {
                        (entries[i].0@, value_view(entries[i].1))
                    } else {
                        (Seq::empty(), BlockValueView::Null)
                    },
            ),
        ),
    }
}

impl View for BlockValue {
    type V = BlockValueView;

    open spec fn view(&self) -> BlockValueView {
        value_view(*self)
    }
}

/// The name of a value's variant, identical to the value of the serialized `kind` tag.
pub open spec fn kind_name(v: BlockValueView) -> Seq<char> {
    match v {
        BlockValueView::Null => "null"@,
        BlockValueView::Bool(_) => "bool"@,
        BlockValueView::Int(_) => "int"@,
        BlockValueView::Float(_) => "float"@,
        BlockValueView::Str(_) => "str"@,
        BlockValueView::Date(_) => "date"@,
        BlockValueView::Currency(_) => "currency"@,
        BlockValueView::SfdrArticle(_) => "sfdr_article"@,
        BlockValueView::FinancialInstrument(_) => "financial_instrument"@,
        BlockValueView::Promise(_) => "promise"@,
        BlockValueView::List(_) => "list"@,
        BlockValueView::SetOf(_) => "set"@,
        BlockValueView::MapOf(_) => "map"@,
    }
}

/// The first entry of `entries` whose key is `key`.
pub open spec fn entry_index(entries: Seq<(Seq<char>, BlockValueView)>, key: Seq<char>) -> int
    decreases entries.len(),
{
    if entries.len() == 0 {
        -1
    } else if entries[0].0 == key {
        0
    } else {
        let rest = entry_index(entries.drop_first(), key);
        if rest < 0 {
            -1
        } else {
            rest + 1
        }
    }
}

/// What `get` reads out of a value: the entry under `key` of a map, `None` for a missing key or a
/// value that is not a map.
pub open spec fn get_spec(v: BlockValueView, key: Seq<char>) -> Option<BlockValueView> {
    match v {
        BlockValueView::MapOf(entries) => {
            let i = entry_index(entries, key);
            if i < 0 {
                None
            } else {
                Some(entries[i].1)
            }
        },
        _ => None,
    }
}

/// Failures of reading a `BlockValue` as a specific type, as specifications see them.
pub enum BlockValueErrorView {
    TypeMismatch { field: Seq<char>, expected: Seq<char>, found: Seq<char> },
    MissingField { field: Seq<char> },
    NotAMap { field: Seq<char>, found: Seq<char> },
}

pub open spec fn type_mismatch(field: Seq<char>, expected: Seq<char>, found: Seq<char>) -> BlockValueErrorView {
    BlockValueErrorView::TypeMismatch { field, expected, found }
}

/// Failures of reading a `BlockValue` as a specific type.
///
/// `field` is always the name the caller was trying to read.
#[derive(Debug, PartialEq, Eq)]
pub enum BlockValueError {
    TypeMismatch { field: String, expected: &'static str, found: &'static str },
    MissingField { field: String },
    NotAMap { field: String, found: &'static str },
}

impl View for BlockValueError {
    type V = BlockValueErrorView;

    open spec fn view(&self) -> BlockValueErrorView {
        match self {
            BlockValueError::TypeMismatch { field, expected, found } => BlockValueErrorView::TypeMismatch {
                field: field@,
                expected: expected@,
                found: found@,
            },
            BlockValueError::MissingField { field } => BlockValueErrorView::MissingField { field: field@ },
            BlockValueError::NotAMap { field, found } => BlockValueErrorView::NotAMap {
                field: field@,
                found: found@,
            },
        }
    }
}

pub open spec fn block_value_error_message(e: BlockValueErrorView) -> Seq<char> {
    match e {
        BlockValueErrorView::TypeMismatch { field, expected, found } => "field '"@ + field + "' expected "@
            + expected + ", found "@ + found,
        BlockValueErrorView::MissingField { field } => "missing field '"@ + field + "'"@,
        BlockValueErrorView::NotAMap { field, found } => "cannot read field '"@ + field
            + "': the value is a "@ + found + ", not a map"@,
    }
}

impl Clone for BlockValueError {
    fn clone(&self) -> (r: Self)
        ensures
            r@ == self@,
    {
        match self {
            BlockValueError::TypeMismatch { field, expected, found } => BlockValueError::TypeMismatch {
                field: field.clone(),
                expected,
                found,
            },
            BlockValueError::MissingField { field } => BlockValueError::MissingField { field: field.clone() },
            BlockValueError::NotAMap { field, found } => BlockValueError::NotAMap { field: field.clone(), found },
        }
    }
}

impl BlockValueError {
    /// The human-readable message of the error.
    pub fn to_string(&self) -> (r: String)
        ensures
            r@ == block_value_error_message(self@),
    {
        match self {
            BlockValueError::TypeMismatch { field, expected, found } => {
                let mut out = string_of("field '");
                out.append(field.as_str());
                out.append("' expected ");
                out.append(expected);
                out.append(", found ");
                out.append(found);
                out
            },
            BlockValueError::MissingField { field } => {
                let mut out = string_of("missing field '");
                out.append(field.as_str());
                out.append("'");
                out
            },
            BlockValueError::NotAMap { field, found } => {
                let mut out = string_of("cannot read field '");
                out.append(field.as_str());
                out.append("': the value is a ");
                out.append(found);
                out.append(", not a map");
                out
            },
        }
    }
}

impl Clone for BlockValue {
    fn clone(&self) -> (r: Self)
        ensures
            r@ == self@,
    {
        self.deep_clone()
    }
}

impl BlockValue {
    /// The variant's name, identical to the value of the serialized `kind` tag.
    pub fn kind(&self) -> (r: &'static str)
        ensures
            r@ == kind_name(self@),
    {
        match self {
            BlockValue::Null => "null",
            BlockValue::Bool(_) => "bool",
            BlockValue::Int(_) => "int",
            BlockValue::Float(_) => "float",
            BlockValue::Str(_) => "str",
            BlockValue::Date(_) => "date",
            BlockValue::Currency(_) => "currency",
            BlockValue::SfdrArticle(_) => "sfdr_article",
            BlockValue::FinancialInstrument(_) => "financial_instrument",
            BlockValue::Promise(_) => "promise",
            BlockValue::List(_) => "list",
            BlockValue::SetOf(_) => "set",
            BlockValue::MapOf(_) => "map",
        }
    }

    /// `true` only for `Null`: in a resolution map it counts as an absent value.
    pub fn is_null(&self) -> (r: bool)
        ensures
            r == (self@ is Null),
    {
        match self {
            BlockValue::Null => true,
            _ => false,
        }
    }

    /// `true` if the value is still a promise waiting to be resolved.
    pub fn is_promise(&self) -> (r: bool)
        ensures
            r == (self@ is Promise),
    {
        match self {
            BlockValue::Promise(_) => true,
            _ => false,
        }
    }

    /// The value if this is a `Bool`, `None` otherwise.
    pub fn as_bool(&self) -> (r: Option<bool>)
        ensures
            r.is_some() == (self@ is Bool),
            r matches Some(b) ==> b == self@->Bool_0,
    {
        match self {
            BlockValue::Bool(v) => Some(*v),
            _ => None,
        }
    }

    /// Like `as_bool`, but a value of another kind is an error naming `field`.
    pub fn bool_or_fail(&self, field: &str) -> (r: Result<bool, BlockValueError>)
        ensures
            r.is_ok() == (self@ is Bool),
            r matches Ok(b) ==> b == self@->Bool_0,
            r matches Err(e) ==> e@ == type_mismatch(field@, "bool"@, kind_name(self@)),
    {
        match self.as_bool() {
            Some(v) => Ok(v),
            None => Err(
                BlockValueError::TypeMismatch {
                    field: string_of(field),
                    expected: "bool",
                    found: self.kind(),
                },
            ),
        }
    }

    /// The value if this is a `Int`, `None` otherwise.
    pub fn as_int(&self) -> (r: Option<i64>)
        ensures
            r.is_some() == (self@ is Int),
            r matches Some(b) ==> b == self@->Int_0,
    {
        match self {
            BlockValue::Int(v) => Some(*v),
            _ => None,
        }
    }

    /// Like `as_int`, but a value of another kind is an error naming `field`.
    pub fn int_or_fail(&self, field: &str) -> (r: Result<i64, BlockValueError>)
        ensures
            r.is_ok() == (self@ is Int),
            r matches Ok(b) ==> b == self@->Int_0,
            r matches Err(e) ==> e@ == type_mismatch(field@, "int"@, kind_name(self@)),
    {
        match self.as_int() {
            Some(v) => Ok(v),
            None => Err(
                BlockValueError::TypeMismatch {
                    field: string_of(field),
                    expected: "int",
                    found: self.kind(),
                },
            ),
        }
    }

    /// The value if this is a `Float`, `None` otherwise.
    pub fn as_float(&self) -> (r: Option<u64>)
        ensures
            r.is_some() == (self@ is Float),
            r matches Some(b) ==> b == self@->Float_0,
    {
        match self {
            BlockValue::Float(v) => Some(*v),
            _ => None,
        }
    }

    /// Like `as_float`, but a value of another kind is an error naming `field`.
    pub fn float_or_fail(&self, field: &str) -> (r: Result<u64, BlockValueError>)
        ensures
            r.is_ok() == (self@ is Float),
            r matches Ok(b) ==> b == self@->Float_0,
            r matches Err(e) ==> e@ == type_mismatch(field@, "float"@, kind_name(self@)),
    {
        match self.as_float() {
            Some(v) => Ok(v),
            None => Err(
                BlockValueError::TypeMismatch {
                    field: string_of(field),
                    expected: "float",
                    found: self.kind(),
                },
            ),
        }
    }

    /// The value if this is a `Str`, `None` otherwise.
    pub fn as_str(&self) -> (r: Option<&str>)
        ensures
            r.is_some() == (self@ is Str),
            r matches Some(b) ==> b@ == self@->Str_0,
    {
        match self {
            BlockValue::Str(v) => Some(v.as_str()),
            _ => None,
        }
    }

    /// Like `as_str`, but a value of another kind is an error naming `field`.
    pub fn str_or_fail(&self, field: &str) -> (r: Result<&str, BlockValueError>)
        ensures
            r.is_ok() == (self@ is Str),
            r matches Ok(b) ==> b@ == self@->Str_0,
            r matches Err(e) ==> e@ == type_mismatch(field@, "str"@, kind_name(self@)),
    {
        match self.as_str() {
            Some(v) => Ok(v),
            None => Err(
                BlockValueError::TypeMismatch {
                    field: string_of(field),
                    expected: "str",
                    found: self.kind(),
                },
            ),
        }
    }

    /// The value if this is a `Date`, `None` otherwise.
    pub fn as_date(&self) -> (r: Option<&str>)
        ensures
            r.is_some() == (self@ is Date),
            r matches Some(b) ==> b@ == self@->Date_0,
    {
        match self {
            BlockValue::Date(v) => Some(v.as_str()),
            _ => None,
        }
    }

    /// Like `as_date`, but a value of another kind is an error naming `field`.
    pub fn date_or_fail(&self, field: &str) -> (r: Result<&str, BlockValueError>)
        ensures
            r.is_ok() == (self@ is Date),
            r matches Ok(b) ==> b@ == self@->Date_0,
            r matches Err(e) ==> e@ == type_mismatch(field@, "date"@, kind_name(self@)),
    {
        match self.as_date() {
            Some(v) => Ok(v),
            None => Err(
                BlockValueError::TypeMismatch {
                    field: string_of(field),
                    expected: "date",
                    found: self.kind(),
                },
            ),
        }
    }

    /// The value if this is a `Currency`, `None` otherwise.
    pub fn as_currency(&self) -> (r: Option<&str>)
        ensures
            r.is_some() == (self@ is Currency),
            r matches Some(b) ==> b@ == self@->Currency_0,
    {
        match self {
            BlockValue::Currency(v) => Some(v.as_str()),
            _ => None,
        }
    }

    /// Like `as_currency`, but a value of another kind is an error naming `field`.
    pub fn currency_or_fail(&self, field: &str) -> (r: Result<&str, BlockValueError>)
        ensures
            r.is_ok() == (self@ is Currency),
            r matches Ok(b) ==> b@ == self@->Currency_0,
            r matches Err(e) ==> e@ == type_mismatch(field@, "currency"@, kind_name(self@)),
    {
        match self.as_currency() {
            Some(v) => Ok(v),
            None => Err(
                BlockValueError::TypeMismatch {
                    field: string_of(field),
                    expected: "currency",
                    found: self.kind(),
                },
            ),
        }
    }

    /// The value if this is a `SfdrArticle`, `None` otherwise.
    pub fn as_sfdr_article(&self) -> (r: Option<&str>)
        ensures
            r.is_some() == (self@ is SfdrArticle),
            r matches Some(b) ==> b@ == self@->SfdrArticle_0,
    {
        match self {
            BlockValue::SfdrArticle(v) => Some(v.as_str()),
            _ => None,
        }
    }

    /// Like `as_sfdr_article`, but a value of another kind is an error naming `field`.
    pub fn sfdr_article_or_fail(&self, field: &str) -> (r: Result<&str, BlockValueError>)
        ensures
            r.is_ok() == (self@ is SfdrArticle),
            r matches Ok(b) ==> b@ == self@->SfdrArticle_0,
            r matches Err(e) ==> e@ == type_mismatch(field@, "sfdr_article"@, kind_name(self@)),
    {
        match self.as_sfdr_article() {
            Some(v) => Ok(v),
            None => Err(
                BlockValueError::TypeMismatch {
                    field: string_of(field),
                    expected: "sfdr_article",
                    found: self.kind(),
                },
            ),
        }
    }

    /// The value if this is a `FinancialInstrument`, `None` otherwise.
    pub fn as_financial_instrument(&self) -> (r: Option<&str>)
        ensures
            r.is_some() == (self@ is FinancialInstrument),
            r matches Some(b) ==> b@ == self@->FinancialInstrument_0,
    {
        match self {
            BlockValue::FinancialInstrument(v) => Some(v.as_str()),
            _ => None,
        }
    }

    /// Like `as_financial_instrument`, but a value of another kind is an error naming `field`.
    pub fn financial_instrument_or_fail(&self, field: &str) -> (r: Result<&str, BlockValueError>)
        ensures
            r.is_ok() == (self@ is FinancialInstrument),
            r matches Ok(b) ==> b@ == self@->FinancialInstrument_0,
            r matches Err(e) ==> e@ == type_mismatch(field@, "financial_instrument"@, kind_name(self@)),
    {
        match self.as_financial_instrument() {
            Some(v) => Ok(v),
            None => Err(
                BlockValueError::TypeMismatch {
                    field: string_of(field),
                    expected: "financial_instrument",
                    found: self.kind(),
                },
            ),
        }
    }

    /// The value if this is a `Promise`, `None` otherwise.
    pub fn as_promise(&self) -> (r: Option<&Promise>)
        ensures
            r.is_some() == (self@ is Promise),
            r matches Some(b) ==> b@ == self@->Promise_0,
    {
        match self {
            BlockValue::Promise(v) => Some(v),
            _ => None,
        }
    }

    /// Like `as_promise`, but a value of another kind is an error naming `field`.
    pub fn promise_or_fail(&self, field: &str) -> (r: Result<&Promise, BlockValueError>)
        ensures
            r.is_ok() == (self@ is Promise),
            r matches Ok(b) ==> b@ == self@->Promise_0,
            r matches Err(e) ==> e@ == type_mismatch(field@, "promise"@, kind_name(self@)),
    {
        match self.as_promise() {
            Some(v) => Ok(v),
            None => Err(
                BlockValueError::TypeMismatch {
                    field: string_of(field),
                    expected: "promise",
                    found: self.kind(),
                },
            ),
        }
    }

    /// The contents if this is a `List`, `None` otherwise.
    pub fn as_list(&self) -> (r: Option<&Vec<BlockValue>>)
        ensures
            r.is_some() == (self@ is List),
            r matches Some(b) ==> self@ == value_view(BlockValue::List(*b)),
    {
        match self {
            BlockValue::List(v) => Some(v),
            _ => None,
        }
    }

    /// Like `as_list`, but a value of another kind is an error naming `field`.
    pub fn list_or_fail(&self, field: &str) -> (r: Result<&Vec<BlockValue>, BlockValueError>)
        ensures
            r.is_ok() == (self@ is List),
            r matches Ok(b) ==> self@ == value_view(BlockValue::List(*b)),
            r matches Err(e) ==> e@ == type_mismatch(field@, "list"@, kind_name(self@)),
    {
        match self.as_list() {
            Some(v) => Ok(v),
            None => Err(
                BlockValueError::TypeMismatch {
                    field: string_of(field),
                    expected: "list",
                    found: self.kind(),
                },
            ),
        }
    }

    /// The contents if this is a `SetOf`, `None` otherwise.
    pub fn as_set(&self) -> (r: Option<&Vec<BlockValue>>)
        ensures
            r.is_some() == (self@ is SetOf),
            r matches Some(b) ==> self@ == value_view(BlockValue::SetOf(*b)),
    {
        match self {
            BlockValue::SetOf(v) => Some(v),
            _ => None,
        }
    }

    /// Like `as_set`, but a value of another kind is an error naming `field`.
    pub fn set_or_fail(&self, field: &str) -> (r: Result<&Vec<BlockValue>, BlockValueError>)
        ensures
            r.is_ok() == (self@ is SetOf),
            r matches Ok(b) ==> self@ == value_view(BlockValue::SetOf(*b)),
            r matches Err(e) ==> e@ == type_mismatch(field@, "set"@, kind_name(self@)),
    {
        match self.as_set() {
            Some(v) => Ok(v),
            None => Err(
                BlockValueError::TypeMismatch {
                    field: string_of(field),
                    expected: "set",
                    found: self.kind(),
                },
            ),
        }
    }

    /// The contents if this is a `MapOf`, `None` otherwise.
    pub fn as_map(&self) -> (r: Option<&Vec<(String, BlockValue)>>)
        ensures
            r.is_some() == (self@ is MapOf),
            r matches Some(b) ==> self@ == value_view(BlockValue::MapOf(*b)),
    {
        match self {
            BlockValue::MapOf(v) => Some(v),
            _ => None,
        }
    }

    /// Like `as_map`, but a value of another kind is an error naming `field`.
    pub fn map_or_fail(&self, field: &str) -> (r: Result<&Vec<(String, BlockValue)>, BlockValueError>)
        ensures
            r.is_ok() == (self@ is MapOf),
            r matches Ok(b) ==> self@ == value_view(BlockValue::MapOf(*b)),
            r matches Err(e) ==> e@ == type_mismatch(field@, "map"@, kind_name(self@)),
    {
        match self.as_map() {
            Some(v) => Ok(v),
            None => Err(
                BlockValueError::TypeMismatch {
                    field: string_of(field),
                    expected: "map",
                    found: self.kind(),
                },
            ),
        }
    }

    /// Reads `field` out of a map: `None` both for a missing key and for a value that is not a
    /// map.
    pub fn get(&self, field: &str) -> (r: Option<&BlockValue>)
        ensures
            r.is_some() == get_spec(self@, field@).is_some(),
            r matches Some(v) ==> Some(v@) == get_spec(self@, field@),
    {
        match self {
            BlockValue::MapOf(entries) => {
                let mut i: usize = 0;
                while i < entries.len()
                    invariant
                        i <= entries.len(),
                        self@ == value_view(BlockValue::MapOf(*entries)),
                        forall|j: int| 0 <= j < i ==> #[trigger] entries[j].0@ != field@,
                    decreases entries.len() - i,
                {
                    if str_eq(entries[i].0.as_str(), field) {
                        proof {
                            lemma_entry_index_first(self@->MapOf_0, field@, i as int);
                        }
                        return Some(&entries[i].1);
                    }
                    i = i + 1;
                }
                proof {
                    lemma_entry_index_absent(self@->MapOf_0, field@);
                }
                None
            },
            _ => None,
        }
    }

    /// Like `get`, but tells the two failures apart: `NotAMap` for a value that is not a map,
    /// `MissingField` for a missing key.
    pub fn get_or_fail(&self, field: &str) -> (r: Result<&BlockValue, BlockValueError>)
        ensures
            r.is_ok() == get_spec(self@, field@).is_some(),
            r matches Ok(v) ==> Some(v@) == get_spec(self@, field@),
            r matches Err(e) ==> e@ == (if self@ is MapOf {
                BlockValueErrorView::MissingField { field: field@ }
            } else {
                BlockValueErrorView::NotAMap { field: field@, found: kind_name(self@) }
            }),
    {
        if self.as_map().is_none() {
            return Err(BlockValueError::NotAMap { field: string_of(field), found: self.kind() });
        }
        match self.get(field) {
            Some(v) => Ok(v),
            None => Err(BlockValueError::MissingField { field: string_of(field) }),
        }
    }

    /// A copy equal to `self` in every nested value.
    pub fn deep_clone(&self) -> (r: BlockValue)
        ensures
            r@ == self@,
        decreases self,
    {
        match self {
            BlockValue::Null => BlockValue::Null,
            BlockValue::Bool(b) => BlockValue::Bool(*b),
            BlockValue::Int(i) => BlockValue::Int(*i),
            BlockValue::Float(f) => BlockValue::Float(*f),
            BlockValue::Str(s) => BlockValue::Str(s.clone()),
            BlockValue::Date(s) => BlockValue::Date(s.clone()),
            BlockValue::Currency(s) => BlockValue::Currency(s.clone()),
            BlockValue::SfdrArticle(s) => BlockValue::SfdrArticle(s.clone()),
            BlockValue::FinancialInstrument(s) => BlockValue::FinancialInstrument(s.clone()),
            BlockValue::Promise(p) => BlockValue::Promise(p.clone()),
            BlockValue::List(items) => {
                let r = BlockValue::List(clone_values(items));
                assert(value_view(r)->List_0 =~= value_view(*self)->List_0);
                r
            },
            BlockValue::SetOf(items) => {
                let r = BlockValue::SetOf(clone_values(items));
                assert(value_view(r)->SetOf_0 =~= value_view(*self)->SetOf_0);
                r
            },
            BlockValue::MapOf(entries) => {
                let mut copy: Vec<(String, BlockValue)> = Vec::new();
                let mut i: usize = 0;
                assert(decreases_to!(*self => *entries));
                while i < entries.len()
                    invariant
                        decreases_to!(*self => *entries),
                        i <= entries.len(),
                        copy.len() == i,
                        forall|j: int|
                            0 <= j < i ==> #[trigger] copy[j].0@ == entries[j].0@ && copy[j].1@
                                == entries[j].1@,
                    decreases entries.len() - i,
                {
                    proof {
                        assert(decreases_to!(*entries => entries[i as int]));
                        assert(decreases_to!(entries[i as int] => entries[i as int].1));
                        assert(decreases_to!(*self => entries[i as int].1));
                    }
                    let value = entries[i].1.deep_clone();
                    copy.push((entries[i].0.clone(), value));
                    i = i + 1;
                }
                let r = BlockValue::MapOf(copy);
                assert(r@ == self@) by {
                    assert(value_view(r)->MapOf_0 =~= value_view(*self)->MapOf_0);
                }
                r
            },
        }
    }
}

/// `entry_index` finds the first entry with the key.
pub proof fn lemma_entry_index_first(entries: Seq<(Seq<char>, BlockValueView)>, key: Seq<char>, i: int)
    requires
        0 <= i < entries.len(),
        entries[i].0 == key,
        forall|j: int| 0 <= j < i ==> #[trigger] entries[j].0 != key,
    ensures
        entry_index(entries, key) == i,
    decreases i,
{
    if i > 0 {
        assert(entries[0].0 != key);
        lemma_entry_index_first(entries.drop_first(), key, i - 1);
    }
}

/// `entry_index` is negative when no entry has the key.
pub proof fn lemma_entry_index_absent(entries: Seq<(Seq<char>, BlockValueView)>, key: Seq<char>)
    requires
        forall|j: int| 0 <= j < entries.len() ==> #[trigger] entries[j].0 != key,
    ensures
        entry_index(entries, key) < 0,
    decreases entries.len(),
{
    if entries.len() > 0 {
        assert(entries[0].0 != key);
        lemma_entry_index_absent(entries.drop_first(), key);
    }
}

/// Copies of every value of `items`, in order.
pub fn clone_values(items: &Vec<BlockValue>) -> (r: Vec<BlockValue>)
    ensures
        r.len() == items.len(),
        forall|j: int| 0 <= j < items.len() ==> value_view(#[trigger] r[j]) == value_view(items[j]),
    decreases items,
{
    let mut copy: Vec<BlockValue> = Vec::new();
    let mut i: usize = 0;
    while i < items.len()
        invariant
            i <= items.len(),
            copy.len() == i,
            forall|j: int| 0 <= j < i ==> value_view(#[trigger] copy[j]) == value_view(items[j]),
        decreases items.len() - i,
    {
        proof {
            assert(decreases_to!(*items => items[i as int]));
        }
        copy.push(items[i].deep_clone());
        i = i + 1;
    }
    copy
}

} // verus!
