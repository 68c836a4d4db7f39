//! The type of a column value, and the field of a nested type.

use crate::exception::{ErrorCode, ErrorKind, ErrorModel};
use crate::text::same_text;
use vstd::prelude::*;

verus! {

/// The unit an interval counts in.
#[derive(Clone, Copy, Debug, PartialEq, Eq, Structural)]
pub enum IntervalUnit {
    YearMonth,
    DayTime,
}

/// The type of a column value.
#[derive(Debug, PartialEq, Eq)]
pub enum DataType {
    Null,
    Boolean,
    UInt8,
    UInt16,
    UInt32,
    UInt64,
    Int8,
    Int16,
    Int32,
    Int64,
    Float32,
    Float64,
    Date16,
    Date32,
    DateTime32(Option<String>),
    Interval(IntervalUnit),
    List(Box<DataField>),
    Struct(Vec<DataField>),
    String,
}

/// A named, possibly nullable member of a nested type.
#[derive(Debug, PartialEq, Eq)]
pub struct DataField {
    pub name: String,
    pub data_type: DataType,
    pub nullable: bool,
}

/// What a `DataType` is, with every string taken by its characters.
pub enum TypeModel {
    Null,
    Boolean,
    UInt8,
    UInt16,
    UInt32,
    UInt64,
    Int8,
    Int16,
    Int32,
    Int64,
    Float32,
    Float64,
    Date16,
    Date32,
    DateTime32(Option<Seq<char>>),
    Interval(IntervalUnit),
    List(Box<FieldModel>),
    Struct(Seq<FieldModel>),
    String,
}

/// What a `DataField` is.
pub struct FieldModel {
    pub name: Seq<char>,
    pub data_type: TypeModel,
    pub nullable: bool,
}

pub open spec fn type_model(t: DataType) -> TypeModel
    decreases t,
{
    match t {
        DataType::Null => TypeModel::Null,
        DataType::Boolean => TypeModel::Boolean,
        DataType::UInt8 => TypeModel::UInt8,
        DataType::UInt16 => TypeModel::UInt16,
        DataType::UInt32 => TypeModel::UInt32,
        DataType::UInt64 => TypeModel::UInt64,
        DataType::Int8 => TypeModel::Int8,
        DataType::Int16 => TypeModel::Int16,
        DataType::Int32 => TypeModel::Int32,
        DataType::Int64 => TypeModel::Int64,
        DataType::Float32 => TypeModel::Float32,
        DataType::Float64 => TypeModel::Float64,
        DataType::Date16 => TypeModel::Date16,
        DataType::Date32 => TypeModel::Date32,
        DataType::DateTime32(tz) => TypeModel::DateTime32(
            match tz {
                Some(z) => Some(z@),
                None => None,
            },
        ),
        DataType::Interval(u) => TypeModel::Interval(u),
        DataType::List(f) => TypeModel::List(Box::new(field_model(*f))),
        DataType::Struct(fs) => TypeModel::Struct(fields_model(fs@)),
        DataType::String => TypeModel::String,
    }
}

pub open spec fn field_model(f: DataField) -> FieldModel
    decreases f,
{
    FieldModel { name: f.name@, data_type: type_model(f.data_type), nullable: f.nullable }
}

pub open spec fn fields_model(fs: Seq<DataField>) -> Seq<FieldModel>
    decreases fs,
{
    Seq::new(fs.len(), |i: int| if 0 <= i < fs.len() { field_model(fs[i]) } else { arbitrary() })
}

impl View for DataType {
    type V = TypeModel;

    open spec fn view(&self) -> TypeModel {
        type_model(*self)
    }
}

impl View for DataField {
    type V = FieldModel;

    open spec fn view(&self) -> FieldModel {
        field_model(*self)
    }
}

} // verus!

verus! {

impl TypeModel {
    /// A signed or unsigned integer of any width.
    pub open spec fn is_integer(self) -> bool {
        self is Int8 || self is Int16 || self is Int32 || self is Int64 || self is UInt8
            || self is UInt16 || self is UInt32 || self is UInt64
    }

    /// A floating-point number of either width.
    pub open spec fn is_floating(self) -> bool {
        self is Float32 || self is Float64
    }

    /// A number that can be negative: a signed integer or a floating-point number.
    pub open spec fn is_signed_numeric(self) -> bool {
        self is Int8 || self is Int16 || self is Int32 || self is Int64 || self is Float32
            || self is Float64
    }

    /// An integer or a floating-point number.
    pub open spec fn is_numeric(self) -> bool {
        self.is_integer() || self.is_floating()
    }

    /// A span of time.
    pub open spec fn is_interval(self) -> bool {
        self is Interval
    }

    /// A day or a moment.
    pub open spec fn is_date_or_date_time(self) -> bool {
        self is Date16 || self is Date32 || self is DateTime32
    }

    /// The width of a numeric type in bytes; 0 for every other type.
    pub open spec fn byte_size(self) -> nat {
        if self is Int8 || self is UInt8 {
            1
        } else if self is Int16 || self is UInt16 {
            2
        } else if self is Int32 || self is UInt32 || self is Float32 {
            4
        } else if self is Int64 || self is UInt64 || self is Float64 {
            8
        } else {
            0
        }
    }

    /// The name by which messages call the type: that of its variant.
    pub open spec fn name(self) -> Seq<char> {
        match self {
            TypeModel::Null => "Null"@,
            TypeModel::Boolean => "Boolean"@,
            TypeModel::UInt8 => "UInt8"@,
            TypeModel::UInt16 => "UInt16"@,
            TypeModel::UInt32 => "UInt32"@,
            TypeModel::UInt64 => "UInt64"@,
            TypeModel::Int8 => "Int8"@,
            TypeModel::Int16 => "Int16"@,
            TypeModel::Int32 => "Int32"@,
            TypeModel::Int64 => "Int64"@,
            TypeModel::Float32 => "Float32"@,
            TypeModel::Float64 => "Float64"@,
            TypeModel::Date16 => "Date16"@,
            TypeModel::Date32 => "Date32"@,
            TypeModel::DateTime32(_) => "DateTime32"@,
            TypeModel::Interval(_) => "Interval"@,
            TypeModel::List(_) => "List"@,
            TypeModel::Struct(_) => "Struct"@,
            TypeModel::String => "String"@,
        }
    }
}

/// The message of the error for a width asked of a type that is no number.
pub open spec fn spec_not_numeric_message(t: TypeModel) -> Seq<char> {
    "Function number_byte_size argument must be numeric types, but got "@ + t.name()
}

/// Two sequences of fields have the same model exactly when they are equally
/// long and agree field by field.
pub proof fn lemma_fields_model_equal(a: Seq<DataField>, b: Seq<DataField>)
    ensures
        (fields_model(a) == fields_model(b)) <==> (a.len() == b.len() && forall|i: int|
            0 <= i < a.len() ==> field_model(#[trigger] a[i]) == field_model(b[i])),
{
    let ma = fields_model(a);
    let mb = fields_model(b);
    if ma == mb {
        assert(a.len() == ma.len());
        assert(b.len() == mb.len());
        assert forall|i: int| 0 <= i < a.len() implies field_model(#[trigger] a[i]) == field_model(
            b[i],
        ) by {
            assert(ma[i] == field_model(a[i]));
            assert(mb[i] == field_model(b[i]));
        }
    }
    if a.len() == b.len() && (forall|i: int|
        0 <= i < a.len() ==> field_model(#[trigger] a[i]) == field_model(b[i])) {
        assert(ma =~= mb);
    }
}

impl DataType {
    /// Whether this is an integer type.
    pub fn is_integer(&self) -> (b: bool)
        ensures
            b == self@.is_integer(),
    {
        match self {
            DataType::Int8
            | DataType::Int16
            | DataType::Int32
            | DataType::Int64
            | DataType::UInt8
            | DataType::UInt16
            | DataType::UInt32
            | DataType::UInt64 => true,
            _ => false,
        }
    }

    /// Whether this is a floating-point type.
    pub fn is_floating(&self) -> (b: bool)
        ensures
            b == self@.is_floating(),
    {
        match self {
            DataType::Float32 | DataType::Float64 => true,
            _ => false,
        }
    }

    /// Whether this is a numeric type that can hold a negative number.
    pub fn is_signed_numeric(&self) -> (b: bool)
        ensures
            b == self@.is_signed_numeric(),
    {
        match self {
            DataType::Int8
            | DataType::Int16
            | DataType::Int32
            | DataType::Int64
            | DataType::Float32
            | DataType::Float64 => true,
            _ => false,
        }
    }

    /// Whether this is a numeric type.
    pub fn is_numeric(&self) -> (b: bool)
        ensures
            b == self@.is_numeric(),
    {
        self.is_integer() || self.is_floating()
    }

    /// Whether this is an interval type.
    pub fn is_interval(&self) -> (b: bool)
        ensures
            b == self@.is_interval(),
    {
        match self {
            DataType::Interval(_) => true,
            _ => false,
        }
    }

    /// Whether this is a date or a date-time type.
    pub fn is_date_or_date_time(&self) -> (b: bool)
        ensures
            b == self@.is_date_or_date_time(),
    {
        match self {
            DataType::Date16 | DataType::Date32 | DataType::DateTime32(_) => true,
            _ => false,
        }
    }

    /// The name of the type's variant, as messages show it.
    pub fn variant_name(&self) -> (s: &'static str)
        ensures
            s@ == self@.name(),
    {
        match self {
            DataType::Null => "Null",
            DataType::Boolean => "Boolean",
            DataType::UInt8 => "UInt8",
            DataType::UInt16 => "UInt16",
            DataType::UInt32 => "UInt32",
            DataType::UInt64 => "UInt64",
            DataType::Int8 => "Int8",
            DataType::Int16 => "Int16",
            DataType::Int32 => "Int32",
            DataType::Int64 => "Int64",
            DataType::Float32 => "Float32",
            DataType::Float64 => "Float64",
            DataType::Date16 => "Date16",
            DataType::Date32 => "Date32",
            DataType::DateTime32(_) => "DateTime32",
            DataType::Interval(_) => "Interval",
            DataType::List(_) => "List",
            DataType::Struct(_) => "Struct",
            DataType::String => "String",
        }
    }

    /// The width in bytes of a numeric type; an error for any other type.
    pub fn numeric_byte_size(&self) -> (r: Result<usize, ErrorCode>)
        ensures
            self@.is_numeric() ==> r is Ok && r->Ok_0 == self@.byte_size(),
            !self@.is_numeric() ==> r is Err && r->Err_0@ == (ErrorModel {
                kind: ErrorKind::BadArguments,
                message: spec_not_numeric_message(self@),
            }),
    {
        match self {
            DataType::Int8 | DataType::UInt8 => Ok(1),
            DataType::Int16 | DataType::UInt16 => Ok(2),
            DataType::Int32 | DataType::UInt32 | DataType::Float32 => Ok(4),
            DataType::Int64 | DataType::UInt64 | DataType::Float64 => Ok(8),
            _ => {
                let mut m = String::from_str(
                    "Function number_byte_size argument must be numeric types, but got ",
                );
                m.append(self.variant_name());
                Err(ErrorCode::bad_arguments(m))
            },
        }
    }

    /// Whether two types are the same, nested fields and time zones included.
    pub fn same_as(&self, other: &DataType) -> (b: bool)
        ensures
            b == (self@ == other@),
        decreases self,
    {
        match (self, other) {
            (DataType::Null, DataType::Null) => true,
            (DataType::Boolean, DataType::Boolean) => true,
            (DataType::UInt8, DataType::UInt8) => true,
            (DataType::UInt16, DataType::UInt16) => true,
            (DataType::UInt32, DataType::UInt32) => true,
            (DataType::UInt64, DataType::UInt64) => true,
            (DataType::Int8, DataType::Int8) => true,
            (DataType::Int16, DataType::Int16) => true,
            (DataType::Int32, DataType::Int32) => true,
            (DataType::Int64, DataType::Int64) => true,
            (DataType::Float32, DataType::Float32) => true,
            (DataType::Float64, DataType::Float64) => true,
            (DataType::Date16, DataType::Date16) => true,
            (DataType::Date32, DataType::Date32) => true,
            (DataType::String, DataType::String) => true,
            (DataType::DateTime32(a), DataType::DateTime32(b)) => match (a, b) {
                (None, None) => true,
                (Some(x), Some(y)) => same_text(x, y),
                _ => false,
            },
            (DataType::Interval(a), DataType::Interval(b)) => *a == *b,
            (DataType::List(a), DataType::List(b)) => a.same_as(b),
            (DataType::Struct(a), DataType::Struct(b)) => same_fields(a, b),
            _ => false,
        }
    }

    /// A copy of the type.
    pub fn clone_type(&self) -> (r: DataType)
        ensures
            r@ == self@,
        decreases self,
    {
        match self {
            DataType::Null => DataType::Null,
            DataType::Boolean => DataType::Boolean,
            DataType::UInt8 => DataType::UInt8,
            DataType::UInt16 => DataType::UInt16,
            DataType::UInt32 => DataType::UInt32,
            DataType::UInt64 => DataType::UInt64,
            DataType::Int8 => DataType::Int8,
            DataType::Int16 => DataType::Int16,
            DataType::Int32 => DataType::Int32,
            DataType::Int64 => DataType::Int64,
            DataType::Float32 => DataType::Float32,
            DataType::Float64 => DataType::Float64,
            DataType::Date16 => DataType::Date16,
            DataType::Date32 => DataType::Date32,
            DataType::String => DataType::String,
            DataType::DateTime32(tz) => match tz {
                Some(z) => DataType::DateTime32(Some(z.clone())),
                None => DataType::DateTime32(None),
            },
            DataType::Interval(u) => DataType::Interval(*u),
            DataType::List(f) => DataType::List(Box::new(f.clone_field())),
            DataType::Struct(fs) => DataType::Struct(clone_fields(fs)),
        }
    }
}

/// Whether two sequences of fields agree field by field.
pub fn same_fields(a: &Vec<DataField>, b: &Vec<DataField>) -> (r: bool)
    ensures
        r == (fields_model(a@) == fields_model(b@)),
    decreases a,
{
    proof {
        lemma_fields_model_equal(a@, b@);
    }
    if a.len() != b.len() {
        return false;
    }
    let mut i: usize = 0;
    while i < a.len()
        invariant
            0 <= i <= a.len(),
            a.len() == b.len(),
            forall|j: int| 0 <= j < i ==> field_model(#[trigger] a@[j]) == field_model(b@[j]),
            (fields_model(a@) == fields_model(b@)) <==> (forall|j: int|
                0 <= j < a.len() ==> field_model(#[trigger] a@[j]) == field_model(b@[j])),
        decreases a.len() - i,
    {
        proof {
            assert(decreases_to!(*a => a[i as int]));
        }
        if !a[i].same_as(&b[i]) {
            return false;
        }
        i += 1;
    }
    true
}

/// A copy of a sequence of fields.
pub fn clone_fields(fs: &Vec<DataField>) -> (out: Vec<DataField>)
    ensures
        fields_model(out@) == fields_model(fs@),
    decreases fs,
{
    let mut out: Vec<DataField> = Vec::new();
    let mut i: usize = 0;
    while i < fs.len()
        invariant
            0 <= i <= fs.len(),
            out.len() == i,
            forall|j: int| 0 <= j < i ==> field_model(#[trigger] out@[j]) == field_model(fs@[j]),
        decreases fs.len() - i,
    {
        proof {
            assert(decreases_to!(*fs => fs[i as int]));
        }
        out.push(fs[i].clone_field());
        i += 1;
    }
    proof {
        lemma_fields_model_equal(out@, fs@);
    }
    out
}

impl DataField {
    /// A field of the given name and type.
    pub fn new(name: &str, data_type: DataType, nullable: bool) -> (f: DataField)
        ensures
            f@ == (FieldModel { name: name@, data_type: data_type@, nullable }),
    {
        DataField { name: String::from_str(name), data_type, nullable }
    }

    /// The field's name.
    pub fn name(&self) -> (n: &String)
        ensures
            n@ == self@.name,
    {
        &self.name
    }

    /// The field's type.
    pub fn data_type(&self) -> (t: &DataType)
        ensures
            t@ == self@.data_type,
    {
        &self.data_type
    }

    /// Whether the field may hold no value.
    pub fn is_nullable(&self) -> (b: bool)
        ensures
            b == self@.nullable,
    {
        self.nullable
    }

    /// Whether two fields agree in name, type and nullability.
    pub fn same_as(&self, other: &DataField) -> (b: bool)
        ensures
            b == (self@ == other@),
        decreases self,
    {
        self.name == other.name && self.nullable == other.nullable && self.data_type.same_as(
            &other.data_type,
        )
    }

    /// A copy of the field.
    pub fn clone_field(&self) -> (r: DataField)
        ensures
            r@ == self@,
        decreases self,
    {
        DataField {
            name: self.name.clone(),
            data_type: self.data_type.clone_type(),
            nullable: self.nullable,
        }
    }
}

} // verus!
