//! Coercion rules: which type the operands of an operator are brought to.

use crate::datavalues::data_type::{
    fields_model, spec_not_numeric_message, DataField, DataType, FieldModel, TypeModel,
};
use crate::datavalues::data_value_operator::DataValueArithmeticOperator;
use crate::exception::{ErrorCode, ErrorKind, ErrorModel};
use crate::text::{bool_text, decimal, same_text, spec_bool_text, spec_decimal};
use vstd::prelude::*;

verus! {

/// What a coercion gives, with the type and the error taken by their models.
pub open spec fn outcome(r: Result<DataType, ErrorCode>) -> Result<TypeModel, ErrorModel> {
    match r {
        Ok(t) => Ok(t@),
        Err(e) => Err(e@),
    }
}

/// An error of kind `BadDataValueType` with the given message.
pub open spec fn bad_value_type(message: Seq<char>) -> ErrorModel {
    ErrorModel { kind: ErrorKind::BadDataValueType, message }
}

/// The larger of two widths.
pub open spec fn wider(a: nat, b: nat) -> nat {
    if a >= b {
        a
    } else {
        b
    }
}

/// The byte width after one widening step: a width under 8 doubles, a width
/// of 8 or more stays.
pub open spec fn spec_next_size(size: nat) -> nat {
    if size < 8 {
        size * 2
    } else {
        size
    }
}

/// Widens a byte width by one step.
pub fn next_size(size: usize) -> (r: usize)
    ensures
        r == spec_next_size(size as nat),
{
    if size < 8_usize {
        return size * 2;
    }
    size
}

/// The numeric type of the given signedness, kind and width, if there is one.
/// A width over 8 is let overflow into the widest type; for integers that is
/// the 64-bit type of the opposite signedness.
pub open spec fn spec_numeric_type(is_signed: bool, is_floating: bool, byte_size: nat) -> Option<
    TypeModel,
> {
    if byte_size > 8 {
        if is_floating {
            Some(TypeModel::Float64)
        } else if is_signed {
            Some(TypeModel::UInt64)
        } else {
            Some(TypeModel::Int64)
        }
    } else if is_floating {
        if byte_size == 8 {
            Some(TypeModel::Float64)
        } else if byte_size == 4 || (is_signed && (byte_size == 1 || byte_size == 2)) {
            Some(TypeModel::Float32)
        } else {
            None
        }
    } else if byte_size == 1 {
        Some(if is_signed { TypeModel::Int8 } else { TypeModel::UInt8 })
    } else if byte_size == 2 {
        Some(if is_signed { TypeModel::Int16 } else { TypeModel::UInt16 })
    } else if byte_size == 4 {
        Some(if is_signed { TypeModel::Int32 } else { TypeModel::UInt32 })
    } else if byte_size == 8 {
        Some(if is_signed { TypeModel::Int64 } else { TypeModel::UInt64 })
    } else {
        None
    }
}

/// The message for a signedness, kind and width that no numeric type has.
pub open spec fn spec_construct_message(is_signed: bool, is_floating: bool, byte_size: nat) -> Seq<
    char,
> {
    "Can't construct type from is_signed: "@ + spec_bool_text(is_signed) + ", is_floating: "@
        + spec_bool_text(is_floating) + ", byte_size: "@ + spec_decimal(byte_size)
}

/// What `construct_numeric_type` returns.
pub open spec fn spec_construct_numeric_type(
    is_signed: bool,
    is_floating: bool,
    byte_size: nat,
) -> Result<TypeModel, ErrorModel> {
    match spec_numeric_type(is_signed, is_floating, byte_size) {
        Some(t) => Ok(t),
        None => Err(bad_value_type(spec_construct_message(is_signed, is_floating, byte_size))),
    }
}

/// The numeric type of the given signedness, kind and width in bytes.
pub fn construct_numeric_type(is_signed: bool, is_floating: bool, byte_size: usize) -> (r: Result<
    DataType,
    ErrorCode,
>)
    ensures
        outcome(r) == spec_construct_numeric_type(is_signed, is_floating, byte_size as nat),
        r is Ok <==> spec_numeric_type(is_signed, is_floating, byte_size as nat) is Some,
{
    if byte_size > 8 {
        if is_floating {
            Ok(DataType::Float64)
        } else if is_signed {
            Ok(DataType::UInt64)
        } else {
            Ok(DataType::Int64)
        }
    } else if is_floating && byte_size == 8 {
        Ok(DataType::Float64)
    } else if is_floating && (byte_size == 4 || (is_signed && (byte_size == 1 || byte_size == 2))) {
        Ok(DataType::Float32)
    } else if !is_floating && byte_size == 1 {
        Ok(if is_signed { DataType::Int8 } else { DataType::UInt8 })
    } else if !is_floating && byte_size == 2 {
        Ok(if is_signed { DataType::Int16 } else { DataType::UInt16 })
    } else if !is_floating && byte_size == 4 {
        Ok(if is_signed { DataType::Int32 } else { DataType::UInt32 })
    } else if !is_floating && byte_size == 8 {
        Ok(if is_signed { DataType::Int64 } else { DataType::UInt64 })
    } else {
        let mut m = String::from_str("Can't construct type from is_signed: ");
        m.append(bool_text(is_signed));
        m.append(", is_floating: ");
        m.append(bool_text(is_floating));
        m.append(", byte_size: ");
        let size_text = decimal(byte_size);
        m.append(size_text.as_str());
        Err(ErrorCode::bad_data_value_type(m))
    }
}

/// Whether the common type of two numeric types must be twice as wide as
/// the wider of them: a floating-point number meets an integer that is at
/// least as wide as it, or a signed number meets an unsigned one that is at
/// least as wide as it.
pub open spec fn needs_widening(l: TypeModel, r: TypeModel) -> bool {
    let has_float = l.is_floating() || r.is_floating();
    let has_integer = l.is_integer() || r.is_integer();
    let has_signed = l.is_signed_numeric() || r.is_signed_numeric();
    let unsigned_width = wider(
        if l.is_signed_numeric() { 0 } else { l.byte_size() },
        if r.is_signed_numeric() { 0 } else { r.byte_size() },
    );
    let signed_width = wider(
        if l.is_signed_numeric() { l.byte_size() } else { 0 },
        if r.is_signed_numeric() { r.byte_size() } else { 0 },
    );
    let integer_width = wider(
        if l.is_integer() { l.byte_size() } else { 0 },
        if r.is_integer() { r.byte_size() } else { 0 },
    );
    let float_width = wider(
        if l.is_floating() { l.byte_size() } else { 0 },
        if r.is_floating() { r.byte_size() } else { 0 },
    );
    (has_float && has_integer && integer_width >= float_width) || (has_signed && unsigned_width
        >= signed_width)
}

/// The width that holds every value of both numeric types.
pub open spec fn coerced_width(l: TypeModel, r: TypeModel) -> nat {
    let widest = wider(l.byte_size(), r.byte_size());
    if needs_widening(l, r) {
        widest * 2
    } else {
        widest
    }
}

/// The message for two types that have no common type.
pub open spec fn spec_no_common_type_message(l: TypeModel, r: TypeModel) -> Seq<char> {
    "Can't construct type from "@ + l.name() + " and "@ + r.name()
}

/// What `numerical_coercion` returns.
pub open spec fn spec_numerical_coercion(l: TypeModel, r: TypeModel, allow_overflow: bool) -> Result<
    TypeModel,
    ErrorModel,
> {
    if !l.is_numeric() {
        Err(ErrorModel { kind: ErrorKind::BadArguments, message: spec_not_numeric_message(l) })
    } else if !r.is_numeric() {
        Err(ErrorModel { kind: ErrorKind::BadArguments, message: spec_not_numeric_message(r) })
    } else if coerced_width(l, r) > 8 && !allow_overflow {
        Err(bad_value_type(spec_no_common_type_message(l, r)))
    } else {
        spec_construct_numeric_type(
            l.is_signed_numeric() || r.is_signed_numeric(),
            l.is_floating() || r.is_floating(),
            if coerced_width(l, r) > 8 { 8 } else { coerced_width(l, r) },
        )
    }
}

/// Two numeric types always have a common type when overflow is allowed, and
/// otherwise exactly when that type is at most 8 bytes wide.
pub proof fn lemma_numerical_coercion_succeeds(l: TypeModel, r: TypeModel, allow_overflow: bool)
    ensures
        spec_numerical_coercion(l, r, allow_overflow) is Ok <==> l.is_numeric() && r.is_numeric()
            && (allow_overflow || coerced_width(l, r) <= 8),
{
}

fn larger(a: usize, b: usize) -> (m: usize)
    ensures
        m == wider(a as nat, b as nat),
{
    if a >= b {
        a
    } else {
        b
    }
}

/// Coercion rule for numerical types: the type that both sides can be cast
/// to for a calculation, keeping as much precision as there is.
pub fn numerical_coercion(lhs_type: &DataType, rhs_type: &DataType, allow_overflow: bool) -> (r:
    Result<DataType, ErrorCode>)
    ensures
        outcome(r) == spec_numerical_coercion(lhs_type@, rhs_type@, allow_overflow),
        r is Ok <==> lhs_type@.is_numeric() && rhs_type@.is_numeric() && (allow_overflow
            || coerced_width(lhs_type@, rhs_type@) <= 8),
{
    let has_float = lhs_type.is_floating() || rhs_type.is_floating();
    let has_integer = lhs_type.is_integer() || rhs_type.is_integer();
    let has_signed = lhs_type.is_signed_numeric() || rhs_type.is_signed_numeric();

    let size_of_lhs = match lhs_type.numeric_byte_size() {
        Ok(n) => n,
        Err(e) => {
            return Err(e);
        },
    };
    let size_of_rhs = match rhs_type.numeric_byte_size() {
        Ok(n) => n,
        Err(e) => {
            return Err(e);
        },
    };

    let max_size_of_unsigned_integer = larger(
        if lhs_type.is_signed_numeric() { 0 } else { size_of_lhs },
        if rhs_type.is_signed_numeric() { 0 } else { size_of_rhs },
    );
    let max_size_of_signed_integer = larger(
        if !lhs_type.is_signed_numeric() { 0 } else { size_of_lhs },
        if !rhs_type.is_signed_numeric() { 0 } else { size_of_rhs },
    );
    let max_size_of_integer = larger(
        if !lhs_type.is_integer() { 0 } else { size_of_lhs },
        if !rhs_type.is_integer() { 0 } else { size_of_rhs },
    );
    let max_size_of_float = larger(
        if !lhs_type.is_floating() { 0 } else { size_of_lhs },
        if !rhs_type.is_floating() { 0 } else { size_of_rhs },
    );

    let should_double = (has_float && has_integer && max_size_of_integer >= max_size_of_float) || (
    has_signed && max_size_of_unsigned_integer >= max_size_of_signed_integer);

    let mut max_size = if should_double {
        larger(size_of_rhs, size_of_lhs) * 2
    } else {
        larger(size_of_rhs, size_of_lhs)
    };

    if max_size > 8 {
        if allow_overflow {
            max_size = 8
        } else {
            let mut m = String::from_str("Can't construct type from ");
            m.append(lhs_type.variant_name());
            m.append(" and ");
            m.append(rhs_type.variant_name());
            return Err(ErrorCode::bad_data_value_type(m));
        }
    }
    construct_numeric_type(has_signed, has_float, max_size)
}

/// The message for an operator whose operands are not both numeric.
pub open spec fn spec_unsupported_message(
    op: DataValueArithmeticOperator,
    l: TypeModel,
    r: TypeModel,
) -> Seq<char> {
    "DataValue Error: Unsupported ("@ + l.name() + ") "@ + op.spec_word() + " ("@ + r.name() + ")"@
}

/// What `numerical_arithmetic_coercion` returns.
pub open spec fn spec_numerical_arithmetic_coercion(
    op: DataValueArithmeticOperator,
    l: TypeModel,
    r: TypeModel,
) -> Result<TypeModel, ErrorModel> {
    let has_signed = l.is_signed_numeric() || r.is_signed_numeric();
    let has_float = l.is_floating() || r.is_floating();
    let widest = wider(l.byte_size(), r.byte_size());
    if !l.is_numeric() || !r.is_numeric() {
        Err(bad_value_type(spec_unsupported_message(op, l, r)))
    } else {
        match op {
            DataValueArithmeticOperator::Plus | DataValueArithmeticOperator::Mul => {
                spec_construct_numeric_type(has_signed, has_float, spec_next_size(widest))
            },
            DataValueArithmeticOperator::Modulo => {
                if has_float {
                    Ok(TypeModel::Float64)
                } else if l.is_signed_numeric() {
                    spec_construct_numeric_type(true, false, spec_next_size(r.byte_size()))
                } else {
                    spec_construct_numeric_type(false, false, r.byte_size())
                }
            },
            DataValueArithmeticOperator::Minus => {
                spec_construct_numeric_type(true, has_float, spec_next_size(widest))
            },
            DataValueArithmeticOperator::Div => Ok(TypeModel::Float64),
            DataValueArithmeticOperator::IntDiv => {
                spec_construct_numeric_type(has_signed, has_float, widest)
            },
        }
    }
}

/// Every arithmetic operator has a result type on two numeric operands.
pub proof fn lemma_numerical_arithmetic_coercion_succeeds(
    op: DataValueArithmeticOperator,
    l: TypeModel,
    r: TypeModel,
)
    ensures
        spec_numerical_arithmetic_coercion(op, l, r) is Ok <==> l.is_numeric() && r.is_numeric(),
{
}

/// The type of the result of a binary arithmetic operator on two numbers.
pub fn numerical_arithmetic_coercion(
    op: &DataValueArithmeticOperator,
    lhs_type: &DataType,
    rhs_type: &DataType,
) -> (r: Result<DataType, ErrorCode>)
    ensures
        outcome(r) == spec_numerical_arithmetic_coercion(*op, lhs_type@, rhs_type@),
        r is Ok <==> lhs_type@.is_numeric() && rhs_type@.is_numeric(),
{
    if !lhs_type.is_numeric() || !rhs_type.is_numeric() {
        let mut m = String::from_str("DataValue Error: Unsupported (");
        m.append(lhs_type.variant_name());
        m.append(") ");
        m.append(op.word());
        m.append(" (");
        m.append(rhs_type.variant_name());
        m.append(")");
        return Err(ErrorCode::bad_data_value_type(m));
    }
    let has_signed = lhs_type.is_signed_numeric() || rhs_type.is_signed_numeric();
    let has_float = lhs_type.is_floating() || rhs_type.is_floating();
    let left_size = match lhs_type.numeric_byte_size() {
        Ok(n) => n,
        Err(e) => {
            return Err(e);
        },
    };
    let right_size = match rhs_type.numeric_byte_size() {
        Ok(n) => n,
        Err(e) => {
            return Err(e);
        },
    };
    let max_size = larger(left_size, right_size);

    match op {
        DataValueArithmeticOperator::Plus | DataValueArithmeticOperator::Mul => {
            construct_numeric_type(has_signed, has_float, next_size(max_size))
        },
        DataValueArithmeticOperator::Modulo => {
            if has_float {
                return Ok(DataType::Float64);
            }
            // If the remainder can be negative, it needs a larger type: a
            // signed 32-bit -199 modulo an unsigned 8-bit 200 is -199, which
            // fits in 16 bits and not in 8.
            let result_is_signed = lhs_type.is_signed_numeric();
            let size_of_result = if result_is_signed {
                next_size(right_size)
            } else {
                right_size
            };
            construct_numeric_type(result_is_signed, false, size_of_result)
        },
        DataValueArithmeticOperator::Minus => {
            construct_numeric_type(true, has_float, next_size(max_size))
        },
        DataValueArithmeticOperator::Div => Ok(DataType::Float64),
        DataValueArithmeticOperator::IntDiv => {
            construct_numeric_type(has_signed, has_float, max_size)
        },
    }
}

/// The message for an operator that dates do not have, or that has no date
/// among its operands.
pub open spec fn spec_date_message(
    op: DataValueArithmeticOperator,
    l: TypeModel,
    r: TypeModel,
) -> Seq<char> {
    "DataValue Error: Unsupported date coercion ("@ + l.name() + ") "@ + op.spec_word() + " ("@
        + r.name() + ")"@
}

/// What `datetime_arithmetic_coercion` returns: with `a` the date among the
/// operands (the left one if both are) and `b` the other, `a plus b` is an
/// `a`, `a minus b` is an `a` if `b` is a number or an interval and a count
/// of days or seconds if not, and no other operator is defined.
pub open spec fn spec_datetime_arithmetic_coercion(
    op: DataValueArithmeticOperator,
    l: TypeModel,
    r: TypeModel,
) -> Result<TypeModel, ErrorModel> {
    let a = if l.is_date_or_date_time() { l } else { r };
    let b = if l.is_date_or_date_time() { r } else { l };
    if !l.is_date_or_date_time() && !r.is_date_or_date_time() {
        Err(bad_value_type(spec_date_message(op, l, r)))
    } else if op == DataValueArithmeticOperator::Plus {
        Ok(a)
    } else if op == DataValueArithmeticOperator::Minus {
        if b.is_numeric() || b.is_interval() {
            Ok(a)
        } else {
            Ok(TypeModel::Int32)
        }
    } else {
        Err(bad_value_type(spec_date_message(op, l, r)))
    }
}

fn date_error(op: &DataValueArithmeticOperator, lhs_type: &DataType, rhs_type: &DataType) -> (e:
    ErrorCode)
    ensures
        e@ == bad_value_type(spec_date_message(*op, lhs_type@, rhs_type@)),
{
    let mut m = String::from_str("DataValue Error: Unsupported date coercion (");
    m.append(lhs_type.variant_name());
    m.append(") ");
    m.append(op.word());
    m.append(" (");
    m.append(rhs_type.variant_name());
    m.append(")");
    ErrorCode::bad_data_value_type(m)
}

/// The type of the result of adding to a date or subtracting from one.
pub fn datetime_arithmetic_coercion(
    op: &DataValueArithmeticOperator,
    lhs_type: &DataType,
    rhs_type: &DataType,
) -> (r: Result<DataType, ErrorCode>)
    ensures
        outcome(r) == spec_datetime_arithmetic_coercion(*op, lhs_type@, rhs_type@),
        r is Ok <==> (lhs_type@.is_date_or_date_time() || rhs_type@.is_date_or_date_time()) && (*op
            == DataValueArithmeticOperator::Plus || *op == DataValueArithmeticOperator::Minus),
{
    if !lhs_type.is_date_or_date_time() && !rhs_type.is_date_or_date_time() {
        return Err(date_error(op, lhs_type, rhs_type));
    }
    let mut a = lhs_type;
    let mut b = rhs_type;
    if !a.is_date_or_date_time() {
        a = rhs_type;
        b = lhs_type;
    }
    match op {
        DataValueArithmeticOperator::Plus => Ok(a.clone_type()),
        DataValueArithmeticOperator::Minus => {
            if b.is_numeric() || b.is_interval() {
                Ok(a.clone_type())
            } else {
                // A date minus a date, or a moment minus a moment.
                Ok(DataType::Int32)
            }
        },
        _ => Err(date_error(op, lhs_type, rhs_type)),
    }
}

/// What `interval_arithmetic_coercion` returns: a date plus or minus an
/// interval, in either order, is a date of the same type.
pub open spec fn spec_interval_arithmetic_coercion(
    op: DataValueArithmeticOperator,
    l: TypeModel,
    r: TypeModel,
) -> Result<TypeModel, ErrorModel> {
    if !((l.is_date_or_date_time() && r.is_interval()) || (r.is_date_or_date_time()
        && l.is_interval())) {
        Err(bad_value_type(spec_date_message(op, l, r)))
    } else if op == DataValueArithmeticOperator::Plus || op == DataValueArithmeticOperator::Minus {
        if l.is_date_or_date_time() {
            Ok(l)
        } else {
            Ok(r)
        }
    } else {
        Err(bad_value_type(spec_date_message(op, l, r)))
    }
}

/// The type of the result of adding an interval to a date or subtracting
/// one from it.
pub fn interval_arithmetic_coercion(
    op: &DataValueArithmeticOperator,
    lhs_type: &DataType,
    rhs_type: &DataType,
) -> (r: Result<DataType, ErrorCode>)
    ensures
        outcome(r) == spec_interval_arithmetic_coercion(*op, lhs_type@, rhs_type@),
        r is Ok <==> ((lhs_type@.is_date_or_date_time() && rhs_type@.is_interval()) || (
        rhs_type@.is_date_or_date_time() && lhs_type@.is_interval())) && (*op
            == DataValueArithmeticOperator::Plus || *op == DataValueArithmeticOperator::Minus),
{
    // Only a date or a moment, plus or minus an interval.
    if !(lhs_type.is_date_or_date_time() && rhs_type.is_interval()
        || rhs_type.is_date_or_date_time() && lhs_type.is_interval()) {
        return Err(date_error(op, lhs_type, rhs_type));
    }
    match op {
        DataValueArithmeticOperator::Plus | DataValueArithmeticOperator::Minus => {
            if lhs_type.is_date_or_date_time() {
                Ok(lhs_type.clone_type())
            } else {
                Ok(rhs_type.clone_type())
            }
        },
        _ => Err(date_error(op, lhs_type, rhs_type)),
    }
}

/// The message for a unary operator on a value that is no number.
pub open spec fn spec_unsupported_unary_message(t: TypeModel) -> Seq<char> {
    "DataValue Error: Unsupported ("@ + t.name() + ")"@
}

/// The message for an operator that has no unary form.
pub open spec fn spec_unexpected_operator_message(op: DataValueArithmeticOperator) -> Seq<char> {
    "Unexpected operator:"@ + op.spec_variant_name() + " to unary function"@
}

/// What `numerical_unary_arithmetic_coercion` returns: plus keeps the type;
/// minus gives the signed type of the same kind, one step wider if the
/// operand was unsigned.
pub open spec fn spec_numerical_unary_arithmetic_coercion(
    op: DataValueArithmeticOperator,
    t: TypeModel,
) -> Result<TypeModel, ErrorModel> {
    if !t.is_numeric() {
        Err(bad_value_type(spec_unsupported_unary_message(t)))
    } else if op == DataValueArithmeticOperator::Plus {
        Ok(t)
    } else if op == DataValueArithmeticOperator::Minus {
        spec_construct_numeric_type(
            true,
            t.is_floating(),
            if t.is_signed_numeric() { t.byte_size() } else { spec_next_size(t.byte_size()) },
        )
    } else {
        Err(
            ErrorModel {
                kind: ErrorKind::UnknownFunction,
                message: spec_unexpected_operator_message(op),
            },
        )
    }
}

/// The type of the result of a unary arithmetic operator on a number.
pub fn numerical_unary_arithmetic_coercion(op: &DataValueArithmeticOperator, val_type: &DataType) -> (r:
    Result<DataType, ErrorCode>)
    ensures
        outcome(r) == spec_numerical_unary_arithmetic_coercion(*op, val_type@),
        r is Ok <==> val_type@.is_numeric() && (*op == DataValueArithmeticOperator::Plus || *op
            == DataValueArithmeticOperator::Minus),
{
    if !val_type.is_numeric() {
        let mut m = String::from_str("DataValue Error: Unsupported (");
        m.append(val_type.variant_name());
        m.append(")");
        return Err(ErrorCode::bad_data_value_type(m));
    }
    match op {
        DataValueArithmeticOperator::Plus => Ok(val_type.clone_type()),
        DataValueArithmeticOperator::Minus => {
            let has_float = val_type.is_floating();
            let has_signed = val_type.is_signed_numeric();
            let numeric_size = match val_type.numeric_byte_size() {
                Ok(n) => n,
                Err(e) => {
                    return Err(e);
                },
            };
            let max_size = if has_signed {
                numeric_size
            } else {
                next_size(numeric_size)
            };
            construct_numeric_type(true, has_float, max_size)
        },
        other => {
            let mut m = String::from_str("Unexpected operator:");
            m.append(other.variant_name());
            m.append(" to unary function");
            Err(ErrorCode::unknown_function(m))
        },
    }
}

/// The message for two types that cannot be compared.
pub open spec fn spec_no_comparison_message(l: TypeModel, r: TypeModel) -> Seq<char> {
    "Can not compare "@ + l.name() + " with "@ + r.name()
}

/// What `compare_coercion` returns: the type in which two values are
/// compared. Equal types compare as they are; two numbers in their common
/// type, overflow allowed; a null takes the other side's type; a number
/// against a string compares as 64-bit floating point; a number or a string
/// against a date compares as that date; two different dates compare as a
/// moment in the default zone if either is a moment, else as a 32-bit date.
pub open spec fn spec_compare_coercion(l: TypeModel, r: TypeModel) -> Result<TypeModel, ErrorModel> {
    if l == r {
        Ok(l)
    } else if l.is_numeric() && r.is_numeric() {
        spec_numerical_coercion(l, r, true)
    } else if r is Null {
        Ok(l)
    } else if l is Null {
        Ok(r)
    } else if (l.is_numeric() && r is String) || (r.is_numeric() && l is String) {
        Ok(TypeModel::Float64)
    } else if (l.is_numeric() || l is String) && r.is_date_or_date_time() {
        Ok(r)
    } else if (r.is_numeric() || r is String) && l.is_date_or_date_time() {
        Ok(l)
    } else if l.is_date_or_date_time() || r.is_date_or_date_time() {
        if l is DateTime32 || r is DateTime32 {
            Ok(TypeModel::DateTime32(None))
        } else {
            Ok(TypeModel::Date32)
        }
    } else {
        Err(
            ErrorModel {
                kind: ErrorKind::IllegalDataType,
                message: spec_no_comparison_message(l, r),
            },
        )
    }
}

/// Whether two types can be compared at all.
pub open spec fn comparable(l: TypeModel, r: TypeModel) -> bool {
    l == r || (l.is_numeric() && r.is_numeric()) || l is Null || r is Null
        || l.is_date_or_date_time() || r.is_date_or_date_time() || (l.is_numeric() && r is String)
        || (r.is_numeric() && l is String)
}

/// A comparison has a type exactly for comparable types.
pub proof fn lemma_compare_coercion_succeeds(l: TypeModel, r: TypeModel)
    ensures
        spec_compare_coercion(l, r) is Ok <==> comparable(l, r),
{
}

fn is_string(t: &DataType) -> (b: bool)
    ensures
        b == (t@ is String),
{
    match t {
        DataType::String => true,
        _ => false,
    }
}

fn is_null(t: &DataType) -> (b: bool)
    ensures
        b == (t@ is Null),
{
    match t {
        DataType::Null => true,
        _ => false,
    }
}

fn is_date_time(t: &DataType) -> (b: bool)
    ensures
        b == (t@ is DateTime32),
{
    match t {
        DataType::DateTime32(_) => true,
        _ => false,
    }
}

/// Coercion rule for comparisons, a superset of the numerical rules.
pub fn compare_coercion(lhs_type: &DataType, rhs_type: &DataType) -> (r: Result<DataType, ErrorCode>)
    ensures
        outcome(r) == spec_compare_coercion(lhs_type@, rhs_type@),
        r is Ok <==> comparable(lhs_type@, rhs_type@),
{
    if lhs_type.same_as(rhs_type) {
        // The same type on both sides: compared as it is.
        return Ok(lhs_type.clone_type());
    }
    if lhs_type.is_numeric() && rhs_type.is_numeric() {
        return numerical_coercion(lhs_type, rhs_type, true);
    }
    // One side is null.
    if is_null(rhs_type) {
        return Ok(lhs_type.clone_type());
    }
    if is_null(lhs_type) {
        return Ok(rhs_type.clone_type());
    }
    // One side is a string and the other a number.
    if (lhs_type.is_numeric() && is_string(rhs_type)) || (rhs_type.is_numeric() && is_string(
        lhs_type,
    )) {
        return Ok(DataType::Float64);
    }
    // One side is a date and the other a number or a string.
    if (lhs_type.is_numeric() || is_string(lhs_type)) && rhs_type.is_date_or_date_time() {
        return Ok(rhs_type.clone_type());
    }
    if (rhs_type.is_numeric() || is_string(rhs_type)) && lhs_type.is_date_or_date_time() {
        return Ok(lhs_type.clone_type());
    }
    // Two dates of different types.
    if lhs_type.is_date_or_date_time() || rhs_type.is_date_or_date_time() {
        if is_date_time(lhs_type) || is_date_time(rhs_type) {
            return Ok(DataType::DateTime32(None));
        }
        return Ok(DataType::Date32);
    }
    let mut m = String::from_str("Can not compare ");
    m.append(lhs_type.variant_name());
    m.append(" with ");
    m.append(rhs_type.variant_name());
    Err(ErrorCode::illegal_data_type(m))
}

/// The message for two types that do not merge.
pub open spec fn spec_no_merge_message(l: TypeModel, r: TypeModel) -> Seq<char> {
    "Can't merge types from "@ + l.name() + " and "@ + r.name()
}

/// The message for two structures with different numbers of fields.
pub open spec fn spec_different_sizes_message(l: TypeModel, r: TypeModel) -> Seq<char> {
    "Can't merge types from "@ + l.name() + " and "@ + r.name()
        + ", because they have different sizes"@
}

/// What `merge_types` returns: the one type that values of both types fit.
/// A null merges into the other type. Two lists, or two structures of equal
/// length, merge field by field: the names must agree, the types merge, and
/// the result is nullable if either side is. Equal types merge into
/// themselves and two numbers into their common type, without overflow.
/// Nothing else merges.
pub open spec fn spec_merge_types(l: TypeModel, r: TypeModel) -> Result<TypeModel, ErrorModel>
    decreases l, 0nat,
{
    match (l, r) {
        (TypeModel::Null, _) => Ok(r),
        (_, TypeModel::Null) => Ok(l),
        (TypeModel::List(a), TypeModel::List(b)) => {
            if a.name != b.name {
                Err(bad_value_type(spec_no_merge_message(l, r)))
            } else {
                match spec_merge_types(a.data_type, b.data_type) {
                    Ok(t) => Ok(
                        TypeModel::List(
                            Box::new(
                                FieldModel {
                                    name: a.name,
                                    data_type: t,
                                    nullable: a.nullable || b.nullable,
                                },
                            ),
                        ),
                    ),
                    Err(e) => Err(e),
                }
            }
        },
        (TypeModel::Struct(a), TypeModel::Struct(b)) => {
            if a.len() != b.len() {
                Err(bad_value_type(spec_different_sizes_message(l, r)))
            } else {
                match spec_merge_fields(a, b, a.len(), l, r) {
                    Ok(fields) => Ok(TypeModel::Struct(fields)),
                    Err(e) => Err(e),
                }
            }
        },
        _ => {
            if l == r {
                Ok(l)
            } else if l.is_numeric() && r.is_numeric() {
                spec_numerical_coercion(l, r, false)
            } else {
                Err(bad_value_type(spec_no_merge_message(l, r)))
            }
        },
    }
}

/// The first `n` fields of two structures merged pairwise, or the error of
/// the first pair that does not merge. `l` and `r` are the structures, which
/// the message for a pair of different names speaks of.
pub open spec fn spec_merge_fields(
    a: Seq<FieldModel>,
    b: Seq<FieldModel>,
    n: nat,
    l: TypeModel,
    r: TypeModel,
) -> Result<Seq<FieldModel>, ErrorModel>
    decreases a, n,
{
    if n == 0 || n > a.len() {
        Ok(Seq::empty())
    } else {
        match spec_merge_fields(a, b, (n - 1) as nat, l, r) {
            Err(e) => Err(e),
            Ok(merged) => {
                let x = a[n - 1];
                let y = b[n - 1];
                if x.name != y.name {
                    Err(bad_value_type(spec_no_merge_message(l, r)))
                } else {
                    match spec_merge_types(x.data_type, y.data_type) {
                        Ok(t) => Ok(
                            merged.push(
                                FieldModel {
                                    name: x.name,
                                    data_type: t,
                                    nullable: x.nullable || y.nullable,
                                },
                            ),
                        ),
                        Err(e) => Err(e),
                    }
                }
            },
        }
    }
}

/// An error in merging the first fields is the error of merging more of them.
proof fn lemma_merge_error_carries(
    a: Seq<FieldModel>,
    b: Seq<FieldModel>,
    k: int,
    n: int,
    l: TypeModel,
    r: TypeModel,
    e: ErrorModel,
)
    requires
        0 <= k <= n <= a.len(),
        spec_merge_fields(a, b, k as nat, l, r) == Err::<Seq<FieldModel>, ErrorModel>(e),
    ensures
        spec_merge_fields(a, b, n as nat, l, r) == Err::<Seq<FieldModel>, ErrorModel>(e),
    decreases n - k,
{
    if k < n {
        lemma_merge_error_carries(a, b, k, n - 1, l, r, e);
    }
}

fn merge_error(lhs_type: &DataType, rhs_type: &DataType) -> (e: ErrorCode)
    ensures
        e@ == bad_value_type(spec_no_merge_message(lhs_type@, rhs_type@)),
{
    let mut m = String::from_str("Can't merge types from ");
    m.append(lhs_type.variant_name());
    m.append(" and ");
    m.append(rhs_type.variant_name());
    ErrorCode::bad_data_value_type(m)
}

/// Merges the fields of two structures of equal length pairwise.
fn merge_fields(
    a: &Vec<DataField>,
    b: &Vec<DataField>,
    lhs_type: &DataType,
    rhs_type: &DataType,
) -> (r: Result<Vec<DataField>, ErrorCode>)
    requires
        a.len() == b.len(),
    ensures
        match r {
            Ok(fields) => spec_merge_fields(
                fields_model(a@),
                fields_model(b@),
                a.len() as nat,
                lhs_type@,
                rhs_type@,
            ) == Ok::<Seq<FieldModel>, ErrorModel>(fields_model(fields@)),
            Err(e) => spec_merge_fields(
                fields_model(a@),
                fields_model(b@),
                a.len() as nat,
                lhs_type@,
                rhs_type@,
            ) == Err::<Seq<FieldModel>, ErrorModel>(e@),
        },
    decreases a,
{
    let mut out: Vec<DataField> = Vec::new();
    let mut i: usize = 0;
    assert(fields_model(out@) =~= Seq::<FieldModel>::empty());
    while i < a.len()
        invariant
            0 <= i <= a.len(),
            a.len() == b.len(),
            spec_merge_fields(fields_model(a@), fields_model(b@), i as nat, lhs_type@, rhs_type@)
                == Ok::<Seq<FieldModel>, ErrorModel>(fields_model(out@)),
        decreases a.len() - i,
    {
        let x = &a[i];
        let y = &b[i];
        proof {
            assert(decreases_to!(*a => a[i as int]));
            assert(fields_model(a@)[i as int] == x@);
            assert(fields_model(b@)[i as int] == y@);
        }
        if !same_text(x.name(), y.name()) {
            let e = merge_error(lhs_type, rhs_type);
            proof {
                lemma_merge_error_carries(
                    fields_model(a@),
                    fields_model(b@),
                    i + 1,
                    a.len() as int,
                    lhs_type@,
                    rhs_type@,
                    e@,
                );
            }
            return Err(e);
        }
        let typ = match merge_types(&x.data_type, &y.data_type) {
            Ok(t) => t,
            Err(e) => {
                proof {
                    lemma_merge_error_carries(
                        fields_model(a@),
                        fields_model(b@),
                        i + 1,
                        a.len() as int,
                        lhs_type@,
                        rhs_type@,
                        e@,
                    );
                }
                return Err(e);
            },
        };
        let ghost before = out@;
        let field = DataField::new(x.name().as_str(), typ, x.is_nullable() || y.is_nullable());
        out.push(field);
        proof {
            assert(fields_model(out@) =~= fields_model(before).push(field@));
        }
        i += 1;
    }
    Ok(out)
}

/// The one type that values of both types fit.
pub fn merge_types(lhs_type: &DataType, rhs_type: &DataType) -> (r: Result<DataType, ErrorCode>)
    ensures
        outcome(r) == spec_merge_types(lhs_type@, rhs_type@),
    decreases lhs_type,
{
    match (lhs_type, rhs_type) {
        (DataType::Null, _) => Ok(rhs_type.clone_type()),
        (_, DataType::Null) => Ok(lhs_type.clone_type()),
        (DataType::List(a), DataType::List(b)) => {
            if !same_text(a.name(), b.name()) {
                return Err(merge_error(lhs_type, rhs_type));
            }
            let typ = match merge_types(&a.data_type, &b.data_type) {
                Ok(t) => t,
                Err(e) => {
                    return Err(e);
                },
            };
            Ok(
                DataType::List(
                    Box::new(
                        DataField::new(a.name().as_str(), typ, a.is_nullable() || b.is_nullable()),
                    ),
                ),
            )
        },
        (DataType::Struct(a), DataType::Struct(b)) => {
            if a.len() != b.len() {
                let mut m = String::from_str("Can't merge types from ");
                m.append(lhs_type.variant_name());
                m.append(" and ");
                m.append(rhs_type.variant_name());
                m.append(", because they have different sizes");
                return Err(ErrorCode::bad_data_value_type(m));
            }
            match merge_fields(a, b, lhs_type, rhs_type) {
                Ok(fields) => Ok(DataType::Struct(fields)),
                Err(e) => Err(e),
            }
        },
        _ => {
            if lhs_type.same_as(rhs_type) {
                return Ok(lhs_type.clone_type());
            }
            if lhs_type.is_numeric() && rhs_type.is_numeric() {
                numerical_coercion(lhs_type, rhs_type, false)
            } else {
                Err(merge_error(lhs_type, rhs_type))
            }
        },
    }
}

/// The message for an empty list of types.
pub open spec fn spec_empty_args_message() -> Seq<char> {
    "Can't aggregate empty args"@
}

/// What `aggregate_types` returns: the types merged from the right, the last
/// two first, and an error for no types at all.
pub open spec fn spec_aggregate_types(args: Seq<TypeModel>) -> Result<TypeModel, ErrorModel>
    decreases args.len(),
{
    if args.len() == 0 {
        Err(ErrorModel { kind: ErrorKind::BadArguments, message: spec_empty_args_message() })
    } else if args.len() == 1 {
        Ok(args[0])
    } else {
        match spec_aggregate_types(args.subrange(1, args.len() as int)) {
            Ok(right) => spec_merge_types(args[0], right),
            Err(e) => Err(e),
        }
    }
}

/// An error in merging a tail of the arguments is the error of the whole.
proof fn lemma_aggregate_error_carries(all: Seq<TypeModel>, i: int, e: ErrorModel)
    requires
        0 <= i < all.len(),
        spec_aggregate_types(all.subrange(i, all.len() as int)) == Err::<TypeModel, ErrorModel>(e),
    ensures
        spec_aggregate_types(all) == Err::<TypeModel, ErrorModel>(e),
    decreases i,
{
    if i == 0 {
        assert(all.subrange(0, all.len() as int) =~= all);
    } else {
        let tail = all.subrange(i - 1, all.len() as int);
        assert(tail.subrange(1, tail.len() as int) =~= all.subrange(i, all.len() as int));
        lemma_aggregate_error_carries(all, i - 1, e);
    }
}

/// The models of a sequence of types.
pub open spec fn types_model(args: Seq<DataType>) -> Seq<TypeModel> {
    Seq::new(args.len(), |i: int| args[i]@)
}

/// The one type for the arguments of a function of several arguments.
pub fn aggregate_types(args: &[DataType]) -> (r: Result<DataType, ErrorCode>)
    ensures
        outcome(r) == spec_aggregate_types(types_model(args@)),
        args@.len() == 0 ==> r is Err,
        args@.len() == 1 ==> r is Ok,
{
    let n = args.len();
    if n == 0 {
        return Err(ErrorCode::bad_arguments(String::from_str("Can't aggregate empty args")));
    }
    let ghost all = types_model(args@);
    let mut i: usize = n - 1;
    let mut acc = args[i].clone_type();
    assert(all.subrange(i as int, n as int).len() == 1);
    while i > 0
        invariant
            0 <= i < n,
            n == args@.len(),
            all == types_model(args@),
            spec_aggregate_types(all.subrange(i as int, n as int)) == Ok::<TypeModel, ErrorModel>(
                acc@,
            ),
        decreases i,
    {
        i -= 1;
        proof {
            let tail = all.subrange(i as int, n as int);
            assert(tail.subrange(1, tail.len() as int) =~= all.subrange(i + 1, n as int));
            assert(tail[0] == args@[i as int]@);
        }
        acc = match merge_types(&args[i], &acc) {
            Ok(t) => t,
            Err(e) => {
                proof {
                    lemma_aggregate_error_carries(all, i as int, e@);
                }
                return Err(e);
            },
        };
    }
    proof {
        assert(all.subrange(0, n as int) =~= all);
    }
    Ok(acc)
}

} // verus!
