use metastore::datavalues::data_type::{DataField, DataType, IntervalUnit};
use metastore::datavalues::data_type_coercion::{
    aggregate_types, compare_coercion, construct_numeric_type, datetime_arithmetic_coercion,
    interval_arithmetic_coercion, merge_types, next_size, numerical_arithmetic_coercion,
    numerical_coercion, numerical_unary_arithmetic_coercion,
};
use metastore::datavalues::data_value_operator::DataValueArithmeticOperator;
use metastore::exception::ErrorKind;
use metastore::text::{bool_text, decimal};

#[test]
fn next_size_doubles_below_eight() {
    assert_eq!(next_size(0), 0);
    assert_eq!(next_size(1), 2);
    assert_eq!(next_size(2), 4);
    assert_eq!(next_size(4), 8);
    assert_eq!(next_size(7), 14);
    assert_eq!(next_size(8), 8);
    assert_eq!(next_size(16), 16);
}

#[test]
fn decimal_writes_digits() {
    assert_eq!(decimal(0).as_str(), "0");
    assert_eq!(decimal(7).as_str(), "7");
    assert_eq!(decimal(10).as_str(), "10");
    assert_eq!(decimal(1234567890).as_str(), "1234567890");
    assert_eq!(bool_text(true), "true");
    assert_eq!(bool_text(false), "false");
}

#[test]
fn construct_numeric_type_table() {
    assert_eq!(construct_numeric_type(false, false, 1).unwrap(), DataType::UInt8);
    assert_eq!(construct_numeric_type(false, false, 2).unwrap(), DataType::UInt16);
    assert_eq!(construct_numeric_type(false, false, 4).unwrap(), DataType::UInt32);
    assert_eq!(construct_numeric_type(false, false, 8).unwrap(), DataType::UInt64);
    assert_eq!(construct_numeric_type(false, true, 4).unwrap(), DataType::Float32);
    assert_eq!(construct_numeric_type(false, true, 8).unwrap(), DataType::Float64);
    assert_eq!(construct_numeric_type(true, false, 1).unwrap(), DataType::Int8);
    assert_eq!(construct_numeric_type(true, false, 2).unwrap(), DataType::Int16);
    assert_eq!(construct_numeric_type(true, false, 4).unwrap(), DataType::Int32);
    assert_eq!(construct_numeric_type(true, false, 8).unwrap(), DataType::Int64);
    assert_eq!(construct_numeric_type(true, true, 1).unwrap(), DataType::Float32);
    assert_eq!(construct_numeric_type(true, true, 2).unwrap(), DataType::Float32);
    assert_eq!(construct_numeric_type(true, true, 4).unwrap(), DataType::Float32);
    assert_eq!(construct_numeric_type(true, true, 8).unwrap(), DataType::Float64);
}

#[test]
fn construct_numeric_type_lets_wide_types_overflow() {
    assert_eq!(construct_numeric_type(false, false, 16).unwrap(), DataType::Int64);
    assert_eq!(construct_numeric_type(true, false, 16).unwrap(), DataType::UInt64);
    assert_eq!(construct_numeric_type(false, true, 9).unwrap(), DataType::Float64);
    assert_eq!(construct_numeric_type(true, true, 100).unwrap(), DataType::Float64);
}

#[test]
fn construct_numeric_type_rejects_other_widths() {
    let e = construct_numeric_type(false, true, 2).unwrap_err();
    assert_eq!(e.kind(), ErrorKind::BadDataValueType);
    assert_eq!(
        e.message().as_str(),
        "Can't construct type from is_signed: false, is_floating: true, byte_size: 2"
    );
    let e = construct_numeric_type(true, false, 3).unwrap_err();
    assert_eq!(
        e.message().as_str(),
        "Can't construct type from is_signed: true, is_floating: false, byte_size: 3"
    );
    assert!(construct_numeric_type(false, false, 0).is_err());
}

#[test]
fn numerical_coercion_widens_mixed_signs() {
    assert_eq!(
        numerical_coercion(&DataType::Int8, &DataType::UInt8, false).unwrap(),
        DataType::Int16
    );
    assert_eq!(
        numerical_coercion(&DataType::UInt8, &DataType::UInt16, false).unwrap(),
        DataType::UInt16
    );
    assert_eq!(
        numerical_coercion(&DataType::Int32, &DataType::Int8, false).unwrap(),
        DataType::Int32
    );
    assert_eq!(
        numerical_coercion(&DataType::Float32, &DataType::Int32, false).unwrap(),
        DataType::Float64
    );
    assert_eq!(
        numerical_coercion(&DataType::Float32, &DataType::Int16, false).unwrap(),
        DataType::Float32
    );
}

#[test]
fn numerical_coercion_overflow() {
    assert_eq!(
        numerical_coercion(&DataType::Int64, &DataType::UInt64, true).unwrap(),
        DataType::Int64
    );
    let e = numerical_coercion(&DataType::Int64, &DataType::UInt64, false).unwrap_err();
    assert_eq!(e.kind(), ErrorKind::BadDataValueType);
    assert_eq!(e.message().as_str(), "Can't construct type from Int64 and UInt64");
}

#[test]
fn numerical_coercion_rejects_other_types() {
    let e = numerical_coercion(&DataType::String, &DataType::UInt64, true).unwrap_err();
    assert_eq!(e.kind(), ErrorKind::BadArguments);
    assert_eq!(
        e.message().as_str(),
        "Function number_byte_size argument must be numeric types, but got String"
    );
    let e = numerical_coercion(&DataType::UInt8, &DataType::Boolean, true).unwrap_err();
    assert_eq!(
        e.message().as_str(),
        "Function number_byte_size argument must be numeric types, but got Boolean"
    );
}

#[test]
fn arithmetic_coercion_by_operator() {
    let plus = DataValueArithmeticOperator::Plus;
    let minus = DataValueArithmeticOperator::Minus;
    let mul = DataValueArithmeticOperator::Mul;
    let div = DataValueArithmeticOperator::Div;
    let int_div = DataValueArithmeticOperator::IntDiv;
    let modulo = DataValueArithmeticOperator::Modulo;
    let u8t = DataType::UInt8;
    let i32t = DataType::Int32;
    assert_eq!(numerical_arithmetic_coercion(&plus, &u8t, &u8t).unwrap(), DataType::UInt16);
    assert_eq!(numerical_arithmetic_coercion(&mul, &u8t, &i32t).unwrap(), DataType::Int64);
    assert_eq!(numerical_arithmetic_coercion(&minus, &u8t, &u8t).unwrap(), DataType::Int16);
    assert_eq!(numerical_arithmetic_coercion(&div, &u8t, &u8t).unwrap(), DataType::Float64);
    assert_eq!(numerical_arithmetic_coercion(&int_div, &u8t, &i32t).unwrap(), DataType::Int32);
    assert_eq!(numerical_arithmetic_coercion(&modulo, &i32t, &u8t).unwrap(), DataType::Int16);
    assert_eq!(numerical_arithmetic_coercion(&modulo, &u8t, &i32t).unwrap(), DataType::UInt32);
    assert_eq!(
        numerical_arithmetic_coercion(&modulo, &DataType::Float32, &u8t).unwrap(),
        DataType::Float64
    );
    assert_eq!(
        numerical_arithmetic_coercion(&plus, &DataType::Int64, &DataType::UInt64).unwrap(),
        DataType::Int64
    );
}

#[test]
fn arithmetic_coercion_rejects_other_types() {
    let e = numerical_arithmetic_coercion(
        &DataValueArithmeticOperator::Plus,
        &DataType::String,
        &DataType::Int8,
    )
    .unwrap_err();
    assert_eq!(e.kind(), ErrorKind::BadDataValueType);
    assert_eq!(e.message().as_str(), "DataValue Error: Unsupported (String) plus (Int8)");
}

#[test]
fn datetime_coercion() {
    let plus = DataValueArithmeticOperator::Plus;
    let minus = DataValueArithmeticOperator::Minus;
    let mul = DataValueArithmeticOperator::Mul;
    assert_eq!(
        datetime_arithmetic_coercion(&plus, &DataType::Date16, &DataType::Int8).unwrap(),
        DataType::Date16
    );
    assert_eq!(
        datetime_arithmetic_coercion(&plus, &DataType::Int8, &DataType::Date32).unwrap(),
        DataType::Date32
    );
    assert_eq!(
        datetime_arithmetic_coercion(&minus, &DataType::Date32, &DataType::Date32).unwrap(),
        DataType::Int32
    );
    assert_eq!(
        datetime_arithmetic_coercion(
            &minus,
            &DataType::DateTime32(None),
            &DataType::Interval(IntervalUnit::DayTime)
        )
        .unwrap(),
        DataType::DateTime32(None)
    );
    let e = datetime_arithmetic_coercion(&mul, &DataType::Date16, &DataType::Int8).unwrap_err();
    assert_eq!(e.kind(), ErrorKind::BadDataValueType);
    assert_eq!(
        e.message().as_str(),
        "DataValue Error: Unsupported date coercion (Date16) multiply (Int8)"
    );
    assert!(datetime_arithmetic_coercion(&plus, &DataType::Int8, &DataType::Int8).is_err());
}

#[test]
fn interval_coercion() {
    let plus = DataValueArithmeticOperator::Plus;
    let div = DataValueArithmeticOperator::Div;
    let interval = DataType::Interval(IntervalUnit::YearMonth);
    assert_eq!(
        interval_arithmetic_coercion(&plus, &DataType::Date16, &interval).unwrap(),
        DataType::Date16
    );
    assert_eq!(
        interval_arithmetic_coercion(&plus, &interval, &DataType::Date32).unwrap(),
        DataType::Date32
    );
    assert!(interval_arithmetic_coercion(&div, &DataType::Date16, &interval).is_err());
    let e = interval_arithmetic_coercion(&plus, &DataType::Date16, &DataType::Int8).unwrap_err();
    assert_eq!(
        e.message().as_str(),
        "DataValue Error: Unsupported date coercion (Date16) plus (Int8)"
    );
}

#[test]
fn unary_coercion() {
    let plus = DataValueArithmeticOperator::Plus;
    let minus = DataValueArithmeticOperator::Minus;
    let mul = DataValueArithmeticOperator::Mul;
    assert_eq!(
        numerical_unary_arithmetic_coercion(&plus, &DataType::UInt8).unwrap(),
        DataType::UInt8
    );
    assert_eq!(
        numerical_unary_arithmetic_coercion(&minus, &DataType::UInt8).unwrap(),
        DataType::Int16
    );
    assert_eq!(
        numerical_unary_arithmetic_coercion(&minus, &DataType::Int32).unwrap(),
        DataType::Int32
    );
    assert_eq!(
        numerical_unary_arithmetic_coercion(&minus, &DataType::Float32).unwrap(),
        DataType::Float32
    );
    let e = numerical_unary_arithmetic_coercion(&mul, &DataType::Int8).unwrap_err();
    assert_eq!(e.kind(), ErrorKind::UnknownFunction);
    assert_eq!(e.message().as_str(), "Unexpected operator:Mul to unary function");
    let e = numerical_unary_arithmetic_coercion(&minus, &DataType::String).unwrap_err();
    assert_eq!(e.kind(), ErrorKind::BadDataValueType);
    assert_eq!(e.message().as_str(), "DataValue Error: Unsupported (String)");
}

#[test]
fn compare_coercion_rules() {
    assert_eq!(compare_coercion(&DataType::String, &DataType::String).unwrap(), DataType::String);
    assert_eq!(compare_coercion(&DataType::Int8, &DataType::UInt8).unwrap(), DataType::Int16);
    assert_eq!(compare_coercion(&DataType::Int64, &DataType::UInt64).unwrap(), DataType::Int64);
    assert_eq!(compare_coercion(&DataType::Null, &DataType::Boolean).unwrap(), DataType::Boolean);
    assert_eq!(compare_coercion(&DataType::Boolean, &DataType::Null).unwrap(), DataType::Boolean);
    assert_eq!(compare_coercion(&DataType::String, &DataType::Int8).unwrap(), DataType::Float64);
    assert_eq!(compare_coercion(&DataType::String, &DataType::Date16).unwrap(), DataType::Date16);
    assert_eq!(compare_coercion(&DataType::Date32, &DataType::Int8).unwrap(), DataType::Date32);
    assert_eq!(compare_coercion(&DataType::Date16, &DataType::Date32).unwrap(), DataType::Date32);
    assert_eq!(
        compare_coercion(&DataType::Date16, &DataType::DateTime32(Some("UTC".to_string())))
            .unwrap(),
        DataType::DateTime32(None)
    );
    let e = compare_coercion(&DataType::Boolean, &DataType::String).unwrap_err();
    assert_eq!(e.kind(), ErrorKind::IllegalDataType);
    assert_eq!(e.message().as_str(), "Can not compare Boolean with String");
}

#[test]
fn merge_types_rules() {
    assert_eq!(merge_types(&DataType::Null, &DataType::Int8).unwrap(), DataType::Int8);
    assert_eq!(merge_types(&DataType::Int8, &DataType::Null).unwrap(), DataType::Int8);
    assert_eq!(merge_types(&DataType::Int8, &DataType::Int8).unwrap(), DataType::Int8);
    assert_eq!(merge_types(&DataType::Int8, &DataType::UInt8).unwrap(), DataType::Int16);
    let e = merge_types(&DataType::Int64, &DataType::UInt64).unwrap_err();
    assert_eq!(e.message().as_str(), "Can't construct type from Int64 and UInt64");
    let e = merge_types(&DataType::String, &DataType::UInt64).unwrap_err();
    assert_eq!(e.kind(), ErrorKind::BadDataValueType);
    assert_eq!(e.message().as_str(), "Can't merge types from String and UInt64");
}

#[test]
fn merge_types_of_lists_and_structs() {
    let a = DataType::List(Box::new(DataField::new("item", DataType::Int8, false)));
    let b = DataType::List(Box::new(DataField::new("item", DataType::UInt8, true)));
    assert_eq!(
        merge_types(&a, &b).unwrap(),
        DataType::List(Box::new(DataField::new("item", DataType::Int16, true)))
    );
    let c = DataType::List(Box::new(DataField::new("other", DataType::UInt8, true)));
    assert_eq!(
        merge_types(&a, &c).unwrap_err().message().as_str(),
        "Can't merge types from List and List"
    );
    let s1 = DataType::Struct(vec![
        DataField::new("x", DataType::Int8, false),
        DataField::new("y", DataType::Null, false),
    ]);
    let s2 = DataType::Struct(vec![
        DataField::new("x", DataType::Int32, false),
        DataField::new("y", DataType::String, true),
    ]);
    assert_eq!(
        merge_types(&s1, &s2).unwrap(),
        DataType::Struct(vec![
            DataField::new("x", DataType::Int32, false),
            DataField::new("y", DataType::String, true),
        ])
    );
    let s3 = DataType::Struct(vec![DataField::new("x", DataType::Int8, false)]);
    assert_eq!(
        merge_types(&s1, &s3).unwrap_err().message().as_str(),
        "Can't merge types from Struct and Struct, because they have different sizes"
    );
    let s4 = DataType::Struct(vec![
        DataField::new("x", DataType::Int8, false),
        DataField::new("z", DataType::Null, false),
    ]);
    assert_eq!(
        merge_types(&s1, &s4).unwrap_err().message().as_str(),
        "Can't merge types from Struct and Struct"
    );
}

#[test]
fn aggregate_types_merges_from_the_right() {
    let e = aggregate_types(&[]).unwrap_err();
    assert_eq!(e.kind(), ErrorKind::BadArguments);
    assert_eq!(e.message().as_str(), "Can't aggregate empty args");
    assert_eq!(aggregate_types(&[DataType::String]).unwrap(), DataType::String);
    assert_eq!(
        aggregate_types(&[DataType::Int8, DataType::Null, DataType::UInt16]).unwrap(),
        DataType::Int32
    );
    assert!(aggregate_types(&[DataType::Int8, DataType::String]).is_err());
}

#[test]
fn same_as_and_clone_type() {
    let t = DataType::Struct(vec![
        DataField::new("a", DataType::DateTime32(Some("UTC".to_string())), true),
        DataField::new("b", DataType::List(Box::new(DataField::new("i", DataType::Int8, false))), false),
    ]);
    let copy = t.clone_type();
    assert_eq!(copy, t);
    assert!(t.same_as(&copy));
    assert!(!t.same_as(&DataType::Null));
    assert!(!DataType::DateTime32(None).same_as(&DataType::DateTime32(Some("UTC".to_string()))));
}
