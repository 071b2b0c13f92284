use std::ops::RangeInclusive;
use vstd::prelude::*;

verus! {

/// Groupings for operators
#[derive(Debug, Clone, Copy, PartialEq, Eq, PartialOrd, Ord, Hash)]
pub enum OperatorCategory {
    Input,
    Output,
    Pattern,
    Generator,
    Filter,
    Converter,
}

/// The display name of each operator category.
pub open spec fn category_name(c: OperatorCategory) -> Seq<char> {
    match c {
        OperatorCategory::Input => "Input"@,
        OperatorCategory::Output => "Output"@,
        OperatorCategory::Pattern => "Pattern"@,
        OperatorCategory::Generator => "Generator"@,
        OperatorCategory::Filter => "Filter"@,
        OperatorCategory::Converter => "Converter"@,
    }
}

/// The position of each operator category in the order in which categories are listed.
pub open spec fn category_rank(c: OperatorCategory) -> int {
    match c {
        OperatorCategory::Input => 0,
        OperatorCategory::Output => 1,
        OperatorCategory::Pattern => 2,
        OperatorCategory::Generator => 3,
        OperatorCategory::Filter => 4,
        OperatorCategory::Converter => 5,
    }
}

impl OperatorCategory {
    /// The display name of the category.
    pub fn to_local_string(&self) -> (res: &'static str)
        ensures
            res@ == category_name(*self),
    {
        match self {
            OperatorCategory::Input => "Input",
            OperatorCategory::Output => "Output",
            OperatorCategory::Pattern => "Pattern",
            OperatorCategory::Generator => "Generator",
            OperatorCategory::Filter => "Filter",
            OperatorCategory::Converter => "Converter",
        }
    }

    /// The position of the category in the order in which categories are listed.
    pub fn rank(&self) -> (res: u8)
        ensures
            res == category_rank(*self),
    {
        match self {
            OperatorCategory::Input => 0,
            OperatorCategory::Output => 1,
            OperatorCategory::Pattern => 2,
            OperatorCategory::Generator => 3,
            OperatorCategory::Filter => 4,
            OperatorCategory::Converter => 5,
        }
    }
}

/// Width of the operator node, in pixels.
#[derive(Debug, Clone)]
pub struct DisplayWidth(pub i32);

/// Name of this operator or operator property.
#[derive(Debug, Clone)]
pub struct DisplayName(pub &'static str);

/// Name of this operator or operator property.
#[derive(Debug, Clone)]
pub struct OperatorClass(pub OperatorCategory);

/// Description / documentation for the operator.
#[derive(Debug, Clone)]
pub struct OperatorDescription(pub &'static str);

/// Indicates that an operator property is an input terminal.
#[derive(Debug, Clone)]
pub struct OperatorInput;

/// Indicates that an operator property is an output terminal.
#[derive(Debug, Clone)]
pub struct OperatorOutput;

/// Indicates that an operator input terminal should not have an editable widget when not
/// connected.
#[derive(Debug, Clone)]
pub struct OperatorInputOnly;

/// An attribute that specifies the minimum and maximum allowed values for a field.
/// This range is inclusive.
///
/// This attribute can be applied to numeric fields. It can also be applied to aggregate types
/// that have a numeric type parameter, such as an `Option<f32>` or `Vec<i8>`.
#[derive(Debug)]
pub struct OpValueRange<T>(pub RangeInclusive<T>);

/// An attribute that specifies how many decimal digits of precision should be allowed.
/// If the field is an integer, this will be ignored. If present, field values will be
/// rounded to the nearest value with the specified number of decimal digits.
///
/// This attribute can be applied to numeric fields. It can also be applied to aggregate types
/// that have a numeric type parameter, such as an `Option<f32>` or `Vec<i8>`.
#[derive(Debug, Clone)]
pub struct OpValuePrecision(pub usize);

/// An attribute that specifies the increment and decrement step size for a numeric field.
/// If not present, the step size will be determined from the precision. If the precision is
/// not present, a heuristic will be used based on the range.
///
/// This attribute can be applied to numeric fields. It can also be applied to aggregate types
/// that have a numeric type parameter, such as an `Option<f32>` or `Vec<i8>`.
#[derive(Debug, Clone)]
pub struct OpValueStep<T>(pub T);

/// Plugin that registers the built-in operators.
pub struct OperatorsPlugin;

} // verus!
