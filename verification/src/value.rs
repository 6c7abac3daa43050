//! Scalar values and data types.
use crate::text::{
    chars_of, eq_ignore_ascii_case, parse_i32_chars, starts_with_chars, string_of, trim_chars,
    trim_matches_chars,
};
use vstd::prelude::*;
use vstd::string::*;

verus! {

/// Supported data types.
#[derive(Debug, Clone, Copy, PartialEq, Eq, Hash, Structural)]
pub enum DataType {
    /// 4-byte signed integer
    Integer,
    /// 1-byte boolean
    Boolean,
    /// Variable-length string
    Varchar,
}

/// A scalar value held in a tuple.
#[derive(Debug, Clone, PartialEq, Eq, Hash)]
pub enum Value {
    /// SQL NULL
    Null,
    /// 4-byte signed integer
    Integer(i32),
    /// 1-byte boolean
    Boolean(bool),
    /// Variable-length string
    Varchar(String),
}

/// The mathematical content of a [`Value`].
pub enum ValueView {
    Null,
    Integer(i32),
    Boolean(bool),
    Varchar(Seq<char>),
}

impl View for Value {
    type V = ValueView;

    open spec fn view(&self) -> ValueView {
        match self {
            Value::Null => ValueView::Null,
            Value::Integer(i) => ValueView::Integer(*i),
            Value::Boolean(b) => ValueView::Boolean(*b),
            Value::Varchar(s) => ValueView::Varchar(s@),
        }
    }
}

/// The data type a value carries, if it is not NULL.
pub open spec fn value_type(v: ValueView) -> Option<DataType> {
    match v {
        ValueView::Null => None,
        ValueView::Integer(_) => Some(DataType::Integer),
        ValueView::Boolean(_) => Some(DataType::Boolean),
        ValueView::Varchar(_) => Some(DataType::Varchar),
    }
}

/// Bytes a fixed-length type occupies; zero for variable-length types.
pub open spec fn fixed_size(dt: DataType) -> nat {
    match dt {
        DataType::Integer => 4,
        DataType::Boolean => 1,
        DataType::Varchar => 0,
    }
}

/// Views of a sequence of values.
pub open spec fn values_view(vals: Seq<Value>) -> Seq<ValueView> {
    vals.map_values(|v: Value| v@)
}

impl Value {
    /// Returns the underlying data type of this value.
    pub fn data_type(&self) -> (r: Option<DataType>)
        ensures
            r == value_type(self@),
    {
        match self {
            Value::Null => None,
            Value::Integer(_) => Some(DataType::Integer),
            Value::Boolean(_) => Some(DataType::Boolean),
            Value::Varchar(_) => Some(DataType::Varchar),
        }
    }

    /// Determines if values of the type have a fixed length.
    pub fn is_fixed_length(dt: DataType) -> (r: bool)
        ensures
            r == (dt != DataType::Varchar),
    {
        match dt {
            DataType::Integer | DataType::Boolean => true,
            DataType::Varchar => false,
        }
    }

    /// Returns the size in bytes for fixed-length data types (0 for variable length).
    pub fn fixed_length_size(dt: DataType) -> (r: usize)
        ensures
            r == fixed_size(dt),
    {
        match dt {
            DataType::Integer => 4,
            DataType::Boolean => 1,
            DataType::Varchar => 0,
        }
    }

    /// A copy of this value with the same content.
    pub fn duplicate(&self) -> (r: Value)
        ensures
            r@ == self@,
    {
        match self {
            Value::Null => Value::Null,
            Value::Integer(i) => Value::Integer(*i),
            Value::Boolean(b) => Value::Boolean(*b),
            Value::Varchar(s) => Value::Varchar(s.clone()),
        }
    }
}

/// The message for a string that does not read as the expected type.
pub open spec fn type_error(dt: DataType, t: Seq<char>) -> Seq<char> {
    match dt {
        DataType::Integer => "TypeError: Expected Integer, got '"@ + t + "'"@,
        DataType::Boolean => "TypeError: Expected Boolean, got '"@ + t + "'"@,
        DataType::Varchar => "TypeError: Expected Varchar (quoted string), got '"@ + t + "'"@,
    }
}

/// Reading a value of type `dt` from text: surrounding whitespace is ignored, `null` in any
/// ASCII case is NULL, integers are read as `str::parse::<i32>` does, booleans are `true` or
/// `false` in any ASCII case, and strings must start with a quote, which is stripped (all
/// leading and trailing single quotes, then all leading and trailing double quotes).
pub open spec fn parse_value(s: Seq<char>, dt: DataType) -> Result<ValueView, Seq<char>> {
    let t = crate::text::trim(s);
    if crate::text::eq_ignore_case(t, seq!['n', 'u', 'l', 'l']) {
        Ok(ValueView::Null)
    } else {
        match dt {
            DataType::Integer => match crate::text::parse_i32(t) {
                Some(v) => Ok(ValueView::Integer(v)),
                None => Err(type_error(dt, t)),
            },
            DataType::Boolean => if crate::text::eq_ignore_case(t, seq!['t', 'r', 'u', 'e']) {
                Ok(ValueView::Boolean(true))
            } else if crate::text::eq_ignore_case(t, seq!['f', 'a', 'l', 's', 'e']) {
                Ok(ValueView::Boolean(false))
            } else {
                Err(type_error(dt, t))
            },
            DataType::Varchar => if !(crate::text::starts_with(t, seq!['\'']) || crate::text::starts_with(
                t,
                seq!['"'],
            )) {
                Err(type_error(dt, t))
            } else {
                Ok(
                    ValueView::Varchar(
                        crate::text::trim_matches(crate::text::trim_matches(t, '\''), '"'),
                    ),
                )
            },
        }
    }
}

fn type_error_message(dt: DataType, t: &str) -> (r: String)
    ensures
        r@ == type_error(dt, t@),
{
    let mut m = match dt {
        DataType::Integer => String::from_str("TypeError: Expected Integer, got '"),
        DataType::Boolean => String::from_str("TypeError: Expected Boolean, got '"),
        DataType::Varchar => String::from_str("TypeError: Expected Varchar (quoted string), got '"),
    };
    m.append(t);
    m.append("'");
    m
}

impl Value {
    /// Parses a string into a typed value.
    pub fn parse_from_string(s: &str, dt: DataType) -> (r: Result<Self, String>)
        ensures
            match (r, parse_value(s@, dt)) {
                (Ok(v), Ok(w)) => v@ == w,
                (Err(m), Err(w)) => m@ == w,
                _ => false,
            },
    {
        let cs = chars_of(s);
        let t = trim_chars(cs.as_slice());
        let null_word = ['n', 'u', 'l', 'l'];
        assert(null_word@ =~= seq!['n', 'u', 'l', 'l']);
        if eq_ignore_ascii_case(t.as_slice(), null_word.as_slice()) {
            return Ok(Value::Null);
        }
        let text = string_of(t.as_slice());
        match dt {
            DataType::Integer => match parse_i32_chars(t.as_slice()) {
                Some(v) => Ok(Value::Integer(v)),
                None => Err(type_error_message(dt, text.as_str())),
            },
            DataType::Boolean => {
                let true_word = ['t', 'r', 'u', 'e'];
                let false_word = ['f', 'a', 'l', 's', 'e'];
                assert(true_word@ =~= seq!['t', 'r', 'u', 'e']);
                assert(false_word@ =~= seq!['f', 'a', 'l', 's', 'e']);
                if eq_ignore_ascii_case(t.as_slice(), true_word.as_slice()) {
                    Ok(Value::Boolean(true))
                } else if eq_ignore_ascii_case(t.as_slice(), false_word.as_slice()) {
                    Ok(Value::Boolean(false))
                } else {
                    Err(type_error_message(dt, text.as_str()))
                }
            },
            DataType::Varchar => {
                let single = ['\''];
                let double = ['"'];
                assert(single@ =~= seq!['\'']);
                assert(double@ =~= seq!['"']);
                if !starts_with_chars(t.as_slice(), single.as_slice()) && !starts_with_chars(
                    t.as_slice(),
                    double.as_slice(),
                ) {
                    return Err(type_error_message(dt, text.as_str()));
                }
                let a = trim_matches_chars(t.as_slice(), '\'');
                let b = trim_matches_chars(a.as_slice(), '"');
                Ok(Value::Varchar(string_of(b.as_slice())))
            },
        }
    }
}

} // verus!
