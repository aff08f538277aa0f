//! A JSON text parser: a reader over an in-memory string, a recursive-descent
//! parser for the JSON grammar proved against a functional model of that
//! grammar, and a tree of typed values with deep structural equality.

pub mod grammar;
pub mod reader;
pub mod value;

pub use reader::ParseError;
pub use reader::Reader;
pub use value::Number;
pub use value::SpecValue;
pub use value::Value;
pub use value::eq_array;
pub use value::eq_false;
pub use value::eq_null;
pub use value::eq_number;
pub use value::eq_object;
pub use value::eq_string;
pub use value::eq_true;
pub use value::eq_value;
pub use value::object_insert;
pub use value::value_name;
pub use value::value_string;
