//! The greatest of a sequence of scalar values.
//!
//! A [`scalar::ScalarValue`] is a boolean, a 32- or 64-bit integer, a
//! binary32 or binary64 floating-point number or a text, each of which may
//! be missing, or the null value. [`greatest::greatest`] reduces a
//! sequence of them to its maximum with [`greatest::compare_values`],
//! which brings two numbers of different kinds to one kind before it
//! compares them.
//!
//! Floating-point numbers are held as their IEEE 754 encodings and are
//! compared and converted by integer arithmetic on these: see
//! [`single::Single`] and [`double::Double`].

pub mod binary;
pub mod double;
pub mod greatest;
pub mod order;
pub mod scalar;
pub mod single;
pub mod text;
