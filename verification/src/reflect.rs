//! The vocabulary of reflection: what kind of value a field holds, and why a
//! reflected write was refused, each with the text shown to the user.

use crate::text::{chars_of, string_of};
use vstd::prelude::*;

verus! {

/// What kind of value a field holds.
#[derive(Debug, Clone, PartialEq, Eq)]
pub enum ValueKind {
    Bool,
    Int,
    Float,
    Str,
    Vec2,
    IVec2,
    Rect,
    /// An asset path: a string, but one the inspector shows as a file picker
    /// rather than a text field.
    Asset,
    /// A nested reflected struct, named so the registry can resolve it.
    Struct(&'static str),
    /// A static reference rather than a `Box`: a field description is a
    /// `static`, where nothing can be allocated.
    List(&'static ValueKind),
    Enum(&'static str),
    Option(&'static ValueKind),
}

/// The text a kind is shown as: `[int]` for a list of integers, `int?` for an
/// optional one, a struct or an enum by its name.
pub open spec fn kind_text(kind: ValueKind) -> Seq<char>
    decreases kind,
{
    match kind {
        ValueKind::Bool => "bool"@,
        ValueKind::Int => "int"@,
        ValueKind::Float => "float"@,
        ValueKind::Str => "string"@,
        ValueKind::Vec2 => "Vec2"@,
        ValueKind::IVec2 => "IVec2"@,
        ValueKind::Rect => "Rect"@,
        ValueKind::Asset => "asset"@,
        ValueKind::Struct(name) => name@,
        ValueKind::Enum(name) => name@,
        ValueKind::List(inner) => seq!['['] + kind_text(*inner) + seq![']'],
        ValueKind::Option(inner) => kind_text(*inner).push('?'),
    }
}

/// Appends the characters of `s`.
fn push_str(out: &mut Vec<char>, s: &str)
    ensures
        final(out)@ == old(out)@ + s@,
{
    let chars = chars_of(s);
    let mut i: usize = 0;
    while i < chars.len()
        invariant
            i <= chars@.len(),
            out@ == old(out)@ + chars@.take(i as int),
        decreases chars@.len() - i,
    {
        out.push(chars[i]);
        proof {
            assert(chars@.take(i as int + 1) =~= chars@.take(i as int).push(chars@[i as int]));
        }
        i = i + 1;
    }
    proof {
        assert(chars@.take(i as int) =~= chars@);
    }
}

impl ValueKind {
    /// Appends the text of this kind.
    fn write_to(&self, out: &mut Vec<char>)
        ensures
            final(out)@ == old(out)@ + kind_text(*self),
        decreases self,
    {
        proof {
            reveal_strlit("bool");
            reveal_strlit("int");
            reveal_strlit("float");
            reveal_strlit("string");
            reveal_strlit("Vec2");
            reveal_strlit("IVec2");
            reveal_strlit("Rect");
            reveal_strlit("asset");
        }
        match self {
            ValueKind::Bool => push_str(out, "bool"),
            ValueKind::Int => push_str(out, "int"),
            ValueKind::Float => push_str(out, "float"),
            ValueKind::Str => push_str(out, "string"),
            ValueKind::Vec2 => push_str(out, "Vec2"),
            ValueKind::IVec2 => push_str(out, "IVec2"),
            ValueKind::Rect => push_str(out, "Rect"),
            ValueKind::Asset => push_str(out, "asset"),
            ValueKind::Struct(name) => push_str(out, name),
            ValueKind::Enum(name) => push_str(out, name),
            ValueKind::List(inner) => {
                let ghost start = out@;
                out.push('[');
                inner.write_to(out);
                out.push(']');
                proof {
                    assert(out@ =~= start + (seq!['['] + kind_text(**inner) + seq![']']));
                }
            },
            ValueKind::Option(inner) => {
                let ghost start = out@;
                inner.write_to(out);
                out.push('?');
                proof {
                    assert(out@ =~= start + kind_text(**inner).push('?'));
                }
            },
        }
    }

    /// The text this kind is shown as, in error messages and the inspector.
    pub fn describe(&self) -> (r: String)
        ensures
            r@ == kind_text(*self),
    {
        let mut out: Vec<char> = Vec::new();
        self.write_to(&mut out);
        proof {
            assert(out@ =~= kind_text(*self));
        }
        string_of(&out)
    }
}

/// Why a reflected write was refused.
#[derive(Debug, Clone)]
pub enum ReflectError {
    /// No field by that name: the owning type, and the name that was asked for.
    UnknownField { owner: &'static str, field: String },
    /// The value did not match the field's type.
    TypeMismatch { field: String, expected: String, got: &'static str },
    /// The field is read-only and cannot be written through a plain write.
    Readonly { field: String },
    /// An integer would not fit the field's type, or a float was not finite.
    OutOfRange { field: String, detail: String },
}

/// The message a refusal is shown with.
pub open spec fn error_text(e: ReflectError) -> Seq<char> {
    match e {
        ReflectError::UnknownField { owner, field } => owner@ + " has no field `"@ + field@
            + "`"@,
        ReflectError::TypeMismatch { field, expected, got } => "field `"@ + field@ + "` expects "@
            + expected@ + ", got "@ + got@,
        ReflectError::Readonly { field } => "field `"@ + field@ + "` is read-only"@,
        ReflectError::OutOfRange { field, detail } => "value out of range for field `"@ + field@
            + "`: "@ + detail@,
    }
}

impl ReflectError {
    /// The message shown for this refusal.
    pub fn message(&self) -> (r: String)
        ensures
            r@ == error_text(*self),
    {
        let mut out: Vec<char> = Vec::new();
        match self {
            ReflectError::UnknownField { owner, field } => {
                push_str(&mut out, owner);
                push_str(&mut out, " has no field `");
                push_str(&mut out, field.as_str());
                push_str(&mut out, "`");
            },
            ReflectError::TypeMismatch { field, expected, got } => {
                push_str(&mut out, "field `");
                push_str(&mut out, field.as_str());
                push_str(&mut out, "` expects ");
                push_str(&mut out, expected.as_str());
                push_str(&mut out, ", got ");
                push_str(&mut out, got);
            },
            ReflectError::Readonly { field } => {
                push_str(&mut out, "field `");
                push_str(&mut out, field.as_str());
                push_str(&mut out, "` is read-only");
            },
            ReflectError::OutOfRange { field, detail } => {
                push_str(&mut out, "value out of range for field `");
                push_str(&mut out, field.as_str());
                push_str(&mut out, "`: ");
                push_str(&mut out, detail.as_str());
            },
        }
        proof {
            assert(out@ =~= error_text(*self));
        }
        string_of(&out)
    }
}

} // verus!
