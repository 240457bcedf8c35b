use vstd::prelude::*;
use vstd::string::StringExecFns;
use crate::parser::Name;

verus! {

/// A simple type: the unit type, or a function type from a domain to a codomain.
#[derive(Debug, PartialEq, Eq)]
pub enum Ty {
    Unit,
    Arrow(Box<Ty>, Box<Ty>),
}

/// A binder's surface name together with the type it was annotated with.
#[derive(Debug, PartialEq, Eq)]
pub struct Binding {
    pub name: Name,
    pub ty: Ty,
}

impl Clone for Ty {
    fn clone(&self) -> (res: Self)
        ensures
            res == *self,
        decreases *self,
    {
        match self {
            Ty::Unit => Ty::Unit,
            Ty::Arrow(a, b) => Ty::Arrow(Box::new((**a).clone()), Box::new((**b).clone())),
        }
    }
}

impl Ty {
    /// Structural equality of two types.
    pub fn same(&self, other: &Ty) -> (res: bool)
        ensures
            res == (*self == *other),
        decreases *self,
    {
        match (self, other) {
            (Ty::Unit, Ty::Unit) => true,
            (Ty::Arrow(a1, b1), Ty::Arrow(a2, b2)) => a1.same(a2) && b1.same(b2),
            _ => false,
        }
    }
}

impl Clone for Binding {
    fn clone(&self) -> (res: Self)
        ensures
            res == *self,
    {
        Binding { name: self.name, ty: self.ty.clone() }
    }
}

impl Ty {
    /// The type as it is written: `Unit`, or `(` domain ` -> ` codomain `)`.
    pub open spec fn spelling(self) -> Seq<char>
        decreases self,
    {
        match self {
            Ty::Unit => "Unit"@,
            Ty::Arrow(a, b) => "("@ + a.spelling() + " -> "@ + b.spelling() + ")"@,
        }
    }

    /// Appends the written form of the type to `out`.
    pub fn write_to(&self, out: &mut String)
        ensures
            final(out)@ == old(out)@ + self.spelling(),
        decreases self,
    {
        match self {
            Ty::Unit => {
                out.append("Unit");
            },
            Ty::Arrow(a, b) => {
                out.append("(");
                a.write_to(out);
                out.append(" -> ");
                b.write_to(out);
                out.append(")");
                assert(out@ == old(out)@ + self.spelling());
            },
        }
    }

    /// The type as it is written.
    pub fn render(&self) -> (text: String)
        ensures
            text@ == self.spelling(),
    {
        let mut text = String::new();
        self.write_to(&mut text);
        assert(text@ == self.spelling());
        text
    }
}

} // verus!
