use vstd::prelude::*;

verus! {

/// A labeled tree with ordered children: the shape of a parsed pattern.
/// A leaf is a node whose list of children is empty.  The order of the
/// children carries meaning (left and right operands).
#[derive(Debug, PartialEq)]
pub struct Ast<T> {
    pub token: T,
    pub children: Vec<Ast<T>>,
}

impl<T> Ast<T> {
    pub fn new(token: T, children: Vec<Ast<T>>) -> (r: Self)
        ensures
            r.token == token,
            r.children@ == children@,
    {
        Ast { token, children }
    }

    pub fn token(&self) -> (r: &T)
        ensures
            *r == self.token,
    {
        &self.token
    }

    pub fn children(&self) -> (r: &Vec<Ast<T>>)
        ensures
            r@ == self.children@,
    {
        &self.children
    }
}

} // verus!
