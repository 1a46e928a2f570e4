use vstd::prelude::*;

verus! {

/// Either nothing or a boxed `ObjA`.
#[derive(Debug)]
pub enum EA {
    Empty,
    MyBox { val: Box<ObjA> },
}

/// Either nothing or a boxed `ObjB`.
#[derive(Debug)]
pub enum EB {
    Empty,
    MyBox { val: Box<ObjB> },
}

/// An object that may own an `ObjA`.
#[derive(Debug)]
pub struct ObjB {
    pub x: EA,
}

/// An object that may own an `ObjB`.
#[derive(Debug)]
pub struct ObjA {
    pub x: EB,
}

impl ObjB {
    /// An `ObjB` that owns the given `ObjA`.
    pub fn set_x(x_in: ObjA) -> (r: ObjB)
        ensures
            r.x matches EA::MyBox { val } && *val == x_in,
    {
        ObjB { x: EA::MyBox { val: Box::new(x_in) } }
    }
}

impl ObjA {
    /// An `ObjA` that owns the given `ObjB`.
    pub fn set_x(x_in: ObjB) -> (r: ObjA)
        ensures
            r.x matches EB::MyBox { val } && *val == x_in,
    {
        ObjA { x: EB::MyBox { val: Box::new(x_in) } }
    }
}

} // verus!
