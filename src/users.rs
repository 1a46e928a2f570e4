use vstd::prelude::*;

verus! {

/// A row of the users table: identifier, name and age.
#[derive(Debug)]
pub struct User {
    pub id: i32,
    pub name: String,
    pub age: i32,
}

} // verus!
