//! One message to hide, with the password that finds it again.

use vstd::prelude::*;

verus! {

/// A plaintext and its password.
#[derive(Clone, Debug)]
pub struct Item {
    pub password: Vec<u8>,
    pub content: Vec<u8>,
}

impl Item {
    /// An item that holds copies of `password` and `content`.
    pub fn new(password: &Vec<u8>, content: &Vec<u8>) -> (item: Item)
        ensures
            item.password@ == password@,
            item.content@ == content@,
    {
        Item { password: password.clone(), content: content.clone() }
    }
}

} // verus!
