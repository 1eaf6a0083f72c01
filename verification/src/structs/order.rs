//! A line of the order list.

use vstd::prelude::*;

verus! {

/// An order: so many labels of a code.
#[derive(Debug, Clone)]
pub struct Order {
    pub code: u64,
    pub amount: u64,
    pub description: String,
}

impl Order {
    /// The order of `amount` labels of `code`.
    pub fn new(code: u64, amount: u64, description: &str) -> (o: Order)
        ensures
            o.code == code,
            o.amount == amount,
            o.description@ == description@,
    {
        Order { code, amount, description: description.to_owned() }
    }

    /// An equal order.
    pub fn duplicate(&self) -> (o: Order)
        ensures
            o == *self,
    {
        Order { code: self.code, amount: self.amount, description: self.description.clone() }
    }
}

} // verus!
