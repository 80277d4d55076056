//! Categories: the labels that transactions and rules refer to.

use vstd::prelude::*;

verus! {

/// A category. Transactions and rules refer to it by identifier.
#[derive(Debug)]
pub struct Category {
    pub category_id: i32,
    pub name: String,
    pub description: String,
}

/// What a [`Category`] holds, as plain values.
pub struct CategoryView {
    pub category_id: i32,
    pub name: Seq<char>,
    pub description: Seq<char>,
}

impl View for Category {
    type V = CategoryView;

    open spec fn view(&self) -> CategoryView {
        CategoryView {
            category_id: self.category_id,
            name: self.name@,
            description: self.description@,
        }
    }
}

impl Clone for Category {
    fn clone(&self) -> (r: Self)
        ensures
            r@ == self@,
    {
        Category {
            category_id: self.category_id,
            name: self.name.clone(),
            description: self.description.clone(),
        }
    }
}

} // verus!
