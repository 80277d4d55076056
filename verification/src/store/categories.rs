//! Categories of the ledger.

use vstd::prelude::*;
use crate::error::LedgerError;
use crate::ledger::{category_views, Ledger, LedgerView};
use crate::models::categories::{Category, CategoryView};

verus! {

broadcast use crate::ledger::ledger_view_def;

impl LedgerView {
    /// Whether the ledger has a category with this identifier.
    pub open spec fn has_category(self, id: i32) -> bool {
        exists|i: int| 0 <= i < self.categories.len() && (#[trigger] self.categories[i]).category_id == id
    }

    /// The category with identifier `id`.
    pub open spec fn category(self, id: i32) -> Option<CategoryView> {
        if self.has_category(id) {
            Some(
                self.categories[choose|i: int|
                    0 <= i < self.categories.len() && self.categories[i].category_id == id],
            )
        } else {
            None
        }
    }

    /// The category that `Category::new` stores for this name and
    /// description.
    pub open spec fn new_category(self, name: Seq<char>, description: Seq<char>) -> CategoryView {
        CategoryView { category_id: self.next_category_id, name, description }
    }
}

/// In a well-formed ledger one position holds the category with a given
/// identifier.
pub proof fn lemma_category_at(ledger: LedgerView, i: int)
    requires
        ledger.wf(),
        0 <= i < ledger.categories.len(),
    ensures
        ledger.category(ledger.categories[i].category_id) == Some(ledger.categories[i]),
{
    let id = ledger.categories[i].category_id;
    let j = choose|j: int| 0 <= j < ledger.categories.len() && ledger.categories[j].category_id == id;
    if j < i {
        assert(ledger.categories[j].category_id < ledger.categories[i].category_id);
    } else if i < j {
        assert(ledger.categories[i].category_id < ledger.categories[j].category_id);
    }
}

/// Finds the category with identifier `id`.
pub(crate) fn find_category(categories: &Vec<Category>, id: i32) -> (r: Option<usize>)
    ensures
        match r {
            Some(i) => i < categories@.len() && category_views(categories@)[i as int].category_id == id,
            None => forall|k: int|
                0 <= k < categories@.len() ==> (#[trigger] category_views(categories@)[k]).category_id != id,
        },
{
    let mut i: usize = 0;
    while i < categories.len()
        invariant
            i <= categories@.len(),
            forall|k: int| 0 <= k < i ==> (#[trigger] category_views(categories@)[k]).category_id != id,
        decreases categories@.len() - i,
    {
        if categories[i].category_id == id {
            return Some(i);
        }
        i += 1;
    }
    None
}

impl Category {
    /// Stores a new category, which takes the next identifier.
    /// `StorageError`, with nothing stored, where the identifiers are used
    /// up.
    pub fn new(ledger: &mut Ledger, name: &str, description: &str) -> (r: Result<Category, LedgerError>)
        requires
            old(ledger).wf(),
        ensures
            final(ledger).wf(),
            match r {
                Ok(c) => {
                    &&& old(ledger)@.next_category_id < i32::MAX
                    &&& c@ == old(ledger)@.new_category(name@, description@)
                    &&& final(ledger)@ == (LedgerView {
                        categories: old(ledger)@.categories.push(c@),
                        next_category_id: (old(ledger)@.next_category_id + 1) as i32,
                        ..old(ledger)@
                    })
                },
                Err(e) => {
                    &&& e == LedgerError::StorageError
                    &&& old(ledger)@.next_category_id == i32::MAX
                    &&& final(ledger)@ == old(ledger)@
                },
            },
    {
        if ledger.next_category_id == i32::MAX {
            return Err(LedgerError::StorageError);
        }
        let ghost before = ledger@;
        let created = Category {
            category_id: ledger.next_category_id,
            name: name.to_owned(),
            description: description.to_owned(),
        };
        let out = created.clone();
        proof {
            assert(category_views(ledger.categories@.push(created)) =~= before.categories.push(created@));
        }
        ledger.next_category_id = ledger.next_category_id + 1;
        ledger.categories.push(created);
        Ok(out)
    }

    /// The category with identifier `id`; `NotFound` where there is none.
    pub fn get_by_id(ledger: &Ledger, id: i32) -> (r: Result<Category, LedgerError>)
        requires
            ledger.wf(),
        ensures
            match r {
                Ok(c) => ledger@.category(id) == Some(c@),
                Err(e) => e == LedgerError::NotFound && ledger@.category(id) is None,
            },
    {
        match find_category(&ledger.categories, id) {
            Some(i) => {
                proof {
                    lemma_category_at(ledger@, i as int);
                }
                Ok(ledger.categories[i].clone())
            },
            None => Err(LedgerError::NotFound),
        }
    }

    /// All categories, in the order of their creation.
    pub fn list(ledger: &Ledger) -> (r: Vec<Category>)
        requires
            ledger.wf(),
        ensures
            category_views(r@) == ledger@.categories,
    {
        let ghost views = ledger@.categories;
        let mut res: Vec<Category> = Vec::new();
        let mut i: usize = 0;
        assert(category_views(res@) =~= views.take(0));
        while i < ledger.categories.len()
            invariant
                i <= ledger.categories@.len(),
                views == category_views(ledger.categories@),
                category_views(res@) == views.take(i as int),
            decreases ledger.categories@.len() - i,
        {
            let item = ledger.categories[i].clone();
            assert(category_views(res@.push(item)) =~= category_views(res@).push(item@));
            assert(views.take(i + 1) =~= views.take(i as int).push(views[i as int]));
            res.push(item);
            i += 1;
        }
        assert(views.take(i as int) =~= views);
        res
    }
}

} // verus!
