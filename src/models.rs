//! Plain records of the fruit-salad service: what a client sends to create
//! a row, what a row holds, and how a listing is paged.
use vstd::prelude::*;

verus! {

/// Default number of rows per page.
pub const DEFAULT_PAGE_SIZE: i8 = 10;

/// Paging of a listing: `size` rows per page, page numbers from zero.
pub struct Pagination {
    pub size: Option<i8>,
    pub page: Option<i64>,
}

impl Default for Pagination {
    fn default() -> (r: Pagination)
        ensures
            r.size == Some(DEFAULT_PAGE_SIZE),
            r.page == Some(0i64),
    {
        Pagination { size: Some(DEFAULT_PAGE_SIZE), page: Some(0) }
    }
}

impl Pagination {
    pub open spec fn limit_of(&self) -> int {
        match self.size {
            Some(s) => s as int,
            None => DEFAULT_PAGE_SIZE as int,
        }
    }

    pub open spec fn offset_of(&self) -> int {
        self.limit_of() * match self.page {
            Some(p) => p as int,
            None => 0,
        }
    }

    /// The row limit and row offset of the page: `size` rows (ten when
    /// absent) after `size * page` rows (page zero when absent). `None` when
    /// the offset does not fit in an `i64`.
    pub fn limit_and_offset(&self) -> (r: Option<(i64, i64)>)
        ensures
            match r {
                Some((limit, offset)) => limit == self.limit_of() && offset == self.offset_of(),
                None => !(i64::MIN <= self.offset_of() <= i64::MAX),
            },
    {
        let size: i64 = match self.size {
            Some(s) => s as i64,
            None => DEFAULT_PAGE_SIZE as i64,
        };
        let page: i64 = match self.page {
            Some(p) => p,
            None => 0,
        };
        match size.checked_mul(page) {
            Some(offset) => Some((size, offset)),
            None => None,
        }
    }
}

/// Number of rows of a table or a query.
pub struct RowCount {
    pub count: Option<i64>,
}

/// A fruit as a client sends it, before it has an id.
pub struct NewFruit {
    pub fruit_name: String,
    pub color_red: i16,
    pub color_green: i16,
    pub color_blue: i16,
    pub fruit_weight: i32,
}

/// A person as a client sends it, before it has an id.
pub struct NewPerson {
    pub person_name: String,
    pub age: i32,
    pub email: String,
}

/// A stored person.
pub struct Person {
    pub id: i64,
    pub person_name: String,
    pub age: i32,
    pub email: String,
}

/// A fruit salad as a client sends it, before it has an id.
pub struct NewFruitSalad {
    pub id_creator: i64,
    pub salad_name: String,
}

/// A stored fruit salad.
pub struct FruitSalad {
    pub id: i64,
    pub id_creator: i64,
    pub salad_name: String,
}

/// A salad together with the name of the person who made it.
pub struct SaladView {
    pub id: i64,
    pub person_name: String,
    pub salad_name: String,
}

/// One fruit of a salad, with the salad's and its maker's names.
pub struct SaladIngredientsView {
    pub person_name: String,
    pub salad_name: String,
    pub fruit_name: String,
}

/// A fruit of a salad as a client sends it, before it has an id.
pub struct NewSaladIngredient {
    pub id_salad: i64,
    pub id_fruit: i64,
}

/// A stored fruit of a salad.
pub struct SaladIngredient {
    pub id: i64,
    pub id_salad: i64,
    pub id_fruit: i64,
}

} // verus!
