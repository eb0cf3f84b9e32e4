//! What the query of a request says of the order of the rows, and what
//! the heads of the columns link to.

use crate::text::same_text;
use vstd::prelude::*;

verus! {

/// The column by which the rows are ordered.
#[derive(Clone, Copy, Debug, PartialEq, Eq, Structural)]
pub enum SortField {
    Name,
    Modified,
    Size,
}

/// The direction in which the rows are ordered.
#[derive(Clone, Copy, Debug, PartialEq, Eq, Structural)]
pub enum SortDirection {
    Asc,
    Desc,
}

/// A column and a direction.
#[derive(Clone, Copy, Debug, PartialEq, Eq, Structural)]
pub struct SortSpec {
    pub field: SortField,
    pub direction: SortDirection,
}

/// The column that a `sort` parameter names: `modified` or `size`, and the
/// name for every other text.
pub open spec fn field_named(text: Seq<char>) -> SortField {
    if text == "modified"@ {
        SortField::Modified
    } else if text == "size"@ {
        SortField::Size
    } else {
        SortField::Name
    }
}

/// The direction that an `order` parameter names: descending for `desc`,
/// ascending for every other text.
pub open spec fn direction_named(text: Seq<char>) -> SortDirection {
    if text == "desc"@ {
        SortDirection::Desc
    } else {
        SortDirection::Asc
    }
}

/// The direction that a click on the head of `column` asks for: descending
/// where the rows are now in ascending order by that column, ascending in
/// every other case.
pub open spec fn toggled(active: SortSpec, column: SortField) -> SortDirection {
    if active.field == column && active.direction == SortDirection::Asc {
        SortDirection::Desc
    } else {
        SortDirection::Asc
    }
}

/// The head of a column by which the rows are not ordered asks for the
/// ascending direction.
pub proof fn lemma_inactive_column_toggles_ascending(active: SortSpec, column: SortField)
    requires
        column != active.field,
    ensures
        toggled(active, column) == SortDirection::Asc,
{
}

/// The head of the column by which the rows are ordered asks for the
/// other direction.
pub proof fn lemma_active_column_toggles_direction(active: SortSpec)
    ensures
        toggled(active, active.field) != active.direction,
{
}

impl SortField {
    /// The column that the text names, the name column where it names none.
    pub fn parse(text: &str) -> (field: SortField)
        ensures
            field == field_named(text@),
    {
        if same_text(text, "modified") {
            SortField::Modified
        } else if same_text(text, "size") {
            SortField::Size
        } else {
            SortField::Name
        }
    }

    /// The column as a `sort` parameter names it.
    pub fn to_str(&self) -> (name: &'static str)
        ensures
            name@ == match *self {
                SortField::Name => "name"@,
                SortField::Modified => "modified"@,
                SortField::Size => "size"@,
            },
    {
        match self {
            SortField::Name => "name",
            SortField::Modified => "modified",
            SortField::Size => "size",
        }
    }
}

impl SortDirection {
    /// The direction that the text names, ascending where it names none.
    pub fn parse(text: &str) -> (direction: SortDirection)
        ensures
            direction == direction_named(text@),
    {
        if same_text(text, "desc") {
            SortDirection::Desc
        } else {
            SortDirection::Asc
        }
    }

    /// The direction as an `order` parameter names it.
    pub fn to_str(&self) -> (name: &'static str)
        ensures
            name@ == match *self {
                SortDirection::Asc => "asc"@,
                SortDirection::Desc => "desc"@,
            },
    {
        match self {
            SortDirection::Asc => "asc",
            SortDirection::Desc => "desc",
        }
    }
}

impl SortSpec {
    /// The order that the parameters `sort` and `order` of a request stand
    /// for. A parameter that is absent, or names nothing known, stands for
    /// its default: the name column, the ascending direction.
    pub open spec fn from_query_spec(sort: Option<&str>, order: Option<&str>) -> SortSpec {
        SortSpec {
            field: match sort {
                Some(text) => field_named(text@),
                None => SortField::Name,
            },
            direction: match order {
                Some(text) => direction_named(text@),
                None => SortDirection::Asc,
            },
        }
    }

    /// The order that the query of a request asks for.
    pub fn from_query(sort: Option<&str>, order: Option<&str>) -> (spec: SortSpec)
        ensures
            spec == Self::from_query_spec(sort, order),
    {
        let field = match sort {
            Some(text) => SortField::parse(text),
            None => SortField::Name,
        };
        let direction = match order {
            Some(text) => SortDirection::parse(text),
            None => SortDirection::Asc,
        };
        SortSpec { field, direction }
    }

    /// The direction that the link in the head of `column` asks for.
    pub fn toggle(&self, column: SortField) -> (next: SortDirection)
        ensures
            next == toggled(*self, column),
    {
        if self.field == column && self.direction == SortDirection::Asc {
            SortDirection::Desc
        } else {
            SortDirection::Asc
        }
    }
}

} // verus!
