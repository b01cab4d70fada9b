//! The crow's-foot notation of a relation: which marker each end gets,
//! where it sits when several relations meet one column, which labels the
//! cardinality shows, and which tables and columns carry a description
//! marker.
use vstd::prelude::*;
use crate::diagram::{CardinalityDisplay, DescriptionIndicator};

verus! {

/// Index of the "many" marker in a column side's list of markers drawn.
pub const MANY: usize = 0;

/// Index of the "one" marker.
pub const ONE: usize = 1;

/// Index of the "zero" (optional) marker.
pub const ZERO: usize = 2;

/// The marker at the start (foreign key) end: "one" for a unique column,
/// "many" otherwise.
pub open spec fn start_marker_spec(unique: bool) -> usize {
    if unique {
        ONE
    } else {
        MANY
    }
}

/// The marker at the start (foreign key) end of a relation.
pub fn start_marker(unique: bool) -> (m: usize)
    ensures
        m == start_marker_spec(unique),
        m < 3,
{
    if unique {
        ONE
    } else {
        MANY
    }
}

/// The marker at the end (referenced) end: "zero" when the foreign key is
/// nullable, "one" otherwise.
pub open spec fn end_marker_spec(nullable: bool) -> usize {
    if nullable {
        ZERO
    } else {
        ONE
    }
}

/// The marker at the end (referenced) end of a relation.
pub fn end_marker(nullable: bool) -> (m: usize)
    ensures
        m == end_marker_spec(nullable),
        m < 3,
{
    if nullable {
        ZERO
    } else {
        ONE
    }
}

/// +1 for a line leaving to the right, -1 to the left.
pub open spec fn direction(goes_left: bool) -> int {
    if goes_left {
        -1
    } else {
        1
    }
}

/// 2 when both kinds of marker are already there, 1 when one is, else 0.
pub open spec fn crowding(a: bool, b: bool) -> int {
    if a && b {
        2
    } else if a || b {
        1
    } else {
        0
    }
}

/// How many marker heights the start of a line moves up or down so as not
/// to overlap markers of other kinds (`drawn`: many, one, zero) already at
/// that side of the column.
pub open spec fn start_shift_spec(unique: bool, goes_left: bool, drawn: [bool; 3]) -> int {
    if unique {
        -direction(goes_left) * crowding(drawn[MANY as int], drawn[ZERO as int])
    } else {
        direction(goes_left) * crowding(drawn[ONE as int], drawn[ZERO as int])
    }
}

/// How many marker heights the end of a line moves, likewise.
pub open spec fn end_shift_spec(nullable: bool, goes_left: bool, drawn: [bool; 3]) -> int {
    if nullable {
        direction(goes_left) * (if drawn[ONE as int] {
            1int
        } else {
            -1int
        }) * (if drawn[MANY as int] && drawn[ONE as int] {
            0int
        } else if drawn[MANY as int] || drawn[ONE as int] {
            1int
        } else {
            0int
        })
    } else {
        -direction(goes_left) * crowding(drawn[MANY as int], drawn[ZERO as int])
    }
}

fn crowding_exec(a: bool, b: bool) -> (k: i8)
    ensures
        k as int == crowding(a, b),
{
    if a && b {
        2
    } else if a || b {
        1
    } else {
        0
    }
}

/// Marker heights by which the start of a line moves.
pub fn start_shift(unique: bool, goes_left: bool, drawn: [bool; 3]) -> (k: i8)
    ensures
        k as int == start_shift_spec(unique, goes_left, drawn),
        -2 <= k <= 2,
{
    let dir: i8 = if goes_left {
        -1
    } else {
        1
    };
    if unique {
        -dir * crowding_exec(drawn[MANY], drawn[ZERO])
    } else {
        dir * crowding_exec(drawn[ONE], drawn[ZERO])
    }
}

/// Marker heights by which the end of a line moves.
pub fn end_shift(nullable: bool, goes_left: bool, drawn: [bool; 3]) -> (k: i8)
    ensures
        k as int == end_shift_spec(nullable, goes_left, drawn),
        -2 <= k <= 2,
{
    let dir: i8 = if goes_left {
        -1
    } else {
        1
    };
    if nullable {
        let sign: i8 = if drawn[ONE] {
            1
        } else {
            -1
        };
        let steps: i8 = if drawn[MANY] && drawn[ONE] {
            0
        } else if drawn[MANY] || drawn[ONE] {
            1
        } else {
            0
        };
        dir * sign * steps
    } else {
        -dir * crowding_exec(drawn[MANY], drawn[ZERO])
    }
}

/// Whether a relation's cardinality labels are drawn.
pub fn shows_cardinality(display: CardinalityDisplay, selected: bool) -> (b: bool)
    ensures
        b == match display {
            CardinalityDisplay::Never => false,
            CardinalityDisplay::SelectedOnly => selected,
            CardinalityDisplay::Always => true,
        },
{
    match display {
        CardinalityDisplay::Never => false,
        CardinalityDisplay::SelectedOnly => selected,
        CardinalityDisplay::Always => true,
    }
}

/// The label at the start of a relation: "1" for a unique foreign key,
/// "*" otherwise.
pub fn start_label(unique: bool) -> (s: &'static str)
    ensures
        s@ == if unique {
            "1"@
        } else {
            "*"@
        },
{
    if unique {
        "1"
    } else {
        "*"
    }
}

/// The label at the end of a relation: "0..1" for a nullable foreign key,
/// "1" otherwise.
pub fn end_label(nullable: bool) -> (s: &'static str)
    ensures
        s@ == if nullable {
            "0..1"@
        } else {
            "1"@
        },
{
    if nullable {
        "0..1"
    } else {
        "1"
    }
}

/// Whether a table or column gets the red description marker.
pub fn shows_description_marker(indicator: DescriptionIndicator, has_description: bool) -> (b:
    bool)
    ensures
        b == match indicator {
            DescriptionIndicator::Off => false,
            DescriptionIndicator::Missing => !has_description,
            DescriptionIndicator::Existing => has_description,
        },
{
    match indicator {
        DescriptionIndicator::Off => false,
        DescriptionIndicator::Missing => !has_description,
        DescriptionIndicator::Existing => has_description,
    }
}

/// Whether a key type names a primary key.
pub fn is_primary_key(key_type: &String) -> (b: bool)
    ensures
        b == (key_type@ == "PK"@),
{
    let pk = String::from_str("PK");
    *key_type == pk
}

/// The inspector's wording of a key type.
pub fn key_label(key_type: &String) -> (s: &'static str)
    ensures
        s@ == if key_type@ == "PK"@ {
            "Primary Key"@
        } else if key_type@ == "FK"@ {
            "Foreign Key"@
        } else {
            "No key"@
        },
{
    let fk = String::from_str("FK");
    if is_primary_key(key_type) {
        "Primary Key"
    } else if *key_type == fk {
        "Foreign Key"
    } else {
        "No key"
    }
}

} // verus!
