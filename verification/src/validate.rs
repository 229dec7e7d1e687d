use vstd::prelude::*;

use crate::kenken::{contains_field, distinct_fields, in_grid, Area, Field, KenKen, Type};

verus! {

/// A defect that keeps a puzzle or a cage from being well-formed.
#[derive(Debug, Clone, Copy, PartialEq, Eq, Structural)]
pub enum ValidationError {
    /// A cage is empty or breaks its operator's arity.
    MalformedCage,
    /// A cage lists the same field twice.
    DuplicateField,
    /// A cage reaches outside the grid.
    FieldOutOfBounds,
    /// Two cages share a field.
    OverlappingAreas,
    /// A grid cell belongs to no cage.
    UncoveredField,
    /// The grid has side zero.
    EmptyGrid,
}

pub type ValidationResult = Result<(), Vec<ValidationError>>;

/// A value that can check its own structural invariant, reporting what is
/// broken.
pub trait Validator {
    /// The invariant that `validate` checks.
    spec fn valid(&self) -> bool;

    fn validate(&self) -> (r: ValidationResult)
        ensures
            r is Ok <==> self.valid(),
            r matches Err(es) ==> es@.len() >= 1,
    ;
}

/// Whether some field occurs twice in the list.
fn has_duplicate(fields: &Vec<Field>) -> (r: bool)
    ensures
        r == !distinct_fields(fields@),
{
    let n = fields.len();
    let mut i: usize = 0;
    while i < n
        invariant
            0 <= i <= n,
            n == fields@.len(),
            forall|a: int, b: int| 0 <= a < b < n && a < i ==> fields@[a] != fields@[b],
        decreases n - i,
    {
        let mut j: usize = i + 1;
        while j < n
            invariant
                i < n,
                n == fields@.len(),
                i + 1 <= j <= n,
                forall|a: int, b: int| 0 <= a < b < n && a < i ==> fields@[a] != fields@[b],
                forall|b: int| i < b < j ==> fields@[i as int] != fields@[b],
            decreases n - j,
        {
            if fields[i] == fields[j] {
                return true;
            }
            j += 1;
        }
        i += 1;
    }
    false
}

/// Whether every cage of the list respects its operator's arity.
fn all_arities_ok(areas: &Vec<Area>) -> (r: bool)
    ensures
        r == forall|k: int| 0 <= k < areas@.len() ==> (#[trigger] areas@[k]).arity_ok(),
{
    let n = areas.len();
    let mut i: usize = 0;
    while i < n
        invariant
            0 <= i <= n,
            n == areas@.len(),
            forall|k: int| 0 <= k < i ==> (#[trigger] areas@[k]).arity_ok(),
        decreases n - i,
    {
        let m = areas[i].fields.len();
        let ok: bool = match areas[i].ty {
            Type::Sub | Type::Div => m == 2,
            Type::Single => m == 1,
            _ => m >= 1,
        };
        if ok {
            i += 1;
        } else {
            return false;
        }
    }
    true
}

/// Whether no cage of the list names a field twice.
fn all_fields_distinct(areas: &Vec<Area>) -> (r: bool)
    ensures
        r == forall|k: int|
            0 <= k < areas@.len() ==> distinct_fields((#[trigger] areas@[k]).fields@),
{
    let n = areas.len();
    let mut i: usize = 0;
    while i < n
        invariant
            0 <= i <= n,
            n == areas@.len(),
            forall|k: int| 0 <= k < i ==> distinct_fields((#[trigger] areas@[k]).fields@),
        decreases n - i,
    {
        if has_duplicate(&areas[i].fields) {
            return false;
        }
        i += 1;
    }
    true
}

/// Whether every field of every cage lies on a grid of side `size`.
fn all_in_bounds(areas: &Vec<Area>, size: u16) -> (r: bool)
    ensures
        r == forall|k: int, j: int|
            0 <= k < areas@.len() && 0 <= j < areas@[k].fields@.len() ==> in_grid(
                #[trigger] areas@[k].fields@[j],
                size,
            ),
{
    let n = areas.len();
    let mut i: usize = 0;
    while i < n
        invariant
            0 <= i <= n,
            n == areas@.len(),
            forall|k: int, j: int|
                0 <= k < i && 0 <= j < areas@[k].fields@.len() ==> in_grid(
                    #[trigger] areas@[k].fields@[j],
                    size,
                ),
        decreases n - i,
    {
        let m = areas[i].fields.len();
        let mut j: usize = 0;
        while j < m
            invariant
                i < n,
                n == areas@.len(),
                m == areas@[i as int].fields@.len(),
                0 <= j <= m,
                forall|k: int| 0 <= k < j ==> in_grid(#[trigger] areas@[i as int].fields@[k], size),
            decreases m - j,
        {
            let f = areas[i].fields[j];
            if !(f.0 < size && f.1 < size) {
                proof {
                    assert(!in_grid(areas@[i as int].fields@[j as int], size));
                }
                return false;
            }
            j += 1;
        }
        i += 1;
    }
    true
}

/// Whether the two cages share a field.
fn areas_overlap(a: &Area, b: &Area) -> (r: bool)
    ensures
        r == exists|f: Field| #[trigger] a.fields@.contains(f) && b.fields@.contains(f),
{
    let n = a.fields.len();
    let mut j: usize = 0;
    while j < n
        invariant
            0 <= j <= n,
            n == a.fields@.len(),
            forall|k: int| 0 <= k < j ==> !b.fields@.contains(#[trigger] a.fields@[k]),
        decreases n - j,
    {
        if contains_field(&b.fields, &a.fields[j]) {
            proof {
                assert(a.fields@.contains(a.fields@[j as int]));
            }
            return true;
        }
        j += 1;
    }
    proof {
        assert forall|f: Field| !(#[trigger] a.fields@.contains(f) && b.fields@.contains(f)) by {
            if a.fields@.contains(f) {
                let k = choose|k: int| 0 <= k < a.fields@.len() && a.fields@[k] == f;
            }
        }
    }
    false
}

/// Whether no two cages of the list share a field.
fn all_disjoint(areas: &Vec<Area>) -> (r: bool)
    ensures
        r == forall|a: int, b: int, f: Field|
            0 <= a < b < areas@.len() ==> !(#[trigger] areas@[a].fields@.contains(f)
                && #[trigger] areas@[b].fields@.contains(f)),
{
    let n = areas.len();
    let mut i: usize = 0;
    while i < n
        invariant
            0 <= i <= n,
            n == areas@.len(),
            forall|a: int, b: int, f: Field|
                0 <= a < b < n && a < i ==> !(#[trigger] areas@[a].fields@.contains(f)
                    && #[trigger] areas@[b].fields@.contains(f)),
        decreases n - i,
    {
        let mut j: usize = i + 1;
        while j < n
            invariant
                i < n,
                n == areas@.len(),
                i + 1 <= j <= n,
                forall|a: int, b: int, f: Field|
                    0 <= a < b < n && a < i ==> !(#[trigger] areas@[a].fields@.contains(f)
                        && #[trigger] areas@[b].fields@.contains(f)),
                forall|b: int, f: Field|
                    i < b < j ==> !(#[trigger] areas@[i as int].fields@.contains(f)
                        && #[trigger] areas@[b].fields@.contains(f)),
            decreases n - j,
        {
            if areas_overlap(&areas[i], &areas[j]) {
                proof {
                    let f = choose|f: Field|
                        #[trigger] areas@[i as int].fields@.contains(f)
                            && areas@[j as int].fields@.contains(f);
                    assert(areas@[i as int].fields@.contains(f) && areas@[j as int].fields@.contains(f));
                }
                return false;
            }
            j += 1;
        }
        i += 1;
    }
    true
}

/// Some cage of the list holds `f`.
pub open spec fn covered(areas: Seq<Area>, f: Field) -> bool {
    exists|i: int| 0 <= i < areas.len() && #[trigger] areas[i].fields@.contains(f)
}

fn some_area_contains(areas: &Vec<Area>, f: &Field) -> (r: bool)
    ensures
        r == covered(areas@, *f),
{
    let n = areas.len();
    let mut i: usize = 0;
    while i < n
        invariant
            0 <= i <= n,
            n == areas@.len(),
            forall|k: int| 0 <= k < i ==> !(#[trigger] areas@[k].fields@.contains(*f)),
        decreases n - i,
    {
        if contains_field(&areas[i].fields, f) {
            return true;
        }
        i += 1;
    }
    false
}

/// Whether every cell of a grid of side `size` belongs to some cage.
fn all_covered(areas: &Vec<Area>, size: u16) -> (r: bool)
    ensures
        r == forall|f: Field| #[trigger] in_grid(f, size) ==> covered(areas@, f),
{
    let mut x: u16 = 0;
    while x < size
        invariant
            0 <= x <= size,
            forall|f: Field| #[trigger] in_grid(f, size) && f.0 < x ==> covered(areas@, f),
        decreases size - x,
    {
        let mut y: u16 = 0;
        while y < size
            invariant
                x < size,
                0 <= y <= size,
                forall|f: Field| #[trigger] in_grid(f, size) && f.0 < x ==> covered(areas@, f),
                forall|f: Field|
                    #[trigger] in_grid(f, size) && f.0 == x && f.1 < y ==> covered(areas@, f),
            decreases size - y,
        {
            if !some_area_contains(areas, &Field(x, y)) {
                proof {
                    assert(in_grid(Field(x, y), size));
                }
                return false;
            }
            proof {
                assert forall|f: Field|
                    #[trigger] in_grid(f, size) && f.0 == x && f.1 < y + 1 implies covered(
                    areas@,
                    f,
                ) by {
                    if f.1 == y {
                        assert(f == Field(x, y));
                    }
                }
            }
            y += 1;
        }
        x += 1;
    }
    true
}

impl Area {
    /// Checks this cage's own invariant: at least one field, no field
    /// twice, and the operator's arity respected.
    pub fn validate(&self) -> (r: ValidationResult)
        ensures
            r is Ok <==> self.wf(),
            r matches Err(es) ==> es@.len() >= 1,
            r matches Err(es) ==> (es@.contains(ValidationError::MalformedCage)
                <==> !self.arity_ok()),
            r matches Err(es) ==> (es@.contains(ValidationError::DuplicateField)
                <==> !distinct_fields(self.fields@)),
    {
        let n = self.fields.len();
        let arity_ok: bool = match self.ty {
            Type::Sub | Type::Div => n == 2,
            Type::Single => n == 1,
            _ => n >= 1,
        };
        let no_dup = !has_duplicate(&self.fields);
        if arity_ok && no_dup {
            Ok(())
        } else {
            let mut errs: Vec<ValidationError> = Vec::new();
            if !arity_ok {
                errs.push(ValidationError::MalformedCage);
            }
            if !no_dup {
                errs.push(ValidationError::DuplicateField);
            }
            proof {
                assert(errs@.contains(ValidationError::MalformedCage) <==> !self.arity_ok()) by {
                    if !self.arity_ok() {
                        assert(errs@[0] == ValidationError::MalformedCage);
                    } else {
                        assert(forall|k: int|
                            0 <= k < errs@.len() ==> errs@[k] != ValidationError::MalformedCage);
                    }
                }
                assert(errs@.contains(ValidationError::DuplicateField) <==> !distinct_fields(
                    self.fields@,
                )) by {
                    if !distinct_fields(self.fields@) {
                        assert(errs@.last() == ValidationError::DuplicateField);
                        assert(errs@[errs@.len() - 1] == ValidationError::DuplicateField);
                    } else {
                        assert(forall|k: int|
                            0 <= k < errs@.len() ==> errs@[k] != ValidationError::DuplicateField);
                    }
                }
            }
            Err(errs)
        }
    }
}

impl Validator for KenKen {
    /// A puzzle is valid exactly when it is well-formed.
    open spec fn valid(&self) -> bool {
        self.wf()
    }

    /// Checks the whole puzzle: a positive side, each cage well-formed
    /// and within bounds, and the cages a partition of the grid.
    fn validate(&self) -> (r: ValidationResult)
        ensures
            r matches Err(es) ==> (es@.contains(ValidationError::EmptyGrid) <==> self.size == 0),
            r matches Err(es) ==> (es@.contains(ValidationError::MalformedCage) <==> !(forall|
                i: int,
            |
                0 <= i < self.areas@.len() ==> (#[trigger] self.areas@[i]).arity_ok())),
            r matches Err(es) ==> (es@.contains(ValidationError::DuplicateField) <==> !(forall|
                i: int,
            |
                0 <= i < self.areas@.len() ==> distinct_fields(
                    (#[trigger] self.areas@[i]).fields@,
                ))),
            r matches Err(es) ==> (es@.contains(ValidationError::FieldOutOfBounds) <==> !(forall|
                i: int,
                j: int,
            |
                0 <= i < self.areas@.len() && 0 <= j < self.areas@[i].fields@.len() ==> in_grid(
                    #[trigger] self.areas@[i].fields@[j],
                    self.size,
                ))),
            r matches Err(es) ==> (es@.contains(ValidationError::OverlappingAreas) <==> !(forall|
                i: int,
                j: int,
                f: Field,
            |
                0 <= i < j < self.areas@.len() ==> !(#[trigger] self.areas@[i].fields@.contains(f)
                    && #[trigger] self.areas@[j].fields@.contains(f)))),
            r matches Err(es) ==> (es@.contains(ValidationError::UncoveredField) <==> !(forall|
                f: Field,
            |
                #[trigger] in_grid(f, self.size) ==> covered(self.areas@, f))),
    {
        let size_ok = self.size >= 1;
        let arity_all = all_arities_ok(&self.areas);
        let nodup_all = all_fields_distinct(&self.areas);
        let bounds_ok = all_in_bounds(&self.areas, self.size);
        let disjoint_ok = all_disjoint(&self.areas);
        let cover_ok = all_covered(&self.areas, self.size);
        if size_ok && arity_all && nodup_all && bounds_ok && disjoint_ok && cover_ok {
            proof {
                assert(forall|i: int|
                    0 <= i < self.areas@.len() ==> (#[trigger] self.areas@[i]).wf());
            }
            Ok(())
        } else {
            let mut errs: Vec<ValidationError> = Vec::new();
            if !size_ok {
                errs.push(ValidationError::EmptyGrid);
            }
            if !arity_all {
                errs.push(ValidationError::MalformedCage);
            }
            if !nodup_all {
                errs.push(ValidationError::DuplicateField);
            }
            if !bounds_ok {
                errs.push(ValidationError::FieldOutOfBounds);
            }
            if !disjoint_ok {
                errs.push(ValidationError::OverlappingAreas);
            }
            if !cover_ok {
                errs.push(ValidationError::UncoveredField);
            }
            proof {
                let i_mal: int = if size_ok { 0 } else { 1 };
                let i_dup: int = i_mal + (if arity_all { 0int } else { 1int });
                let i_bounds: int = i_dup + (if nodup_all { 0int } else { 1int });
                let i_overlap: int = i_bounds + (if bounds_ok { 0int } else { 1int });
                let i_cover: int = i_overlap + (if disjoint_ok { 0int } else { 1int });
                assert(errs@.contains(ValidationError::EmptyGrid) <==> !size_ok) by {
                    if !size_ok {
                        assert(errs@[0] == ValidationError::EmptyGrid);
                    } else {
                        assert(forall|k: int|
                            0 <= k < errs@.len() ==> errs@[k] != ValidationError::EmptyGrid);
                    }
                }
                assert(errs@.contains(ValidationError::MalformedCage) <==> !arity_all) by {
                    if !arity_all {
                        assert(errs@[i_mal] == ValidationError::MalformedCage);
                    } else {
                        assert(forall|k: int|
                            0 <= k < errs@.len() ==> errs@[k] != ValidationError::MalformedCage);
                    }
                }
                assert(errs@.contains(ValidationError::DuplicateField) <==> !nodup_all) by {
                    if !nodup_all {
                        assert(errs@[i_dup] == ValidationError::DuplicateField);
                    } else {
                        assert(forall|k: int|
                            0 <= k < errs@.len() ==> errs@[k] != ValidationError::DuplicateField);
                    }
                }
                assert(errs@.contains(ValidationError::FieldOutOfBounds) <==> !bounds_ok) by {
                    if !bounds_ok {
                        assert(errs@[i_bounds] == ValidationError::FieldOutOfBounds);
                    } else {
                        assert(forall|k: int|
                            0 <= k < errs@.len() ==> errs@[k]
                                != ValidationError::FieldOutOfBounds);
                    }
                }
                assert(errs@.contains(ValidationError::OverlappingAreas) <==> !disjoint_ok) by {
                    if !disjoint_ok {
                        assert(errs@[i_overlap] == ValidationError::OverlappingAreas);
                    } else {
                        assert(forall|k: int|
                            0 <= k < errs@.len() ==> errs@[k]
                                != ValidationError::OverlappingAreas);
                    }
                }
                assert(errs@.contains(ValidationError::UncoveredField) <==> !cover_ok) by {
                    if !cover_ok {
                        assert(errs@[i_cover] == ValidationError::UncoveredField);
                    } else {
                        assert(forall|k: int|
                            0 <= k < errs@.len() ==> errs@[k] != ValidationError::UncoveredField);
                    }
                }
            }
            Err(errs)
        }
    }
}

} // verus!
