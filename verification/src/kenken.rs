use vstd::prelude::*;

verus! {

/// One grid position, identified by its column (`.0`) and row (`.1`).
#[derive(Debug, Clone, Copy, PartialEq, Eq, Hash, Structural)]
pub struct Field(pub u16, pub u16);

/// Two fields see each other when they share a column or a row.
pub open spec fn same_axis(a: Field, b: Field) -> bool {
    a.0 == b.0 || a.1 == b.1
}

impl Field {
    pub fn equal_axis(&self, other: &Self) -> (r: bool)
        ensures
            r == same_axis(*self, *other),
    {
        self.equal_x_axis(other) || self.equal_y_axis(other)
    }

    pub fn equal_x_axis(&self, other: &Self) -> (r: bool)
        ensures
            r == (self.0 == other.0),
    {
        self.0 == other.0
    }

    pub fn equal_y_axis(&self, other: &Self) -> (r: bool)
        ensures
            r == (self.1 == other.1),
    {
        self.1 == other.1
    }
}

/// The arithmetic operator a cage carries.
#[derive(Debug, Clone, Copy, PartialEq, Eq, Structural)]
pub enum Type {
    Mul,
    Sub,
    Add,
    Div,
    Single,
}

/// No field occurs twice in the sequence.
pub open spec fn distinct_fields(s: Seq<Field>) -> bool {
    forall|i: int, j: int| 0 <= i < j < s.len() ==> s[i] != s[j]
}

/// A cage: a group of fields whose values must combine to `solution`
/// through the operator `ty`.
#[derive(Debug)]
pub struct Area {
    pub ty: Type,
    pub solution: u64,
    pub fields: Vec<Field>,
}

/// `f` is the field of `a` with the least row, and among those the least
/// column: the position where the cage's target is displayed.
pub open spec fn is_min_yx(a: Area, f: Field) -> bool {
    &&& a.fields@.contains(f)
    &&& forall|g: Field| a.fields@.contains(g) ==> f.1 <= g.1
    &&& forall|g: Field| a.fields@.contains(g) && g.1 == f.1 ==> f.0 <= g.0
}

/// At most one field of a cage can be its display position.
pub proof fn lemma_min_yx_unique(a: Area, f: Field, g: Field)
    requires
        is_min_yx(a, f),
        is_min_yx(a, g),
    ensures
        f == g,
{
    assert(f.1 <= g.1);
    assert(g.1 <= f.1);
    assert(f.0 <= g.0);
    assert(g.0 <= f.0);
}

impl Area {
    /// The operator's arity is respected: Sub and Div take exactly two
    /// fields, Single exactly one, Add and Mul at least one.
    pub open spec fn arity_ok(self) -> bool {
        match self.ty {
            Type::Sub | Type::Div => self.fields@.len() == 2,
            Type::Single => self.fields@.len() == 1,
            _ => self.fields@.len() >= 1,
        }
    }

    /// A well-formed cage: the operator's arity respected and no field
    /// listed twice.
    pub open spec fn wf(self) -> bool {
        self.arity_ok() && distinct_fields(self.fields@)
    }

    pub fn new(ty: Type, solution: u64, fields: Vec<Field>) -> (r: Self)
        ensures
            r.ty == ty,
            r.solution == solution,
            r.fields == fields,
    {
        Area { ty, solution, fields }
    }

    pub fn size(&self) -> (r: u16)
        requires
            self.fields@.len() <= u16::MAX,
        ensures
            r == self.fields@.len(),
    {
        self.fields.len() as u16
    }

    fn min_y_field(&self) -> (r: u16)
        requires
            self.fields@.len() >= 1,
        ensures
            exists|i: int| 0 <= i < self.fields@.len() && self.fields@[i].1 == r,
            forall|i: int| 0 <= i < self.fields@.len() ==> r <= self.fields@[i].1,
    {
        let mut best: u16 = self.fields[0].1;
        let n = self.fields.len();
        let mut i: usize = 1;
        while i < n
            invariant
                1 <= i <= n,
                n == self.fields@.len(),
                exists|k: int| 0 <= k < i && self.fields@[k].1 == best,
                forall|k: int| 0 <= k < i ==> best <= self.fields@[k].1,
            decreases n - i,
        {
            if self.fields[i].1 < best {
                best = self.fields[i].1;
            }
            i += 1;
        }
        best
    }

    fn min_yx_field(&self) -> (r: Field)
        requires
            self.fields@.len() >= 1,
        ensures
            is_min_yx(*self, r),
    {
        let min_y = self.min_y_field();
        let n = self.fields.len();
        let mut best: Option<Field> = None;
        let mut i: usize = 0;
        while i < n
            invariant
                0 <= i <= n,
                n == self.fields@.len(),
                match best {
                    Some(b) => {
                        &&& exists|k: int| 0 <= k < i && self.fields@[k] == b
                        &&& b.1 == min_y
                        &&& forall|k: int|
                            0 <= k < i && self.fields@[k].1 == min_y ==> b.0
                                <= self.fields@[k].0
                    },
                    None => forall|k: int| 0 <= k < i ==> self.fields@[k].1 != min_y,
                },
            decreases n - i,
        {
            let f = self.fields[i];
            if f.1 == min_y {
                match best {
                    Some(b) => {
                        if f.0 < b.0 {
                            best = Some(f);
                        }
                    },
                    None => {
                        best = Some(f);
                    },
                }
            }
            i += 1;
        }
        proof {
            assert(exists|k: int| 0 <= k < n && self.fields@[k].1 == min_y);
        }
        match best {
            Some(b) => {
                proof {
                    assert(self.fields@.contains(b)) by {
                        let k = choose|k: int| 0 <= k < i && self.fields@[k] == b;
                        assert(self.fields@[k] == b);
                    }
                    assert forall|g: Field| self.fields@.contains(g) implies b.1 <= g.1 by {
                        let k = choose|k: int| 0 <= k < self.fields@.len() && self.fields@[k]
                            == g;
                        assert(min_y <= self.fields@[k].1);
                    }
                    assert forall|g: Field| self.fields@.contains(g) && g.1 == b.1 implies b.0
                        <= g.0 by {
                        let k = choose|k: int| 0 <= k < self.fields@.len() && self.fields@[k]
                            == g;
                        assert(self.fields@[k].1 == min_y);
                    }
                }
                b
            },
            None => {
                proof {
                    let k = choose|k: int| 0 <= k < n && self.fields@[k].1 == min_y;
                    assert(false);
                }
                Field(0, 0)
            },
        }
    }

    /// Returns this cage when `field` is its display position, and
    /// nothing otherwise.
    pub fn id_field<'a>(&'a self, field: Field) -> (r: Option<&'a Self>)
        requires
            self.fields@.len() >= 1,
        ensures
            r matches Some(a) ==> *a == *self && is_min_yx(*self, field),
            r is None ==> !is_min_yx(*self, field),
    {
        let m = self.min_yx_field();
        if field == m {
            Some(self)
        } else {
            proof {
                if is_min_yx(*self, field) {
                    lemma_min_yx_unique(*self, field, m);
                }
            }
            None
        }
    }
}

/// Gives a two-field cage the operator `typ` and the target that the two
/// values `f1` and `f2` of a reference solution reach through it; a
/// Single cage keeps its target.
pub fn assign_area(area: &mut Area, typ: Type, f1: u64, f2: u64)
    requires
        1 <= f1,
        1 <= f2,
        f1 + f2 <= u64::MAX,
        f1 * f2 <= u64::MAX,
    ensures
        final(area).ty == typ,
        final(area).fields == old(area).fields,
        final(area).solution == (match typ {
            Type::Div => if f1 > f2 {
                f1 as int / f2 as int
            } else {
                f2 as int / f1 as int
            },
            Type::Sub => if f1 > f2 {
                f1 - f2
            } else {
                f2 - f1
            },
            Type::Add => f1 + f2,
            Type::Mul => f1 as int * f2 as int,
            Type::Single => old(area).solution as int,
        }),
{
    area.ty = typ;
    match typ {
        Type::Div => {
            if f1 > f2 {
                area.solution = f1 / f2;
            } else {
                area.solution = f2 / f1;
            }
        },
        Type::Sub => {
            if f1 > f2 {
                area.solution = f1 - f2;
            } else {
                area.solution = f2 - f1;
            }
        },
        Type::Add => {
            area.solution = f1 + f2;
        },
        Type::Mul => {
            area.solution = f1 * f2;
        },
        Type::Single => {},
    }
}

/// A whole puzzle: a square grid of side `size` partitioned into cages.
#[derive(Debug)]
pub struct KenKen {
    pub id: u64,
    pub areas: Vec<Area>,
    pub size: u16,
}

/// `f` lies on a square grid of side `size`.
pub open spec fn in_grid(f: Field, size: u16) -> bool {
    f.0 < size && f.1 < size
}

impl KenKen {
    /// A well-formed puzzle: positive side, every cage well-formed with
    /// every field on the grid, and the cages partition the grid: no field
    /// in two cages, none left out.
    pub open spec fn wf(self) -> bool {
        &&& self.size >= 1
        &&& forall|i: int| 0 <= i < self.areas@.len() ==> (#[trigger] self.areas@[i]).wf()
        &&& forall|i: int, j: int|
            0 <= i < self.areas@.len() && 0 <= j < self.areas@[i].fields@.len() ==> in_grid(
                #[trigger] self.areas@[i].fields@[j],
                self.size,
            )
        &&& forall|i: int, j: int, f: Field|
            0 <= i < j < self.areas@.len() ==> !(#[trigger] self.areas@[i].fields@.contains(f)
                && #[trigger] self.areas@[j].fields@.contains(f))
        &&& forall|f: Field|
            #[trigger] in_grid(f, self.size) ==> exists|i: int|
                0 <= i < self.areas@.len() && #[trigger] self.areas@[i].fields@.contains(f)
    }
}

/// Some cage of `k` holds both `f1` and `f2`.
pub open spec fn spec_same_area(k: KenKen, f1: Field, f2: Field) -> bool {
    exists|i: int|
        0 <= i < k.areas@.len() && k.areas@[i].fields@.contains(f1) && k.areas@[i].fields@.contains(
            f2,
        )
}

/// Linear scan for a field in a cage's field list.
pub fn contains_field(fields: &Vec<Field>, f: &Field) -> (r: bool)
    ensures
        r == fields@.contains(*f),
{
    let n = fields.len();
    let mut i: usize = 0;
    while i < n
        invariant
            0 <= i <= n,
            n == fields@.len(),
            forall|k: int| 0 <= k < i ==> fields@[k] != *f,
        decreases n - i,
    {
        if fields[i].0 == f.0 && fields[i].1 == f.1 {
            proof {
                assert(fields@[i as int] == *f);
            }
            return true;
        }
        i += 1;
    }
    false
}

impl KenKen {
    pub fn same_area(&self, field1: &Field, field2: &Field) -> (r: bool)
        ensures
            r == spec_same_area(*self, *field1, *field2),
    {
        let n = self.areas.len();
        let mut i: usize = 0;
        while i < n
            invariant
                0 <= i <= n,
                n == self.areas@.len(),
                forall|k: int|
                    0 <= k < i ==> !(self.areas@[k].fields@.contains(*field1)
                        && self.areas@[k].fields@.contains(*field2)),
            decreases n - i,
        {
            if contains_field(&self.areas[i].fields, field1) && contains_field(
                &self.areas[i].fields,
                field2,
            ) {
                return true;
            }
            i += 1;
        }
        false
    }

    /// Finds the cage whose display position is `field`, if any.
    pub fn is_id_field<'a>(&'a self, field: Field) -> (r: Option<&'a Area>)
        requires
            forall|i: int| 0 <= i < self.areas@.len() ==> self.areas@[i].fields@.len() >= 1,
        ensures
            r matches Some(a) ==> exists|i: int|
                {
                    &&& 0 <= i < self.areas@.len()
                    &&& *a == self.areas@[i]
                    &&& is_min_yx(self.areas@[i], field)
                    &&& forall|j: int| 0 <= j < i ==> !is_min_yx(self.areas@[j], field)
                },
            r is None ==> forall|i: int|
                0 <= i < self.areas@.len() ==> !is_min_yx(self.areas@[i], field),
    {
        let n = self.areas.len();
        let mut i: usize = 0;
        while i < n
            invariant
                0 <= i <= n,
                n == self.areas@.len(),
                forall|k: int| 0 <= k < self.areas@.len() ==> self.areas@[k].fields@.len() >= 1,
                forall|k: int| 0 <= k < i ==> !is_min_yx(self.areas@[k], field),
            decreases n - i,
        {
            let res = self.areas[i].id_field(field);
            match res {
                Some(a) => {
                    return Some(a);
                },
                None => {},
            }
            i += 1;
        }
        None
    }

    /// The first cage that holds `field`, as an index into `areas`.
    fn find_area_index(&self, field: &Field) -> (r: Option<usize>)
        ensures
            r matches Some(i) ==> {
                &&& 0 <= i < self.areas@.len()
                &&& self.areas@[i as int].fields@.contains(*field)
                &&& forall|j: int| 0 <= j < i ==> !self.areas@[j].fields@.contains(*field)
            },
            r is None ==> forall|i: int|
                0 <= i < self.areas@.len() ==> !self.areas@[i].fields@.contains(*field),
    {
        let n = self.areas.len();
        let mut i: usize = 0;
        while i < n
            invariant
                0 <= i <= n,
                n == self.areas@.len(),
                forall|k: int| 0 <= k < i ==> !self.areas@[k].fields@.contains(*field),
            decreases n - i,
        {
            if contains_field(&self.areas[i].fields, field) {
                return Some(i);
            }
            i += 1;
        }
        None
    }

    /// Appends `to_add` to the first cage that holds `field`; reports
    /// whether such a cage exists.
    pub fn add_to_area_if_exists(&mut self, field: &Field, to_add: Field) -> (r: bool)
        ensures
            r == exists|i: int|
                0 <= i < old(self).areas@.len() && old(self).areas@[i].fields@.contains(*field),
            r ==> exists|i: int|
                {
                    &&& 0 <= i < old(self).areas@.len()
                    &&& old(self).areas@[i].fields@.contains(*field)
                    &&& forall|j: int|
                        0 <= j < i ==> !old(self).areas@[j].fields@.contains(*field)
                    &&& final(self).areas@.len() == old(self).areas@.len()
                    &&& forall|j: int|
                        0 <= j < old(self).areas@.len() && j != i ==> final(self).areas@[j]
                            == old(self).areas@[j]
                    &&& final(self).areas@[i].ty == old(self).areas@[i].ty
                    &&& final(self).areas@[i].solution == old(self).areas@[i].solution
                    &&& final(self).areas@[i].fields@ == old(self).areas@[i].fields@.push(to_add)
                },
            !r ==> *final(self) == *old(self),
            final(self).id == old(self).id,
            final(self).size == old(self).size,
    {
        match self.find_area_index(field) {
            Some(i) => {
                let a = &mut self.areas[i];
                a.fields.push(to_add);
                proof {
                    assert(self.areas@[i as int].fields@ == old(self).areas@[i as int].fields@.push(
                        to_add,
                    ));
                    assert(forall|j: int|
                        0 <= j < old(self).areas@.len() && j != i ==> self.areas@[j] == old(
                            self,
                        ).areas@[j]);
                }
                true
            },
            None => false,
        }
    }

    /// A mutable borrow of the first cage that holds `field`, if any.
    pub fn get_area_mut<'a>(&'a mut self, field: &Field) -> (r: Option<&'a mut Area>)
        ensures
            match r {
                Some(a) => {
                    &&& exists|i: int|
                        {
                            &&& 0 <= i < old(self).areas@.len()
                            &&& old(self).areas@[i].fields@.contains(*field)
                            &&& forall|j: int|
                                0 <= j < i ==> !old(self).areas@[j].fields@.contains(*field)
                            &&& *a == old(self).areas@[i]
                            &&& final(self).areas@ == old(self).areas@.update(i, *final(a))
                        }
                    &&& final(self).id == old(self).id
                    &&& final(self).size == old(self).size
                },
                None => {
                    &&& *final(self) == *old(self)
                    &&& forall|i: int|
                        0 <= i < old(self).areas@.len() ==> !old(self).areas@[i].fields@.contains(
                            *field,
                        )
                },
            },
    {
        match self.find_area_index(field) {
            Some(i) => Some(&mut self.areas[i]),
            None => None,
        }
    }
}

} // verus!
