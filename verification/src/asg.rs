use vstd::prelude::*;
use vstd::arithmetic::div_mod::{lemma_fundamental_div_mod, lemma_fundamental_div_mod_converse};
use vstd::arithmetic::mul::{lemma_mul_is_associative, lemma_mul_inequality};

use crate::kenken::{same_axis, distinct_fields, in_grid, Field, Area, KenKen, Type};

verus! {

/// An entry list holds each field at most once.
pub open spec fn keys_distinct(s: Seq<(Field, u16)>) -> bool {
    forall|i: int, j: int| 0 <= i < j < s.len() ==> s[i].0 != s[j].0
}

/// Some entry of `s` is keyed by `f`.
pub open spec fn contains_key(s: Seq<(Field, u16)>, f: Field) -> bool {
    exists|i: int| 0 <= i < s.len() && s[i].0 == f
}

/// The map an entry list denotes; a later entry overrides an earlier one.
pub open spec fn seq_to_map(s: Seq<(Field, u16)>) -> Map<Field, u16>
    decreases s.len(),
{
    if s.len() == 0 {
        Map::empty()
    } else {
        seq_to_map(s.drop_last()).insert(s.last().0, s.last().1)
    }
}

proof fn lemma_seq_to_map_dom(s: Seq<(Field, u16)>)
    ensures
        forall|f: Field| #[trigger] seq_to_map(s).dom().contains(f) <==> contains_key(s, f),
    decreases s.len(),
{
    if s.len() == 0 {
        assert(forall|f: Field| !contains_key(s, f));
    } else {
        lemma_seq_to_map_dom(s.drop_last());
        assert forall|f: Field| #[trigger] seq_to_map(s).dom().contains(f) implies contains_key(
            s,
            f,
        ) by {
            if f == s.last().0 {
                assert(s[s.len() - 1].0 == f);
            } else {
                assert(seq_to_map(s.drop_last()).dom().contains(f));
                assert(contains_key(s.drop_last(), f));
                let i = choose|i: int| 0 <= i < s.drop_last().len() && s.drop_last()[i].0 == f;
                assert(s.drop_last()[i] == s[i]);
                assert(s[i].0 == f);
            }
        }
        assert forall|f: Field| contains_key(s, f) implies #[trigger] seq_to_map(s).dom().contains(
            f,
        ) by {
            let i = choose|i: int| 0 <= i < s.len() && s[i].0 == f;
            if i < s.len() - 1 {
                assert(s.drop_last()[i].0 == f);
                assert(contains_key(s.drop_last(), f));
                assert(seq_to_map(s.drop_last()).dom().contains(f));
            } else {
                assert(f == s.last().0);
            }
        }
    }
}

proof fn lemma_seq_to_map_index(s: Seq<(Field, u16)>, i: int)
    requires
        keys_distinct(s),
        0 <= i < s.len(),
    ensures
        seq_to_map(s).dom().contains(s[i].0),
        seq_to_map(s)[s[i].0] == s[i].1,
    decreases s.len(),
{
    if i == s.len() - 1 {
    } else {
        assert(keys_distinct(s.drop_last()));
        lemma_seq_to_map_index(s.drop_last(), i);
        assert(s.drop_last()[i] == s[i]);
        assert(s[i].0 != s.last().0);
    }
}

proof fn lemma_seq_to_map_push(s: Seq<(Field, u16)>, p: (Field, u16))
    ensures
        seq_to_map(s.push(p)) == seq_to_map(s).insert(p.0, p.1),
{
    assert(s.push(p).drop_last() =~= s);
    assert(s.push(p).last() == p);
}

proof fn lemma_seq_to_map_remove(s: Seq<(Field, u16)>, i: int)
    requires
        keys_distinct(s),
        0 <= i < s.len(),
    ensures
        seq_to_map(s.remove(i)) == seq_to_map(s).remove(s[i].0),
    decreases s.len(),
{
    lemma_seq_to_map_dom(s.drop_last());
    if i == s.len() - 1 {
        assert(s.remove(i) =~= s.drop_last());
        assert(!contains_key(s.drop_last(), s[i].0));
        assert(seq_to_map(s.drop_last()).remove(s[i].0) =~= seq_to_map(s.drop_last()));
        assert(seq_to_map(s).remove(s[i].0) =~= seq_to_map(s.drop_last()).remove(s[i].0));
    } else {
        assert(keys_distinct(s.drop_last()));
        lemma_seq_to_map_remove(s.drop_last(), i);
        assert(s.remove(i).drop_last() =~= s.drop_last().remove(i));
        assert(s.remove(i).last() == s.last());
        assert(s[i].0 != s.last().0);
        assert(seq_to_map(s.remove(i)) == seq_to_map(s.drop_last().remove(i)).insert(
            s.last().0,
            s.last().1,
        ));
        assert(seq_to_map(s.drop_last()).remove(s[i].0).insert(s.last().0, s.last().1)
            =~= seq_to_map(s.drop_last()).insert(s.last().0, s.last().1).remove(s[i].0));
    }
}

/// A partial or complete placement of values on fields, seen as a map
/// from fields to values.
#[derive(Debug, PartialEq, Eq)]
pub struct Assignment {
    values: Vec<(Field, u16)>,
}

impl View for Assignment {
    type V = Map<Field, u16>;

    closed spec fn view(&self) -> Map<Field, u16> {
        seq_to_map(self.values@)
    }
}

/// Placing `v` on `f` would clash: some other field sharing a row or a
/// column with `f` already holds `v`.
pub open spec fn spec_conflict(m: Map<Field, u16>, f: Field, v: u16) -> bool {
    exists|g: Field| m.dom().contains(g) && g != f && same_axis(g, f) && m[g] == v
}

/// Some placement of `a` clashes with `b` in the sense of `spec_conflict`.
pub open spec fn spec_conflict_asg(a: Map<Field, u16>, b: Map<Field, u16>) -> bool {
    exists|f: Field| a.dom().contains(f) && spec_conflict(b, f, a[f])
}

/// Linear scan for the entry keyed by `field`.
fn find_key(values: &Vec<(Field, u16)>, field: &Field) -> (r: Option<usize>)
    ensures
        r matches Some(i) ==> 0 <= i < values@.len() && values@[i as int].0 == *field,
        r is None ==> !contains_key(values@, *field),
{
    let n = values.len();
    let mut i: usize = 0;
    while i < n
        invariant
            0 <= i <= n,
            n == values@.len(),
            forall|k: int| 0 <= k < i ==> values@[k].0 != *field,
        decreases n - i,
    {
        if values[i].0 .0 == field.0 && values[i].0 .1 == field.1 {
            proof {
                assert(values@[i as int].0 == *field);
            }
            return Some(i);
        }
        i += 1;
    }
    None
}

impl Assignment {
    #[verifier::type_invariant]
    spec fn inv(self) -> bool {
        keys_distinct(self.values@)
    }

    pub fn empty() -> (r: Self)
        ensures
            r@ == Map::<Field, u16>::empty(),
    {
        Assignment { values: Vec::new() }
    }

    /// Inserts `value` on `field`, overriding any earlier value there.
    pub fn set(&mut self, field: Field, value: u16)
        ensures
            final(self)@ == old(self)@.insert(field, value),
    {
        proof {
            use_type_invariant(&*self);
        }
        let mut vals: Vec<(Field, u16)> = Vec::new();
        core::mem::swap(&mut vals, &mut self.values);
        let ghost s0 = vals@;
        match find_key(&vals, &field) {
            Some(i) => {
                proof {
                    lemma_seq_to_map_remove(vals@, i as int);
                }
                vals.remove(i);
                proof {
                    assert forall|a: int, b: int|
                        0 <= a < b < vals@.len() implies vals@[a].0 != vals@[b].0 by {
                        if b < i {
                            assert(vals@[a] == s0[a] && vals@[b] == s0[b]);
                        } else if a < i {
                            assert(vals@[a] == s0[a] && vals@[b] == s0[b + 1]);
                        } else {
                            assert(vals@[a] == s0[a + 1] && vals@[b] == s0[b + 1]);
                        }
                    }
                    assert(!contains_key(vals@, field)) by {
                        if contains_key(vals@, field) {
                            let k = choose|k: int|
                                0 <= k < vals@.len() && vals@[k].0 == field;
                            if k < i {
                                assert(s0[k].0 == field && s0[i as int].0 == field);
                            } else {
                                assert(s0[k + 1].0 == field && s0[i as int].0 == field);
                            }
                        }
                    }
                    lemma_seq_to_map_push(vals@, (field, value));
                }
                vals.push((field, value));
            },
            None => {
                proof {
                    lemma_seq_to_map_push(vals@, (field, value));
                    assert forall|a: int, b: int|
                        0 <= a < b < vals@.push((field, value)).len() implies vals@.push(
                        (field, value),
                    )[a].0 != vals@.push((field, value))[b].0 by {
                        if b == vals@.len() {
                            assert(vals@[a].0 != field);
                        }
                    }
                }
                vals.push((field, value));
            },
        }
        self.values = vals;
        proof {
            assert(self@ =~= old(self)@.insert(field, value));
        }
    }

    /// The value placed on `field`, if any.
    pub fn get(&self, field: &Field) -> (r: Option<u16>)
        ensures
            r == (if self@.dom().contains(*field) {
                Some(self@[*field])
            } else {
                None::<u16>
            }),
    {
        proof {
            use_type_invariant(self);
            lemma_seq_to_map_dom(self.values@);
        }
        match find_key(&self.values, field) {
            Some(i) => {
                proof {
                    lemma_seq_to_map_index(self.values@, i as int);
                }
                Some(self.values[i].1)
            },
            None => None,
        }
    }

    /// Whether placing `value` on `field` would clash with a value this
    /// assignment already holds on another field of the same row or column.
    pub fn conflict(&self, field: &Field, value: u16) -> (r: bool)
        ensures
            r == spec_conflict(self@, *field, value),
    {
        proof {
            use_type_invariant(self);
            lemma_seq_to_map_dom(self.values@);
        }
        let n = self.values.len();
        let mut i: usize = 0;
        while i < n
            invariant
                0 <= i <= n,
                n == self.values@.len(),
                keys_distinct(self.values@),
                forall|k: int|
                    0 <= k < i ==> !(self.values@[k].0 != *field && same_axis(
                        self.values@[k].0,
                        *field,
                    ) && self.values@[k].1 == value),
            decreases n - i,
        {
            let (g, v) = self.values[i];
            if v == value && !(g.0 == field.0 && g.1 == field.1) && g.equal_axis(field) {
                proof {
                    lemma_seq_to_map_index(self.values@, i as int);
                    assert(g != *field);
                }
                return true;
            }
            i += 1;
        }
        proof {
            assert forall|g: Field|
                !(self@.dom().contains(g) && g != *field && same_axis(g, *field) && self@[g]
                    == value) by {
                if self@.dom().contains(g) {
                    let k = choose|k: int|
                        0 <= k < self.values@.len() && self.values@[k].0 == g;
                    lemma_seq_to_map_index(self.values@, k);
                }
            }
        }
        false
    }

    /// Whether any placement of `self` clashes with `other`.
    pub fn conflict_asg(&self, other: &Assignment) -> (r: bool)
        ensures
            r == spec_conflict_asg(self@, other@),
    {
        proof {
            use_type_invariant(self);
            lemma_seq_to_map_dom(self.values@);
        }
        let n = self.values.len();
        let mut i: usize = 0;
        while i < n
            invariant
                0 <= i <= n,
                n == self.values@.len(),
                keys_distinct(self.values@),
                forall|k: int|
                    0 <= k < i ==> !spec_conflict(other@, self.values@[k].0, self.values@[k].1),
            decreases n - i,
        {
            let (f, v) = self.values[i];
            if other.conflict(&f, v) {
                proof {
                    lemma_seq_to_map_index(self.values@, i as int);
                }
                return true;
            }
            i += 1;
        }
        proof {
            assert forall|f: Field|
                !(self@.dom().contains(f) && spec_conflict(other@, f, self@[f])) by {
                if self@.dom().contains(f) {
                    let k = choose|k: int|
                        0 <= k < self.values@.len() && self.values@[k].0 == f;
                    lemma_seq_to_map_index(self.values@, k);
                }
            }
        }
        false
    }

    /// A fresh assignment holding exactly the same placements.
    pub fn duplicate(&self) -> (r: Assignment)
        ensures
            r@ == self@,
    {
        proof {
            use_type_invariant(self);
        }
        let n = self.values.len();
        let mut vals: Vec<(Field, u16)> = Vec::new();
        let mut i: usize = 0;
        while i < n
            invariant
                0 <= i <= n,
                n == self.values@.len(),
                vals@ == self.values@.take(i as int),
            decreases n - i,
        {
            vals.push(self.values[i]);
            proof {
                assert(vals@ =~= self.values@.take(i + 1 as int));
            }
            i += 1;
        }
        proof {
            assert(vals@ =~= self.values@);
        }
        Assignment { values: vals }
    }
}

/// Every placed value lies in the playable range `1..=size`.
pub open spec fn values_in_range(m: Map<Field, u16>, size: u16) -> bool {
    forall|f: Field| m.dom().contains(f) ==> 1 <= #[trigger] m[f] <= size
}

/// No two distinct fields sharing a row or a column hold the same value.
pub open spec fn no_conflicts(m: Map<Field, u16>) -> bool {
    forall|f: Field, g: Field|
        m.dom().contains(f) && m.dom().contains(g) && f != g && same_axis(f, g) ==> #[trigger] m[f]
            != #[trigger] m[g]
}

/// The sum of the values `m` places on `fields`, in order.
pub open spec fn sum_values(fields: Seq<Field>, m: Map<Field, u16>) -> int
    decreases fields.len(),
{
    if fields.len() == 0 {
        0
    } else {
        m[fields[0]] + sum_values(fields.drop_first(), m)
    }
}

/// The product of the values `m` places on `fields`, in order.
pub open spec fn mul_values(fields: Seq<Field>, m: Map<Field, u16>) -> int
    decreases fields.len(),
{
    if fields.len() == 0 {
        1
    } else {
        m[fields[0]] * mul_values(fields.drop_first(), m)
    }
}

/// The values `m` places on the cage's fields combine to its target
/// through its operator.
pub open spec fn area_sat(area: Area, m: Map<Field, u16>) -> bool {
    match area.ty {
        Type::Add => sum_values(area.fields@, m) == area.solution,
        Type::Mul => mul_values(area.fields@, m) == area.solution,
        Type::Sub => pair_sat(true, area.solution as int, m[area.fields@[0]], m[area.fields@[1]]),
        Type::Div => pair_sat(false, area.solution as int, m[area.fields@[0]], m[area.fields@[1]]),
        Type::Single => m[area.fields@[0]] as int == area.solution as int,
    }
}

/// Two distinct values reach `target`: by subtraction of the smaller from
/// the larger, or by exact division of the larger by the smaller.
pub open spec fn pair_sat(is_sub: bool, target: int, a: u16, b: u16) -> bool {
    &&& a != b
    &&& if is_sub {
        hi_of(a, b) - lo_of(a, b) == target
    } else {
        lo_of(a, b) * target == hi_of(a, b)
    }
}

pub open spec fn lo_of(a: u16, b: u16) -> int {
    if a < b {
        a as int
    } else {
        b as int
    }
}

pub open spec fn hi_of(a: u16, b: u16) -> int {
    if a < b {
        b as int
    } else {
        a as int
    }
}

/// One locally valid way to fill a cage: `m` places a value on exactly the
/// cage's fields, each within the playable range, without two equal
/// values on a shared row or column, and the values combine to the
/// cage's target.
pub open spec fn is_candidate(area: Area, size: u16, m: Map<Field, u16>) -> bool {
    &&& m.dom() == area.fields@.to_set()
    &&& values_in_range(m, size)
    &&& no_conflicts(m)
    &&& area_sat(area, m)
}

enum DecType {
    Sub,
    Div,
}

/// What `dec_assignments` enumerates: a placement of two distinct
/// in-range values on the two fields that reaches the target.
spec fn dec_candidate(
    is_sub: bool,
    f1: Field,
    f2: Field,
    target: int,
    size: u16,
    m: Map<Field, u16>,
) -> bool {
    &&& m.dom() == Set::empty().insert(f1).insert(f2)
    &&& 1 <= m[f1] <= size
    &&& 1 <= m[f2] <= size
    &&& pair_sat(is_sub, target, m[f1], m[f2])
}

/// No two assignments of the list hold the same placements.
pub open spec fn views_distinct(rs: Seq<Assignment>) -> bool {
    forall|k1: int, k2: int|
        0 <= k1 < k2 < rs.len() ==> #[trigger] rs[k1]@ != #[trigger] rs[k2]@
}

/// Every listed assignment is a `dec_candidate`.
spec fn dec_sound(
    is_sub: bool,
    f1: Field,
    f2: Field,
    target: int,
    size: u16,
    rs: Seq<Assignment>,
) -> bool {
    forall|k: int|
        0 <= k < rs.len() ==> dec_candidate(is_sub, f1, f2, target, size, #[trigger] rs[k]@)
}

/// Every `dec_candidate` appears in the list.
spec fn dec_complete(
    is_sub: bool,
    f1: Field,
    f2: Field,
    target: int,
    size: u16,
    rs: Seq<Assignment>,
) -> bool {
    forall|m: Map<Field, u16>|
        #[trigger] dec_candidate(is_sub, f1, f2, target, size, m) ==> exists|k: int|
            0 <= k < rs.len() && #[trigger] rs[k]@ == m
}

/// The value pair `(a, b)`, with `a` the smaller, comes strictly before
/// position `(i, j)` in the enumeration order of value pairs.
spec fn before_pos(a: int, b: int, i: int, j: int) -> bool {
    a < i || (a == i && b < j)
}

/// The two values a `dec_candidate` places, smaller first.
spec fn cand_lo(f1: Field, f2: Field, m: Map<Field, u16>) -> int {
    lo_of(m[f1], m[f2])
}

spec fn cand_hi(f1: Field, f2: Field, m: Map<Field, u16>) -> int {
    hi_of(m[f1], m[f2])
}

fn dec_assignments(ty: DecType, field1: Field, field2: Field, solution: u64, size: u16) -> (r:
    Vec<Assignment>)
    requires
        field1 != field2,
    ensures
        dec_sound(ty is Sub, field1, field2, solution as int, size, r@),
        dec_complete(ty is Sub, field1, field2, solution as int, size, r@),
        views_distinct(r@),
{
    let ghost is_sub = ty is Sub;
    let ghost target = solution as int;
    let mut asgs: Vec<Assignment> = Vec::new();
    let size32 = size as u32;
    let mut i: u32 = 1;
    while i <= size32
        invariant
            1 <= i <= size32 + 1,
            size32 == size,
            field1 != field2,
            is_sub == (ty is Sub),
            target == solution as int,
            forall|k: int|
                0 <= k < asgs@.len() ==> dec_candidate(
                    is_sub,
                    field1,
                    field2,
                    target,
                    size,
                    #[trigger] asgs@[k]@,
                ) && before_pos(
                    cand_lo(field1, field2, asgs@[k]@),
                    cand_hi(field1, field2, asgs@[k]@),
                    i as int,
                    1,
                ),
            forall|m: Map<Field, u16>|
                #[trigger] dec_candidate(is_sub, field1, field2, target, size, m) && before_pos(
                    cand_lo(field1, field2, m),
                    cand_hi(field1, field2, m),
                    i as int,
                    1,
                ) ==> exists|k: int| 0 <= k < asgs@.len() && #[trigger] asgs@[k]@ == m,
            views_distinct(asgs@),
        decreases size32 + 1 - i,
    {
        let mut j: u32 = 1;
        while j <= size32
            invariant
                1 <= i <= size32,
                1 <= j <= size32 + 1,
                size32 == size,
                field1 != field2,
                is_sub == (ty is Sub),
                target == solution as int,
                forall|k: int|
                    0 <= k < asgs@.len() ==> dec_candidate(
                        is_sub,
                        field1,
                        field2,
                        target,
                        size,
                        #[trigger] asgs@[k]@,
                    ) && before_pos(
                        cand_lo(field1, field2, asgs@[k]@),
                        cand_hi(field1, field2, asgs@[k]@),
                        i as int,
                        j as int,
                    ),
                forall|m: Map<Field, u16>|
                    #[trigger] dec_candidate(is_sub, field1, field2, target, size, m)
                        && before_pos(
                        cand_lo(field1, field2, m),
                        cand_hi(field1, field2, m),
                        i as int,
                        j as int,
                    ) ==> exists|k: int| 0 <= k < asgs@.len() && #[trigger] asgs@[k]@ == m,
                views_distinct(asgs@),
            decreases size32 + 1 - j,
        {
            let ghost prev = asgs@;
            if i < j {
                let emit: bool = match ty {
                    DecType::Div => j % i == 0 && (j / i) as u64 == solution,
                    DecType::Sub => (j - i) as u64 == solution,
                };
                if emit {
                    let iv = i as u16;
                    let jv = j as u16;
                    let mut asg1 = Assignment::empty();
                    asg1.set(field1, iv);
                    asg1.set(field2, jv);
                    let mut asg2 = Assignment::empty();
                    asg2.set(field2, iv);
                    asg2.set(field1, jv);
                    proof {
                        assert(iv == i && jv == j);
                        assert(asg1@.dom() =~= Set::empty().insert(field1).insert(field2));
                        assert(asg2@.dom() =~= Set::empty().insert(field1).insert(field2));
                        assert(asg1@[field1] == iv && asg1@[field2] == jv);
                        assert(asg2@[field1] == jv && asg2@[field2] == iv);
                        assert(lo_of(iv, jv) == i as int && hi_of(iv, jv) == j as int);
                        assert(lo_of(jv, iv) == i as int && hi_of(jv, iv) == j as int);
                        if ty is Div {
                            lemma_fundamental_div_mod(j as int, i as int);
                            assert(j as int == (i as int) * ((j as int) / (i as int)));
                            assert((j as int) / (i as int) == target);
                            assert((i as int) * target == j as int);
                        } else {
                            assert((j as int) - (i as int) == target);
                        }
                        assert(pair_sat(is_sub, target, iv, jv));
                        assert(pair_sat(is_sub, target, jv, iv));
                        assert(dec_candidate(is_sub, field1, field2, target, size, asg1@));
                        assert(dec_candidate(is_sub, field1, field2, target, size, asg2@));
                    }
                    asgs.push(asg1);
                    asgs.push(asg2);
                    proof {
                        assert(asgs@.len() == prev.len() + 2);
                        assert(forall|k: int| 0 <= k < prev.len() ==> asgs@[k] == prev[k]);
                        assert(asgs@[prev.len() as int]@ == asg1@);
                        assert(asgs@[prev.len() as int + 1]@ == asg2@);
                        assert(asg1@ != asg2@) by {
                            assert(asg1@[field1] == iv && asg2@[field1] == jv);
                        }
                        assert forall|m: Map<Field, u16>|
                            #[trigger] dec_candidate(is_sub, field1, field2, target, size, m)
                                && before_pos(
                                cand_lo(field1, field2, m),
                                cand_hi(field1, field2, m),
                                i as int,
                                j + 1 as int,
                            ) implies exists|k: int|
                            0 <= k < asgs@.len() && #[trigger] asgs@[k]@ == m by {
                            let a = cand_lo(field1, field2, m);
                            let b = cand_hi(field1, field2, m);
                            if before_pos(a, b, i as int, j as int) {
                                let k = choose|k: int|
                                    0 <= k < prev.len() && #[trigger] prev[k]@ == m;
                                assert(asgs@[k]@ == m);
                            } else {
                                assert(a == i as int && b == j as int);
                                if m[field1] < m[field2] {
                                    assert(m[field1] == iv && m[field2] == jv);
                                    assert(m =~= asg1@);
                                    assert(asgs@[prev.len() as int]@ == m);
                                } else {
                                    assert(m[field1] == jv && m[field2] == iv);
                                    assert(m =~= asg2@);
                                    assert(asgs@[prev.len() as int + 1]@ == m);
                                }
                            }
                        }
                    }
                } else {
                    proof {
                        assert forall|m: Map<Field, u16>|
                            !(#[trigger] dec_candidate(is_sub, field1, field2, target, size, m)
                                && cand_lo(field1, field2, m) == i as int && cand_hi(
                                field1,
                                field2,
                                m,
                            ) == j as int) by {
                            if dec_candidate(is_sub, field1, field2, target, size, m) && cand_lo(
                                field1,
                                field2,
                                m,
                            ) == i as int && cand_hi(field1, field2, m) == j as int {
                                if ty is Sub {
                                    assert((j as int) - (i as int) == target);
                                    assert((j - i) as u64 == solution);
                                } else {
                                    assert((i as int) * target == j as int);
                                    assert(1 <= m[field1] <= size && 1 <= m[field2] <= size);
                                    assert(0 <= target) by {
                                        assert(target == solution as int);
                                    }
                                    lemma_fundamental_div_mod_converse(
                                        j as int,
                                        i as int,
                                        target,
                                        0,
                                    );
                                    assert(j % i == 0 && (j / i) as u64 == solution);
                                }
                            }
                        }
                    }
                }
            } else {
                proof {
                    assert forall|m: Map<Field, u16>|
                        !(#[trigger] dec_candidate(is_sub, field1, field2, target, size, m)
                            && cand_lo(field1, field2, m) == i as int && cand_hi(
                            field1,
                            field2,
                            m,
                        ) == j as int) by {
                        if dec_candidate(is_sub, field1, field2, target, size, m) {
                            assert(m[field1] != m[field2]);
                            assert(cand_lo(field1, field2, m) < cand_hi(field1, field2, m));
                        }
                    }
                }
            }
            proof {
                assert forall|m: Map<Field, u16>|
                    #[trigger] dec_candidate(is_sub, field1, field2, target, size, m)
                        && before_pos(
                        cand_lo(field1, field2, m),
                        cand_hi(field1, field2, m),
                        i as int,
                        j + 1 as int,
                    ) implies exists|k: int| 0 <= k < asgs@.len() && #[trigger] asgs@[k]@ == m by {
                    let a = cand_lo(field1, field2, m);
                    let b = cand_hi(field1, field2, m);
                    if before_pos(a, b, i as int, j as int) {
                        let k = choose|k: int| 0 <= k < prev.len() && #[trigger] prev[k]@ == m;
                        assert(asgs@[k]@ == m);
                    } else {
                        assert(a == i as int && b == j as int);
                    }
                }
            }
            j += 1;
        }
        proof {
            assert forall|m: Map<Field, u16>|
                #[trigger] dec_candidate(is_sub, field1, field2, target, size, m) && before_pos(
                    cand_lo(field1, field2, m),
                    cand_hi(field1, field2, m),
                    i + 1 as int,
                    1,
                ) implies before_pos(
                cand_lo(field1, field2, m),
                cand_hi(field1, field2, m),
                i as int,
                j as int,
            ) by {
                assert(cand_hi(field1, field2, m) <= size);
            }
        }
        i += 1;
    }
    proof {
        assert forall|m: Map<Field, u16>|
            #[trigger] dec_candidate(is_sub, field1, field2, target, size, m) implies before_pos(
            cand_lo(field1, field2, m),
            cand_hi(field1, field2, m),
            i as int,
            1,
        ) by {
            assert(cand_lo(field1, field2, m) <= size);
        }
    }
    asgs
}


enum IncType {
    Add,
    Mul,
}

/// What the backtracking search produces: `m` agrees with `base`, places
/// an in-range value on every remaining field, stays free of conflicts,
/// and brings the running total `acc` to exactly `target`.
spec fn inc_candidate(
    is_add: bool,
    base: Map<Field, u16>,
    rem: Seq<Field>,
    acc: int,
    target: int,
    size: u16,
    m: Map<Field, u16>,
) -> bool {
    &&& m.dom() == base.dom() + rem.to_set()
    &&& (forall|f: Field| base.dom().contains(f) ==> #[trigger] m[f] == base[f])
    &&& (forall|f: Field| rem.to_set().contains(f) ==> 1 <= #[trigger] m[f] <= size)
    &&& no_conflicts(m)
    &&& (if is_add {
        acc + sum_values(rem, m) == target
    } else {
        acc * mul_values(rem, m) == target
    })
}

/// Every assignment past `from` in the list is an `inc_candidate`.
spec fn inc_sound(
    is_add: bool,
    base: Map<Field, u16>,
    rem: Seq<Field>,
    acc: int,
    target: int,
    size: u16,
    rs: Seq<Assignment>,
    from: int,
) -> bool {
    forall|k: int|
        from <= k < rs.len() ==> inc_candidate(
            is_add,
            base,
            rem,
            acc,
            target,
            size,
            #[trigger] rs[k]@,
        )
}

/// Every `inc_candidate` appears in the list past `from`.
spec fn inc_complete(
    is_add: bool,
    base: Map<Field, u16>,
    rem: Seq<Field>,
    acc: int,
    target: int,
    size: u16,
    rs: Seq<Assignment>,
    from: int,
) -> bool {
    forall|m: Map<Field, u16>|
        #[trigger] inc_candidate(is_add, base, rem, acc, target, size, m) ==> exists|k: int|
            from <= k < rs.len() && #[trigger] rs[k]@ == m
}

/// No two assignments past `from` hold the same placements.
pub open spec fn views_distinct_from(rs: Seq<Assignment>, from: int) -> bool {
    forall|k1: int, k2: int|
        from <= k1 < k2 < rs.len() ==> #[trigger] rs[k1]@ != #[trigger] rs[k2]@
}

proof fn lemma_contains_drop_first(s: Seq<Field>)
    requires
        s.len() >= 1,
    ensures
        forall|f: Field|
            #![trigger s.contains(f)]
            #![trigger s.drop_first().contains(f)]
            s.contains(f) <==> (f == s[0] || s.drop_first().contains(f)),
{
    assert forall|f: Field| s.contains(f) implies (f == s[0] || s.drop_first().contains(f)) by {
        let k = choose|k: int| 0 <= k < s.len() && s[k] == f;
        if k > 0 {
            assert(s.drop_first()[k - 1] == f);
        }
    }
    assert forall|f: Field| (f == s[0] || s.drop_first().contains(f)) implies s.contains(f) by {
        if f == s[0] {
            assert(s[0] == f);
        } else {
            let k = choose|k: int| 0 <= k < s.drop_first().len() && s.drop_first()[k] == f;
            assert(s[k + 1] == f);
        }
    }
}

proof fn lemma_sum_values_lower(fields: Seq<Field>, m: Map<Field, u16>)
    requires
        forall|f: Field| #[trigger] fields.contains(f) ==> m[f] >= 1,
    ensures
        sum_values(fields, m) >= 0,
    decreases fields.len(),
{
    if fields.len() == 0 {
    } else {
        assert(fields.contains(fields[0]));
        lemma_contains_drop_first(fields);
        lemma_sum_values_lower(fields.drop_first(), m);
    }
}

proof fn lemma_mul_values_lower(fields: Seq<Field>, m: Map<Field, u16>)
    requires
        forall|f: Field| #[trigger] fields.contains(f) ==> m[f] >= 1,
    ensures
        mul_values(fields, m) >= 1,
    decreases fields.len(),
{
    if fields.len() == 0 {
    } else {
        assert(fields.contains(fields[0]));
        lemma_contains_drop_first(fields);
        lemma_mul_values_lower(fields.drop_first(), m);
        lemma_mul_inequality(1, mul_values(fields.drop_first(), m), m[fields[0]] as int);
        vstd::arithmetic::mul::lemma_mul_is_commutative(
            m[fields[0]] as int,
            mul_values(fields.drop_first(), m),
        );
    }
}

/// Fixing the first remaining field to `v` turns an extension problem into
/// the one for the rest of the fields with an updated running total.
proof fn lemma_inc_step(
    is_add: bool,
    base: Map<Field, u16>,
    rem: Seq<Field>,
    acc: int,
    acc2: int,
    target: int,
    size: u16,
    v: u16,
)
    requires
        rem.len() >= 1,
        !base.dom().contains(rem[0]),
        !rem.drop_first().contains(rem[0]),
        1 <= v <= size,
        acc2 == (if is_add {
            acc + v
        } else {
            acc * v
        }),
    ensures
        forall|m: Map<Field, u16>|
            #[trigger] inc_candidate(
                is_add,
                base.insert(rem[0], v),
                rem.drop_first(),
                acc2,
                target,
                size,
                m,
            ) <==> (#[trigger] inc_candidate(is_add, base, rem, acc, target, size, m) && m[rem[0]]
                == v),
{
    let f0 = rem[0];
    let base2 = base.insert(f0, v);
    let rem2 = rem.drop_first();
    lemma_contains_drop_first(rem);
    assert(rem.contains(f0));
    assert(base.dom() + rem.to_set() =~= base2.dom() + rem2.to_set());
    assert forall|m: Map<Field, u16>|
        #[trigger] inc_candidate(is_add, base2, rem2, acc2, target, size, m) <==> (
        #[trigger] inc_candidate(is_add, base, rem, acc, target, size, m) && m[f0] == v) by {
        assert(sum_values(rem, m) == m[f0] + sum_values(rem2, m));
        assert(mul_values(rem, m) == m[f0] * mul_values(rem2, m));
        lemma_mul_is_associative(acc, v as int, mul_values(rem2, m));
        if inc_candidate(is_add, base2, rem2, acc2, target, size, m) {
            assert(base2.dom().contains(f0));
            assert(m[f0] == base2[f0]);
            assert(m[f0] == v);
            assert forall|f: Field| base.dom().contains(f) implies #[trigger] m[f] == base[f] by {
                assert(base2.dom().contains(f));
                assert(f != f0);
            }
            assert forall|f: Field| rem.to_set().contains(f) implies 1 <= #[trigger] m[f]
                <= size by {
                if f == f0 {
                } else {
                    assert(rem2.to_set().contains(f));
                }
            }
            assert(inc_candidate(is_add, base, rem, acc, target, size, m));
        }
        if inc_candidate(is_add, base, rem, acc, target, size, m) && m[f0] == v {
            assert(rem.to_set().contains(f0));
            assert forall|f: Field| base2.dom().contains(f) implies #[trigger] m[f]
                == base2[f] by {
                if f == f0 {
                } else {
                    assert(base.dom().contains(f));
                }
            }
            assert forall|f: Field| rem2.to_set().contains(f) implies 1 <= #[trigger] m[f]
                <= size by {
                assert(rem.to_set().contains(f));
            }
            assert(inc_candidate(is_add, base2, rem2, acc2, target, size, m));
        }
    }
}

/// The backtracking search itself: extends `partial_asg` over the fields
/// of `fields` from position `from` on, appending every extension that
/// reaches `target_sol` to `asgs`.
fn inc_assignments(
    asgs: &mut Vec<Assignment>,
    ty: &IncType,
    fields: &Vec<Field>,
    from: usize,
    partial_asg: &Assignment,
    partial_sol: u64,
    target_sol: u64,
    size: u16,
)
    requires
        from <= fields@.len(),
        distinct_fields(fields@),
        forall|k: int|
            from <= k < fields@.len() ==> !partial_asg@.dom().contains(#[trigger] fields@[k]),
        no_conflicts(partial_asg@),
    ensures
        final(asgs)@.len() >= old(asgs)@.len(),
        forall|k: int| 0 <= k < old(asgs)@.len() ==> final(asgs)@[k] == old(asgs)@[k],
        inc_sound(
            ty is Add,
            partial_asg@,
            fields@.skip(from as int),
            partial_sol as int,
            target_sol as int,
            size,
            final(asgs)@,
            old(asgs)@.len() as int,
        ),
        inc_complete(
            ty is Add,
            partial_asg@,
            fields@.skip(from as int),
            partial_sol as int,
            target_sol as int,
            size,
            final(asgs)@,
            old(asgs)@.len() as int,
        ),
        views_distinct_from(final(asgs)@, old(asgs)@.len() as int),
    decreases fields@.len() - from,
{
    let ghost is_add = ty is Add;
    let ghost base = partial_asg@;
    let ghost rem = fields@.skip(from as int);
    let ghost acc = partial_sol as int;
    let ghost target = target_sol as int;
    if from == fields.len() {
        proof {
            assert(rem.len() == 0);
            assert(rem.to_set() =~= Set::<Field>::empty());
            assert(base.dom() + rem.to_set() =~= base.dom());
        }
        if partial_sol == target_sol {
            let c = partial_asg.duplicate();
            asgs.push(c);
            proof {
                let oldlen = old(asgs)@.len() as int;
                assert(asgs@[oldlen]@ == base);
                assert(inc_candidate(is_add, base, rem, acc, target, size, base));
                assert forall|m: Map<Field, u16>|
                    #[trigger] inc_candidate(is_add, base, rem, acc, target, size, m) implies m
                    =~= base by {
                    assert(m.dom() == base.dom());
                }
            }
        } else {
            proof {
                assert forall|m: Map<Field, u16>|
                    !(#[trigger] inc_candidate(is_add, base, rem, acc, target, size, m)) by {
                    if inc_candidate(is_add, base, rem, acc, target, size, m) {
                        assert(sum_values(rem, m) == 0);
                        assert(mul_values(rem, m) == 1);
                    }
                }
            }
        }
    } else {
        let field = fields[from];
        let ghost rem2 = fields@.skip(from as int + 1);
        proof {
            assert(rem[0] == field);
            assert(rem.drop_first() =~= rem2);
            lemma_contains_drop_first(rem);
            assert(!rem2.contains(field)) by {
                if rem2.contains(field) {
                    let k = choose|k: int| 0 <= k < rem2.len() && rem2[k] == field;
                    assert(fields@[from + 1 + k] == field);
                    assert(fields@[from as int] == field);
                }
            }
            assert(!base.dom().contains(field));
            assert(rem.contains(field));
            assert(rem.to_set().contains(field));
        }
        let size32 = size as u32;
        let mut v: u32 = 1;
        while v <= size32
            invariant
                1 <= v <= size32 + 1,
                size32 == size,
                from < fields@.len(),
                fields@.len() <= usize::MAX,
                field == fields@[from as int],
                distinct_fields(fields@),
                forall|k: int|
                    from <= k < fields@.len() ==> !base.dom().contains(#[trigger] fields@[k]),
                no_conflicts(base),
                base == partial_asg@,
                rem == fields@.skip(from as int),
                rem2 == fields@.skip(from as int + 1),
                rem.len() >= 1,
                rem[0] == field,
                rem.drop_first() == rem2,
                !rem2.contains(field),
                !base.dom().contains(field),
                rem.to_set().contains(field),
                is_add == (ty is Add),
                acc == partial_sol as int,
                target == target_sol as int,
                asgs@.len() >= old(asgs)@.len(),
                forall|k: int| 0 <= k < old(asgs)@.len() ==> asgs@[k] == old(asgs)@[k],
                forall|k: int|
                    old(asgs)@.len() <= k < asgs@.len() ==> inc_candidate(
                        is_add,
                        base,
                        rem,
                        acc,
                        target,
                        size,
                        #[trigger] asgs@[k]@,
                    ) && asgs@[k]@[field] < v,
                forall|m: Map<Field, u16>|
                    #[trigger] inc_candidate(is_add, base, rem, acc, target, size, m) && m[field]
                        < v ==> exists|k: int|
                        old(asgs)@.len() <= k < asgs@.len() && #[trigger] asgs@[k]@ == m,
                views_distinct_from(asgs@, old(asgs)@.len() as int),
            decreases size32 + 1 - v,
        {
            let vv = v as u16;
            let ghost prev = asgs@;
            if !partial_asg.conflict(&field, vv) {
                let mut next = partial_asg.duplicate();
                next.set(field, vv);
                let next_sol_opt: Option<u64> = match ty {
                    IncType::Add => partial_sol.checked_add(vv as u64),
                    IncType::Mul => partial_sol.checked_mul(vv as u64),
                };
                let ghost accv: int = if is_add {
                    acc + vv
                } else {
                    acc * vv
                };
                let recurse: bool = match next_sol_opt {
                    Some(ns) => ns <= target_sol,
                    None => false,
                };
                if recurse {
                    let next_sol = match next_sol_opt {
                        Some(ns) => ns,
                        None => 0,
                    };
                    proof {
                        assert(next_sol as int == accv);
                        assert(next@ == base.insert(field, vv));
                        assert(no_conflicts(next@)) by {
                            assert forall|f: Field, g: Field|
                                next@.dom().contains(f) && next@.dom().contains(g) && f != g
                                    && same_axis(f, g) implies #[trigger] next@[f]
                                != #[trigger] next@[g] by {
                                if f == field {
                                    assert(base.dom().contains(g));
                                    assert(!spec_conflict(base, field, vv));
                                    assert(next@[g] == base[g]);
                                } else if g == field {
                                    assert(base.dom().contains(f));
                                    assert(!spec_conflict(base, field, vv));
                                    assert(next@[f] == base[f]);
                                } else {
                                    assert(base.dom().contains(f) && base.dom().contains(g));
                                    assert(next@[f] == base[f] && next@[g] == base[g]);
                                }
                            }
                        }
                        assert forall|k: int|
                            from + 1 <= k < fields@.len() implies !next@.dom().contains(
                            #[trigger] fields@[k],
                        ) by {
                            assert(fields@[k] != field);
                            assert(!base.dom().contains(fields@[k]));
                        }
                    }
                    inc_assignments(asgs, ty, fields, from + 1, &next, next_sol, target_sol, size);
                    proof {
                        lemma_inc_step(is_add, base, rem, acc, accv, target, size, vv);
                        assert(base.insert(rem[0], vv) == next@);
                        assert forall|k: int|
                            prev.len() <= k < asgs@.len() implies inc_candidate(
                            is_add,
                            base,
                            rem,
                            acc,
                            target,
                            size,
                            #[trigger] asgs@[k]@,
                        ) && asgs@[k]@[field] == vv by {
                            assert(inc_candidate(
                                is_add,
                                next@,
                                rem2,
                                accv,
                                target,
                                size,
                                asgs@[k]@,
                            ));
                        }
                        assert forall|m: Map<Field, u16>|
                            #[trigger] inc_candidate(is_add, base, rem, acc, target, size, m)
                                && m[field] == vv implies exists|k: int|
                            prev.len() <= k < asgs@.len() && #[trigger] asgs@[k]@ == m by {
                            assert(inc_candidate(is_add, next@, rem2, accv, target, size, m));
                        }
                        assert forall|k1: int, k2: int|
                            old(asgs)@.len() <= k1 < k2 < asgs@.len() implies #[trigger] asgs@[k1]@
                            != #[trigger] asgs@[k2]@ by {
                            if k2 < prev.len() {
                            } else if k1 >= prev.len() {
                            } else {
                                assert(asgs@[k1]@ == prev[k1]@);
                                assert(asgs@[k1]@[field] < v);
                                assert(asgs@[k2]@[field] == vv);
                            }
                        }
                    }
                } else {
                    proof {
                        assert(accv > target);
                        assert forall|m: Map<Field, u16>|
                            !(#[trigger] inc_candidate(is_add, base, rem, acc, target, size, m)
                                && m[field] == vv) by {
                            if inc_candidate(is_add, base, rem, acc, target, size, m) && m[field]
                                == vv {
                                assert forall|f: Field| #[trigger] rem2.contains(f) implies m[f]
                                    >= 1 by {
                                    assert(rem.contains(f));
                                    assert(rem.to_set().contains(f));
                                }
                                if is_add {
                                    lemma_sum_values_lower(rem2, m);
                                    assert(sum_values(rem, m) == m[field] + sum_values(rem2, m));
                                    assert(acc + sum_values(rem, m) > target);
                                } else {
                                    lemma_mul_values_lower(rem2, m);
                                    assert(mul_values(rem, m) == m[field] * mul_values(rem2, m));
                                    lemma_mul_is_associative(
                                        acc,
                                        vv as int,
                                        mul_values(rem2, m),
                                    );
                                    lemma_mul_inequality(1, mul_values(rem2, m), accv);
                                    assert(acc * mul_values(rem, m) >= accv);
                                    assert(acc * mul_values(rem, m) > target);
                                }
                            }
                        }
                    }
                }
            } else {
                proof {
                    assert forall|m: Map<Field, u16>|
                        !(#[trigger] inc_candidate(is_add, base, rem, acc, target, size, m)
                            && m[field] == vv) by {
                        if inc_candidate(is_add, base, rem, acc, target, size, m) && m[field]
                            == vv {
                            let g = choose|g: Field|
                                base.dom().contains(g) && g != field && same_axis(g, field)
                                    && base[g] == vv;
                            assert(m.dom().contains(g));
                            assert(m[g] == base[g]);
                            assert(m.dom().contains(field));
                            assert(same_axis(g, field));
                        }
                    }
                }
            }
            proof {
                assert forall|m: Map<Field, u16>|
                    #[trigger] inc_candidate(is_add, base, rem, acc, target, size, m) && m[field]
                        < v + 1 implies exists|k: int|
                    old(asgs)@.len() <= k < asgs@.len() && #[trigger] asgs@[k]@ == m by {
                    if m[field] < v {
                        let k = choose|k: int|
                            old(asgs)@.len() <= k < prev.len() && #[trigger] prev[k]@ == m;
                        assert(asgs@[k]@ == m);
                    } else {
                        assert(m[field] == vv);
                    }
                }
            }
            v += 1;
        }
        proof {
            assert forall|m: Map<Field, u16>|
                #[trigger] inc_candidate(is_add, base, rem, acc, target, size, m) implies m[field]
                < v by {
                assert(1 <= m[field] <= size);
            }
        }
    }
}

/// For an Add or Mul cage, the search extensions of the empty assignment
/// are exactly the cage's candidates.
proof fn lemma_inc_bridge(area: Area, size: u16)
    requires
        area.wf(),
        area.ty is Add || area.ty is Mul,
    ensures
        forall|m: Map<Field, u16>|
            #[trigger] is_candidate(area, size, m) <==> inc_candidate(
                area.ty is Add,
                Map::empty(),
                area.fields@,
                if area.ty is Add {
                    0
                } else {
                    1
                },
                area.solution as int,
                size,
                m,
            ),
{
    let acc: int = if area.ty is Add {
        0
    } else {
        1
    };
    assert(Map::<Field, u16>::empty().dom() + area.fields@.to_set() =~= area.fields@.to_set());
    assert forall|m: Map<Field, u16>|
        #[trigger] is_candidate(area, size, m) <==> inc_candidate(
            area.ty is Add,
            Map::empty(),
            area.fields@,
            acc,
            area.solution as int,
            size,
            m,
        ) by {
        if is_candidate(area, size, m) {
            assert forall|f: Field| area.fields@.to_set().contains(f) implies 1 <= #[trigger] m[f]
                <= size by {
                assert(m.dom().contains(f));
            }
            assert(inc_candidate(
                area.ty is Add,
                Map::empty(),
                area.fields@,
                acc,
                area.solution as int,
                size,
                m,
            ));
        }
        if inc_candidate(
            area.ty is Add,
            Map::empty(),
            area.fields@,
            acc,
            area.solution as int,
            size,
            m,
        ) {
            assert forall|f: Field| m.dom().contains(f) implies 1 <= #[trigger] m[f] <= size by {
                assert(area.fields@.to_set().contains(f));
            }
            assert(is_candidate(area, size, m));
        }
    }
}

/// For a Sub or Div cage, the pair enumeration produces exactly the
/// cage's candidates.
proof fn lemma_dec_bridge(area: Area, size: u16)
    requires
        area.wf(),
        area.ty is Sub || area.ty is Div,
    ensures
        forall|m: Map<Field, u16>|
            #[trigger] is_candidate(area, size, m) <==> dec_candidate(
                area.ty is Sub,
                area.fields@[0],
                area.fields@[1],
                area.solution as int,
                size,
                m,
            ),
{
    let f1 = area.fields@[0];
    let f2 = area.fields@[1];
    assert(f1 != f2);
    assert(area.fields@.to_set() =~= Set::empty().insert(f1).insert(f2)) by {
        assert forall|x: Field| #[trigger] area.fields@.contains(x) implies (x == f1 || x
            == f2) by {
            let k = choose|k: int| 0 <= k < area.fields@.len() && area.fields@[k] == x;
        }
        assert(area.fields@.contains(f1));
        assert(area.fields@.contains(f2));
    }
    assert forall|m: Map<Field, u16>|
        #[trigger] is_candidate(area, size, m) <==> dec_candidate(
            area.ty is Sub,
            f1,
            f2,
            area.solution as int,
            size,
            m,
        ) by {
        if dec_candidate(area.ty is Sub, f1, f2, area.solution as int, size, m) {
            assert(m.dom().contains(f1) && m.dom().contains(f2));
            assert forall|f: Field| m.dom().contains(f) implies 1 <= #[trigger] m[f] <= size by {
                assert(f == f1 || f == f2);
            }
            assert forall|f: Field, g: Field|
                m.dom().contains(f) && m.dom().contains(g) && f != g && same_axis(f, g) implies
                #[trigger] m[f] != #[trigger] m[g] by {
                assert((f == f1 && g == f2) || (f == f2 && g == f1));
            }
            assert(is_candidate(area, size, m));
        }
        if is_candidate(area, size, m) {
            assert(m.dom().contains(f1) && m.dom().contains(f2));
            assert(dec_candidate(area.ty is Sub, f1, f2, area.solution as int, size, m));
        }
    }
}

impl Area {
    /// Enumerates every locally valid way to fill this cage on a grid of
    /// side `size`: the returned list holds exactly the candidates of the
    /// cage, each once. An empty result means the cage cannot be filled.
    pub fn possible_assignments(&self, size: u16) -> (r: Vec<Assignment>)
        requires
            self.wf(),
        ensures
            forall|k: int| 0 <= k < r@.len() ==> is_candidate(*self, size, #[trigger] r@[k]@),
            forall|m: Map<Field, u16>|
                #[trigger] is_candidate(*self, size, m) ==> exists|k: int|
                    0 <= k < r@.len() && #[trigger] r@[k]@ == m,
            views_distinct(r@),
    {
        match self.ty {
            Type::Add => {
                let mut asgs: Vec<Assignment> = Vec::new();
                let e = Assignment::empty();
                proof {
                    assert(self.fields@.skip(0) =~= self.fields@);
                }
                inc_assignments(&mut asgs, &IncType::Add, &self.fields, 0, &e, 0, self.solution, size);
                proof {
                    lemma_inc_bridge(*self, size);
                }
                asgs
            },
            Type::Mul => {
                let mut asgs: Vec<Assignment> = Vec::new();
                let e = Assignment::empty();
                proof {
                    assert(self.fields@.skip(0) =~= self.fields@);
                }
                inc_assignments(&mut asgs, &IncType::Mul, &self.fields, 0, &e, 1, self.solution, size);
                proof {
                    lemma_inc_bridge(*self, size);
                }
                asgs
            },
            Type::Sub => {
                let r = dec_assignments(DecType::Sub, self.fields[0], self.fields[1], self.solution, size);
                proof {
                    lemma_dec_bridge(*self, size);
                }
                r
            },
            Type::Div => {
                let r = dec_assignments(DecType::Div, self.fields[0], self.fields[1], self.solution, size);
                proof {
                    lemma_dec_bridge(*self, size);
                }
                r
            },
            Type::Single => {
                let f0 = self.fields[0];
                let mut asgs: Vec<Assignment> = Vec::new();
                proof {
                    assert(self.fields@.to_set() =~= Set::empty().insert(f0)) by {
                        assert forall|x: Field| #[trigger] self.fields@.contains(x) implies x
                            == f0 by {
                            let k = choose|k: int|
                                0 <= k < self.fields@.len() && self.fields@[k] == x;
                        }
                        assert(self.fields@.contains(f0));
                    }
                }
                if 1 <= self.solution && self.solution <= size as u64 {
                    let val: u16 = self.solution as u16;
                    let mut asg = Assignment::empty();
                    asg.set(f0, val);
                    asgs.push(asg);
                    proof {
                        assert(asgs@[0]@.dom() =~= self.fields@.to_set());
                        assert(asgs@[0]@[f0] == val);
                        assert(is_candidate(*self, size, asgs@[0]@));
                        assert forall|m: Map<Field, u16>|
                            #[trigger] is_candidate(*self, size, m) implies m =~= asgs@[0]@ by {
                            assert(m.dom().contains(f0));
                            assert(m[f0] == val);
                            assert forall|x: Field| m.dom().contains(x) implies x == f0 && m[x]
                                == asgs@[0]@[x] by {
                                assert(self.fields@.to_set().contains(x));
                            }
                        }
                    }
                } else {
                    proof {
                        assert forall|m: Map<Field, u16>|
                            !(#[trigger] is_candidate(*self, size, m)) by {
                            if is_candidate(*self, size, m) {
                                assert(m.dom().contains(f0));
                                assert(1 <= m[f0] <= size);
                                assert(m[f0] as int == self.solution as int);
                            }
                        }
                    }
                }
                asgs
            },
        }
    }
}

/// The union of a sequence of placements; on a shared field a later
/// placement wins.
pub open spec fn merged_views(s: Seq<Map<Field, u16>>) -> Map<Field, u16>
    decreases s.len(),
{
    if s.len() == 0 {
        Map::empty()
    } else {
        merged_views(s.drop_last()).union_prefer_right(s.last())
    }
}

/// A field is covered by the merged placement exactly when some part
/// covers it.
pub proof fn lemma_merged_views_dom(s: Seq<Map<Field, u16>>)
    ensures
        forall|f: Field|
            #[trigger] merged_views(s).dom().contains(f) <==> exists|i: int|
                0 <= i < s.len() && #[trigger] s[i].dom().contains(f),
    decreases s.len(),
{
    if s.len() == 0 {
    } else {
        lemma_merged_views_dom(s.drop_last());
        assert forall|f: Field| #[trigger] merged_views(s).dom().contains(f) implies exists|i: int|
            0 <= i < s.len() && #[trigger] s[i].dom().contains(f) by {
            if s.last().dom().contains(f) {
                assert(s[s.len() - 1].dom().contains(f));
            } else {
                assert(merged_views(s.drop_last()).dom().contains(f));
                let i = choose|i: int|
                    0 <= i < s.drop_last().len() && #[trigger] s.drop_last()[i].dom().contains(f);
                assert(s[i].dom().contains(f));
            }
        }
        assert forall|f: Field|
            (exists|i: int| 0 <= i < s.len() && #[trigger] s[i].dom().contains(f)) implies
            #[trigger] merged_views(s).dom().contains(f) by {
            let i = choose|i: int| 0 <= i < s.len() && #[trigger] s[i].dom().contains(f);
            if i < s.len() - 1 {
                assert(s.drop_last()[i].dom().contains(f));
                assert(merged_views(s.drop_last()).dom().contains(f));
            } else {
                assert(s.last().dom().contains(f));
            }
        }
    }
}

/// With pairwise disjoint parts, the merged placement reads back each
/// part unchanged.
pub proof fn lemma_merged_views_get(s: Seq<Map<Field, u16>>, i: int, f: Field)
    requires
        0 <= i < s.len(),
        s[i].dom().contains(f),
        forall|j: int, k: int|
            0 <= j < k < s.len() ==> (#[trigger] s[j]).dom().disjoint((#[trigger] s[k]).dom()),
    ensures
        merged_views(s).dom().contains(f),
        merged_views(s)[f] == s[i][f],
    decreases s.len(),
{
    if i == s.len() - 1 {
        assert(s.last().dom().contains(f));
    } else {
        assert(s.drop_last()[i] == s[i]);
        lemma_merged_views_get(s.drop_last(), i, f);
        assert(s[i].dom().disjoint(s[s.len() - 1].dom()));
        assert(!s.last().dom().contains(f));
    }
}

impl Assignment {
    /// Unions all placements of `asgs` into one assignment; on a shared
    /// field a later assignment wins.
    pub fn merge(asgs: &Vec<Assignment>) -> (r: Assignment)
        ensures
            r@ == merged_views(asgs@.map_values(|a: Assignment| a@)),
    {
        let ghost views = asgs@.map_values(|a: Assignment| a@);
        let mut result = Assignment::empty();
        let n = asgs.len();
        let mut i: usize = 0;
        while i < n
            invariant
                0 <= i <= n,
                n == asgs@.len(),
                views == asgs@.map_values(|a: Assignment| a@),
                result@ == merged_views(views.take(i as int)),
            decreases n - i,
        {
            let a = &asgs[i];
            proof {
                use_type_invariant(a);
            }
            let ghost prev = result@;
            let m = a.values.len();
            let mut j: usize = 0;
            while j < m
                invariant
                    0 <= j <= m,
                    m == a.values@.len(),
                    a == &asgs@[i as int],
                    result@ == prev.union_prefer_right(seq_to_map(a.values@.take(j as int))),
                decreases m - j,
            {
                let (f, v) = a.values[j];
                result.set(f, v);
                proof {
                    let t1 = a.values@.take(j as int);
                    let t2 = a.values@.take(j + 1 as int);
                    assert(t2.drop_last() =~= t1);
                    assert(t2.last() == (f, v));
                    assert(seq_to_map(t2) == seq_to_map(t1).insert(f, v));
                    assert(prev.union_prefer_right(seq_to_map(t1)).insert(f, v)
                        =~= prev.union_prefer_right(seq_to_map(t2)));
                }
                j += 1;
            }
            proof {
                assert(a.values@.take(m as int) =~= a.values@);
                assert(result@ == prev.union_prefer_right(asgs@[i as int]@));
                assert(views.take(i + 1 as int).drop_last() =~= views.take(i as int));
                assert(views.take(i + 1 as int).last() == asgs@[i as int]@);
            }
            i += 1;
        }
        proof {
            assert(views.take(n as int) =~= views);
        }
        result
    }
}

pub proof fn lemma_sum_values_congruence(fields: Seq<Field>, m1: Map<Field, u16>, m2: Map<Field, u16>)
    requires
        forall|f: Field| #[trigger] fields.contains(f) ==> m1[f] == m2[f],
    ensures
        sum_values(fields, m1) == sum_values(fields, m2),
        mul_values(fields, m1) == mul_values(fields, m2),
    decreases fields.len(),
{
    if fields.len() == 0 {
    } else {
        assert(fields.contains(fields[0]));
        lemma_contains_drop_first(fields);
        lemma_sum_values_congruence(fields.drop_first(), m1, m2);
    }
}

/// The law of the solving pipeline: choose one candidate per cage of a
/// well-formed puzzle, no two of which conflict, and their merge covers
/// every grid cell exactly once, holds no two equal values on a shared
/// row or column, satisfies every cage's target, and keeps every value
/// within the playable range.
pub proof fn lemma_merge_solution(k: KenKen, cs: Seq<Map<Field, u16>>)
    requires
        k.wf(),
        cs.len() == k.areas@.len(),
        forall|i: int| 0 <= i < cs.len() ==> is_candidate(k.areas@[i], k.size, #[trigger] cs[i]),
        forall|i: int, j: int|
            0 <= i < j < cs.len() ==> !spec_conflict_asg(#[trigger] cs[i], #[trigger] cs[j]),
    ensures
        forall|f: Field| #[trigger] merged_views(cs).dom().contains(f) <==> in_grid(f, k.size),
        no_conflicts(merged_views(cs)),
        forall|i: int|
            0 <= i < cs.len() ==> area_sat(#[trigger] k.areas@[i], merged_views(cs)),
        values_in_range(merged_views(cs), k.size),
{
    let mv = merged_views(cs);
    lemma_merged_views_dom(cs);
    assert forall|i: int, j: int|
        0 <= i < j < cs.len() implies (#[trigger] cs[i]).dom().disjoint(
        (#[trigger] cs[j]).dom(),
    ) by {
        assert forall|f: Field| !(cs[i].dom().contains(f) && cs[j].dom().contains(f)) by {
            if cs[i].dom().contains(f) && cs[j].dom().contains(f) {
                assert(k.areas@[i].fields@.to_set().contains(f));
                assert(k.areas@[j].fields@.to_set().contains(f));
                assert(k.areas@[i].fields@.contains(f));
                assert(k.areas@[j].fields@.contains(f));
            }
        }
        assert(cs[i].dom().disjoint(cs[j].dom()));
    }
    // domain: merged covers exactly the grid
    assert forall|f: Field| #[trigger] mv.dom().contains(f) implies in_grid(f, k.size) by {
        let i = choose|i: int| 0 <= i < cs.len() && #[trigger] cs[i].dom().contains(f);
        assert(k.areas@[i].fields@.to_set().contains(f));
        assert(k.areas@[i].fields@.contains(f));
        let j = choose|j: int| 0 <= j < k.areas@[i].fields@.len() && k.areas@[i].fields@[j] == f;
        assert(in_grid(k.areas@[i].fields@[j], k.size));
    }
    assert forall|f: Field| in_grid(f, k.size) implies #[trigger] mv.dom().contains(f) by {
        let i = choose|i: int|
            0 <= i < k.areas@.len() && #[trigger] k.areas@[i].fields@.contains(f);
        assert(k.areas@[i].fields@.to_set().contains(f));
        assert(cs[i].dom().contains(f));
    }
    // no conflicts anywhere on the grid
    assert forall|f: Field, g: Field|
        mv.dom().contains(f) && mv.dom().contains(g) && f != g && same_axis(f, g) implies
        #[trigger] mv[f] != #[trigger] mv[g] by {
        let i = choose|i: int| 0 <= i < cs.len() && #[trigger] cs[i].dom().contains(f);
        let j = choose|j: int| 0 <= j < cs.len() && #[trigger] cs[j].dom().contains(g);
        lemma_merged_views_get(cs, i, f);
        lemma_merged_views_get(cs, j, g);
        if i == j {
            assert(cs[i][f] != cs[i][g]);
        } else if i < j {
            if cs[i][f] == cs[j][g] {
                assert(spec_conflict(cs[j], f, cs[i][f])) by {
                    assert(cs[j].dom().contains(g) && g != f && same_axis(g, f));
                }
                assert(spec_conflict_asg(cs[i], cs[j]));
            }
        } else {
            if cs[i][f] == cs[j][g] {
                assert(spec_conflict(cs[i], g, cs[j][g])) by {
                    assert(cs[i].dom().contains(f) && f != g && same_axis(f, g));
                }
                assert(spec_conflict_asg(cs[j], cs[i]));
            }
        }
    }
    // each cage still meets its target in the merged placement
    assert forall|i: int|
        0 <= i < cs.len() implies area_sat(#[trigger] k.areas@[i], mv) by {
        assert(is_candidate(k.areas@[i], k.size, cs[i]));
        assert forall|f: Field| #[trigger] k.areas@[i].fields@.contains(f) implies mv[f]
            == cs[i][f] by {
            assert(k.areas@[i].fields@.to_set().contains(f));
            lemma_merged_views_get(cs, i, f);
        }
        lemma_sum_values_congruence(k.areas@[i].fields@, mv, cs[i]);
        assert(k.areas@[i].wf());
        if k.areas@[i].ty is Sub || k.areas@[i].ty is Div || k.areas@[i].ty is Single {
            assert(k.areas@[i].fields@.contains(k.areas@[i].fields@[0]));
            if k.areas@[i].fields@.len() >= 2 {
                assert(k.areas@[i].fields@.contains(k.areas@[i].fields@[1]));
            }
        }
    }
    // every value stays in range
    assert forall|f: Field| mv.dom().contains(f) implies 1 <= #[trigger] mv[f] <= k.size by {
        let i = choose|i: int| 0 <= i < cs.len() && #[trigger] cs[i].dom().contains(f);
        lemma_merged_views_get(cs, i, f);
        assert(1 <= cs[i][f] <= k.size);
    }
}

/// Candidate generation is deterministic up to ordering: two lists that
/// each enumerate a cage's candidates exactly hold the same set of
/// placements.
pub proof fn lemma_generation_deterministic(
    area: Area,
    size: u16,
    r1: Seq<Assignment>,
    r2: Seq<Assignment>,
)
    requires
        forall|k: int| 0 <= k < r1.len() ==> is_candidate(area, size, #[trigger] r1[k]@),
        forall|m: Map<Field, u16>|
            #[trigger] is_candidate(area, size, m) ==> exists|k: int|
                0 <= k < r1.len() && #[trigger] r1[k]@ == m,
        forall|k: int| 0 <= k < r2.len() ==> is_candidate(area, size, #[trigger] r2[k]@),
        forall|m: Map<Field, u16>|
            #[trigger] is_candidate(area, size, m) ==> exists|k: int|
                0 <= k < r2.len() && #[trigger] r2[k]@ == m,
    ensures
        r1.map_values(|a: Assignment| a@).to_set() == r2.map_values(|a: Assignment| a@).to_set(),
{
    let s1 = r1.map_values(|a: Assignment| a@);
    let s2 = r2.map_values(|a: Assignment| a@);
    assert forall|m: Map<Field, u16>| #[trigger] s1.to_set().contains(m) implies s2.to_set()
        .contains(m) by {
        let k = choose|k: int| 0 <= k < s1.len() && s1[k] == m;
        assert(is_candidate(area, size, m));
        let k2 = choose|k2: int| 0 <= k2 < r2.len() && #[trigger] r2[k2]@ == m;
        assert(s2[k2] == m);
    }
    assert forall|m: Map<Field, u16>| #[trigger] s2.to_set().contains(m) implies s1.to_set()
        .contains(m) by {
        let k = choose|k: int| 0 <= k < s2.len() && s2[k] == m;
        assert(is_candidate(area, size, m));
        let k1 = choose|k1: int| 0 <= k1 < r1.len() && #[trigger] r1[k1]@ == m;
        assert(s1[k1] == m);
    }
    assert(s1.to_set() =~= s2.to_set());
}

} // verus!
