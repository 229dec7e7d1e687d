use kenken::asg::Assignment;
use kenken::kenken::{assign_area, Area, Field, KenKen, Type};
use kenken::validate::{ValidationError, Validator};

#[test]
fn test_set_get_and_overwrite() {
    let mut asg = Assignment::empty();
    assert_eq!(asg.get(&Field(1, 2)), None);
    asg.set(Field(1, 2), 4);
    assert_eq!(asg.get(&Field(1, 2)), Some(4));
    asg.set(Field(1, 2), 7);
    assert_eq!(asg.get(&Field(1, 2)), Some(7));
    asg.set(Field(3, 2), 7);
    assert_eq!(asg.get(&Field(3, 2)), Some(7));
    assert_eq!(asg.get(&Field(2, 1)), None);
}

#[test]
fn test_conflict_same_row_and_column() {
    let mut asg = Assignment::empty();
    asg.set(Field(0, 0), 5);
    // same row, same value
    assert!(asg.conflict(&Field(3, 0), 5));
    // same column, same value
    assert!(asg.conflict(&Field(0, 4), 5));
    // same row, other value
    assert!(!asg.conflict(&Field(3, 0), 6));
    // no shared axis
    assert!(!asg.conflict(&Field(1, 1), 5));
    // the field itself is not its own conflict
    assert!(!asg.conflict(&Field(0, 0), 5));
}

#[test]
fn test_conflict_asg() {
    let mut a = Assignment::empty();
    a.set(Field(0, 0), 3);
    let mut b = Assignment::empty();
    b.set(Field(5, 0), 3);
    assert!(a.conflict_asg(&b));
    assert!(b.conflict_asg(&a));
    let mut c = Assignment::empty();
    c.set(Field(5, 5), 3);
    assert!(!a.conflict_asg(&c));
    assert!(!c.conflict_asg(&a));
}

#[test]
fn test_merge_unions_placements() {
    let mut a = Assignment::empty();
    a.set(Field(0, 0), 1);
    let mut b = Assignment::empty();
    b.set(Field(1, 0), 2);
    b.set(Field(1, 1), 3);
    let merged = Assignment::merge(&vec![a, b]);
    assert_eq!(merged.get(&Field(0, 0)), Some(1));
    assert_eq!(merged.get(&Field(1, 0)), Some(2));
    assert_eq!(merged.get(&Field(1, 1)), Some(3));
    assert_eq!(merged.get(&Field(2, 2)), None);
}

#[test]
fn test_merge_empty() {
    let merged = Assignment::merge(&vec![]);
    assert_eq!(merged.get(&Field(0, 0)), None);
}

#[test]
fn test_merge_later_wins() {
    let mut a = Assignment::empty();
    a.set(Field(0, 0), 1);
    let mut b = Assignment::empty();
    b.set(Field(0, 0), 9);
    let merged = Assignment::merge(&vec![a, b]);
    assert_eq!(merged.get(&Field(0, 0)), Some(9));
}

#[test]
fn test_equal_axis() {
    assert!(Field(2, 5).equal_x_axis(&Field(2, 7)));
    assert!(!Field(2, 5).equal_x_axis(&Field(3, 5)));
    assert!(Field(2, 5).equal_y_axis(&Field(4, 5)));
    assert!(!Field(2, 5).equal_y_axis(&Field(2, 6)));
    assert!(Field(2, 5).equal_axis(&Field(2, 9)));
    assert!(Field(2, 5).equal_axis(&Field(8, 5)));
    assert!(!Field(2, 5).equal_axis(&Field(3, 6)));
}

#[test]
fn test_area_new_and_size() {
    let area = Area::new(Type::Mul, 24, vec![Field(0, 0), Field(1, 0), Field(2, 0)]);
    assert_eq!(area.size(), 3);
    assert_eq!(area.solution, 24);
}

#[test]
fn test_id_field_picks_top_left() {
    let area = Area::new(Type::Add, 7, vec![Field(2, 1), Field(1, 1), Field(1, 2)]);
    // least row is 1; among those the least column is 1
    assert!(area.id_field(Field(1, 1)).is_some());
    assert!(area.id_field(Field(2, 1)).is_none());
    assert!(area.id_field(Field(1, 2)).is_none());
    assert!(area.id_field(Field(0, 0)).is_none());
}

fn two_cage_puzzle() -> KenKen {
    KenKen {
        id: 1,
        areas: vec![
            Area::new(Type::Add, 3, vec![Field(0, 0), Field(1, 0)]),
            Area::new(Type::Add, 3, vec![Field(0, 1), Field(1, 1)]),
        ],
        size: 2,
    }
}

#[test]
fn test_same_area() {
    let k = two_cage_puzzle();
    assert!(k.same_area(&Field(0, 0), &Field(1, 0)));
    assert!(!k.same_area(&Field(0, 0), &Field(0, 1)));
    assert!(!k.same_area(&Field(0, 0), &Field(9, 9)));
}

#[test]
fn test_is_id_field() {
    let k = two_cage_puzzle();
    let hit = k.is_id_field(Field(0, 1));
    assert!(hit.is_some());
    assert_eq!(hit.unwrap().solution, 3);
    assert!(k.is_id_field(Field(1, 1)).is_none());
}

#[test]
fn test_add_to_area_if_exists() {
    let mut k = two_cage_puzzle();
    assert!(k.add_to_area_if_exists(&Field(0, 1), Field(0, 2)));
    assert_eq!(k.areas[1].fields.len(), 3);
    assert_eq!(k.areas[1].fields[2], Field(0, 2));
    assert!(!k.add_to_area_if_exists(&Field(7, 7), Field(0, 3)));
    assert_eq!(k.areas[0].fields.len(), 2);
    assert_eq!(k.areas[1].fields.len(), 3);
}

#[test]
fn test_get_area_mut() {
    let mut k = two_cage_puzzle();
    {
        let area = k.get_area_mut(&Field(1, 0)).unwrap();
        area.solution = 4;
    }
    assert_eq!(k.areas[0].solution, 4);
    assert!(k.get_area_mut(&Field(5, 5)).is_none());
}

#[test]
fn test_assign_area() {
    let mut area = Area::new(Type::Single, 9, vec![Field(0, 0), Field(1, 0)]);
    assign_area(&mut area, Type::Add, 2, 6);
    assert_eq!(area.solution, 8);
    assign_area(&mut area, Type::Mul, 2, 6);
    assert_eq!(area.solution, 12);
    assign_area(&mut area, Type::Sub, 2, 6);
    assert_eq!(area.solution, 4);
    assign_area(&mut area, Type::Div, 6, 2);
    assert_eq!(area.solution, 3);
    let before = area.solution;
    assign_area(&mut area, Type::Single, 2, 6);
    assert_eq!(area.solution, before);
}

#[test]
fn test_validate_ok() {
    let k = two_cage_puzzle();
    assert!(k.validate().is_ok());
}

#[test]
fn test_validate_empty_grid() {
    let k = KenKen { id: 0, areas: vec![], size: 0 };
    let errs = k.validate().unwrap_err();
    assert!(errs.contains(&ValidationError::EmptyGrid));
}

#[test]
fn test_validate_malformed_cage() {
    let mut k = two_cage_puzzle();
    k.areas[0].ty = Type::Sub;
    k.areas[0].fields.push(Field(0, 2));
    let errs = k.validate().unwrap_err();
    assert!(errs.contains(&ValidationError::MalformedCage));
}

#[test]
fn test_validate_duplicate_field() {
    let area = Area::new(Type::Add, 4, vec![Field(0, 0), Field(0, 0)]);
    let errs = area.validate().unwrap_err();
    assert!(errs.contains(&ValidationError::DuplicateField));
    assert!(!errs.contains(&ValidationError::MalformedCage));
}

#[test]
fn test_validate_puzzle_duplicate_field() {
    // a duplicated cell is reported as such, not as a malformed cage
    let mut k = two_cage_puzzle();
    k.areas[0].fields[1] = Field(0, 0);
    let errs = k.validate().unwrap_err();
    assert!(errs.contains(&ValidationError::DuplicateField));
    assert!(!errs.contains(&ValidationError::MalformedCage));
}

#[test]
fn test_is_id_field_first_match() {
    // with overlapping cages the first matching cage is returned
    let k = KenKen {
        id: 9,
        areas: vec![
            Area::new(Type::Add, 5, vec![Field(0, 0), Field(1, 0)]),
            Area::new(Type::Single, 7, vec![Field(0, 0)]),
        ],
        size: 2,
    };
    assert_eq!(k.is_id_field(Field(0, 0)).unwrap().solution, 5);
}

#[test]
fn test_validate_out_of_bounds() {
    let mut k = two_cage_puzzle();
    k.areas[1].fields[1] = Field(5, 1);
    let errs = k.validate().unwrap_err();
    assert!(errs.contains(&ValidationError::FieldOutOfBounds));
    assert!(errs.contains(&ValidationError::UncoveredField));
}

#[test]
fn test_validate_overlap() {
    let mut k = two_cage_puzzle();
    k.areas[1].fields[0] = Field(0, 0);
    let errs = k.validate().unwrap_err();
    assert!(errs.contains(&ValidationError::OverlappingAreas));
    assert!(errs.contains(&ValidationError::UncoveredField));
}

#[test]
fn test_area_validate_ok() {
    let area = Area::new(Type::Sub, 1, vec![Field(0, 0), Field(1, 0)]);
    assert!(area.validate().is_ok());
    let area = Area::new(Type::Add, 0, Vec::new());
    assert!(area.validate().is_err());
}
