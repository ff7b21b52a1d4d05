use borrow::capability::{BorrowError, Capability};
use borrow::record::RecordView;
use borrow::schema::{Field, Schema};

const H: Capability = Capability::Hidden;
const S: Capability = Capability::Shared;
const E: Capability = Capability::Exclusive;

fn graph() -> Schema {
    Schema::new(vec![Field::new("nodes", "Vec<Node>"), Field::new("edges", "Vec<Edge>")]).unwrap()
}

fn pair() -> Schema {
    Schema::new(vec![Field::new("a", "u32"), Field::new("b", "u32")]).unwrap()
}

#[test]
fn as_view_takes_one_capability_per_field() {
    let schema = graph();
    let view = RecordView::as_view(&schema, vec![E, S]).unwrap();
    assert_eq!(view.vector(), &vec![E, S]);
    assert!(view.schema().same_as(&schema));
}

#[test]
fn as_view_rejects_a_vector_of_another_length() {
    let schema = graph();
    assert_eq!(RecordView::as_view(&schema, vec![E]).err(), Some(BorrowError::SchemaMismatch));
    assert_eq!(
        RecordView::as_view(&schema, vec![E, E, E]).err(),
        Some(BorrowError::SchemaMismatch)
    );
}

#[test]
fn whole_projects_every_field_alike() {
    let schema = graph();
    assert_eq!(RecordView::whole(&schema, E).vector(), &vec![E, E]);
    assert_eq!(RecordView::whole(&schema, S).vector(), &vec![S, S]);
}

#[test]
fn capability_of_looks_a_field_up_by_name() {
    let schema = graph();
    let view = RecordView::as_view(&schema, vec![S, E]).unwrap();
    assert_eq!(view.capability_of("nodes"), Some(S));
    assert_eq!(view.capability_of("edges"), Some(E));
    assert_eq!(view.capability_of("groups"), None);
}

#[test]
fn borrow_yields_a_view_of_the_target() {
    let schema = graph();
    let mut view = RecordView::whole(&schema, E);
    let child = view.borrow(&vec![H, E]).unwrap();
    assert_eq!(child.vector(), &vec![H, E]);
    assert!(child.schema().same_as(&schema));
}

#[test]
fn borrow_of_the_same_vector_is_an_identity_borrow() {
    let schema = graph();
    for vector in [vec![E, E], vec![S, S], vec![H, H], vec![E, S], vec![H, E]] {
        let mut view = RecordView::as_view(&schema, vector.clone()).unwrap();
        assert_eq!(view.borrow(&vector).err(), Some(BorrowError::IdentityBorrow));
    }
}

#[test]
fn borrow_or_identity_accepts_the_same_vector() {
    let schema = graph();
    let mut view = RecordView::as_view(&schema, vec![E, S]).unwrap();
    let child = view.borrow_or_identity(&vec![E, S]).unwrap();
    assert_eq!(child.vector(), &vec![E, S]);
}

#[test]
fn borrow_conflict_scenario() {
    let schema = pair();
    let mut view = RecordView::as_view(&schema, vec![S, H]).unwrap();
    assert_eq!(view.borrow(&vec![E, H]).err(), Some(BorrowError::Conflict));
    assert_eq!(view.borrow_or_identity(&vec![E, H]).err(), Some(BorrowError::Conflict));
    assert_eq!(view.split_and_remainder(&vec![E, H]).err(), Some(BorrowError::Conflict));
}

#[test]
fn borrow_rejects_a_target_of_another_length() {
    let schema = pair();
    let mut view = RecordView::whole(&schema, E);
    assert_eq!(view.borrow(&vec![E]).err(), Some(BorrowError::SchemaMismatch));
    assert_eq!(view.borrow_or_identity(&vec![E, E, E]).err(), Some(BorrowError::SchemaMismatch));
    assert_eq!(view.split_and_remainder(&vec![]).err(), Some(BorrowError::SchemaMismatch));
}

#[test]
fn borrow_leaves_the_parent_as_it_was() {
    let schema = graph();
    let mut view = RecordView::whole(&schema, E);
    {
        let child = view.borrow(&vec![E, H]).unwrap();
        assert_eq!(child.vector(), &vec![E, H]);
    }
    assert_eq!(view.vector(), &vec![E, E]);
    {
        let again = view.borrow(&vec![H, E]).unwrap();
        assert_eq!(again.vector(), &vec![H, E]);
    }
    assert_eq!(view.vector(), &vec![E, E]);
}

#[test]
fn nested_borrows_narrow_step_by_step() {
    let schema = Schema::new(vec![
        Field::new("a", "u8"),
        Field::new("b", "u8"),
        Field::new("c", "u8"),
    ])
    .unwrap();
    let mut root = RecordView::whole(&schema, E);
    let (taken, mut left) = root.split_and_remainder(&vec![E, H, H]).unwrap();
    assert_eq!(taken.vector(), &vec![E, H, H]);
    assert_eq!(left.vector(), &vec![H, E, E]);
    assert_eq!(left.borrow(&vec![S, H, H]).err(), Some(BorrowError::Conflict));
    let inner = left.borrow(&vec![H, S, E]).unwrap();
    assert_eq!(inner.vector(), &vec![H, S, E]);
}

#[test]
fn split_and_remainder_graph_end_to_end() {
    let schema = graph();
    let mut all = RecordView::whole(&schema, E);
    let (edges, nodes) = all.split_and_remainder(&vec![H, E]).unwrap();
    assert_eq!(edges.vector(), &vec![H, E]);
    assert_eq!(nodes.vector(), &vec![E, H]);
    assert_eq!(edges.capability_of("edges"), Some(E));
    assert_eq!(nodes.capability_of("nodes"), Some(E));
    let joined = nodes.union(edges).unwrap();
    assert_eq!(joined.vector(), &vec![E, E]);
}

#[test]
fn split_and_remainder_of_the_same_vector_is_an_identity_borrow() {
    let schema = graph();
    for vector in [vec![E, E], vec![S, S], vec![H, H], vec![E, S]] {
        let mut view = RecordView::as_view(&schema, vector.clone()).unwrap();
        assert_eq!(view.split_and_remainder(&vector).err(), Some(BorrowError::IdentityBorrow));
    }
}

#[test]
fn split_and_remainder_shares_an_exclusive_field() {
    let schema = graph();
    let mut view = RecordView::as_view(&schema, vec![E, S]).unwrap();
    let (taken, left) = view.split_and_remainder(&vec![S, S]).unwrap();
    assert_eq!(taken.vector(), &vec![S, S]);
    assert_eq!(left.vector(), &vec![S, S]);
}

#[test]
fn extract_field_of_the_only_field_held_is_an_identity_borrow() {
    let schema = graph();
    let mut view = RecordView::as_view(&schema, vec![E, H]).unwrap();
    assert_eq!(view.extract_field("nodes").err(), Some(BorrowError::IdentityBorrow));
    assert_eq!(view.extract_field("edges").err(), Some(BorrowError::Conflict));
}

#[test]
fn extract_field_takes_one_field_exclusively() {
    let schema = graph();
    let mut all = RecordView::whole(&schema, E);
    let (nodes, rest) = all.extract_field("nodes").unwrap();
    assert_eq!(nodes.vector(), &vec![E, H]);
    assert_eq!(rest.vector(), &vec![H, E]);
}

#[test]
fn extract_field_keeps_the_other_fields_as_they_were() {
    let schema = Schema::new(vec![
        Field::new("a", "u8"),
        Field::new("b", "u8"),
        Field::new("c", "u8"),
    ])
    .unwrap();
    let mut view = RecordView::as_view(&schema, vec![S, E, H]).unwrap();
    let (b, rest) = view.extract_field("b").unwrap();
    assert_eq!(b.vector(), &vec![H, E, H]);
    assert_eq!(rest.vector(), &vec![S, H, H]);
}

#[test]
fn extract_field_rejects_an_unknown_field() {
    let schema = graph();
    let mut all = RecordView::whole(&schema, E);
    assert_eq!(all.extract_field("groups").err(), Some(BorrowError::UnknownField));
}

#[test]
fn extract_field_needs_exclusive_access() {
    let schema = graph();
    let mut view = RecordView::as_view(&schema, vec![S, H]).unwrap();
    assert_eq!(view.extract_field("nodes").err(), Some(BorrowError::Conflict));
    assert_eq!(view.extract_field("edges").err(), Some(BorrowError::Conflict));
}

#[test]
fn union_takes_the_stronger_capability() {
    let schema = Schema::new(vec![
        Field::new("a", "u8"),
        Field::new("b", "u8"),
        Field::new("c", "u8"),
    ])
    .unwrap();
    let a = RecordView::as_view(&schema, vec![S, H, E]).unwrap();
    let b = RecordView::as_view(&schema, vec![S, S, H]).unwrap();
    assert_eq!(a.union(b).unwrap().vector(), &vec![S, S, E]);
}

#[test]
fn union_rejects_a_field_claimed_exclusively_twice() {
    let schema = graph();
    let a = RecordView::as_view(&schema, vec![E, H]).unwrap();
    let b = RecordView::as_view(&schema, vec![E, S]).unwrap();
    assert_eq!(a.union(b).err(), Some(BorrowError::Conflict));
}

#[test]
fn union_rejects_views_of_different_schemas() {
    let one = graph();
    let other = pair();
    let a = RecordView::whole(&one, S);
    let b = RecordView::whole(&other, S);
    assert_eq!(a.union(b).err(), Some(BorrowError::SchemaMismatch));
}

#[test]
fn union_accepts_equal_schemas_made_apart() {
    let one = graph();
    let other = graph();
    let a = RecordView::as_view(&one, vec![E, H]).unwrap();
    let b = RecordView::as_view(&other, vec![H, S]).unwrap();
    assert_eq!(a.union(b).unwrap().vector(), &vec![E, S]);
}

#[test]
fn union_commutes() {
    let schema = graph();
    let ab = RecordView::as_view(&schema, vec![S, H])
        .unwrap()
        .union(RecordView::as_view(&schema, vec![H, E]).unwrap())
        .unwrap();
    let ba = RecordView::as_view(&schema, vec![H, E])
        .unwrap()
        .union(RecordView::as_view(&schema, vec![S, H]).unwrap())
        .unwrap();
    assert_eq!(ab.vector(), ba.vector());
}
