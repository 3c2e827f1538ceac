use ruh_time_tracker::backend::Subject;
use ruh_time_tracker::container::PContainer;

fn subject(name: &str, created_at: u64) -> Subject {
    let mut s = Subject::create(name, created_at);
    s.duration = 0;
    s
}

#[test]
fn selection_self_healing_on_removal() {
    let mut c: PContainer<Subject> = PContainer::new("leafbox", 0);
    let s = subject("a", 1);
    let key = s.id;
    c.insert_child(key, s);
    c.set_current(Some(key));
    assert!(c.get_current().is_some());

    let removed = c.remove_child(key);
    assert!(removed.is_some());
    assert!(c.get_current().is_none());
    assert!(c.current_inner_id.is_none());
}

#[test]
fn dangling_selection_heals_on_mut_lookup() {
    let mut c = PContainer::<Subject> {
        id: 7,
        name: String::from("box"),
        created_at: 0,
        is_deleted: false,
        color: (0, 0, 0),
        inner: Vec::new(),
        current_inner_id: Some(99),
    };
    assert!(c.get_current_mut().is_none());
    assert!(c.current_inner_id.is_none());
}

#[test]
fn set_current_ignores_unknown_keys() {
    let mut c: PContainer<Subject> = PContainer::new("leafbox", 0);
    let s = subject("a", 1);
    let key = s.id;
    c.insert_child(key, s);
    c.set_current(Some(key.wrapping_add(1)));
    assert_eq!(c.current_inner_id, None);
    c.set_current(Some(key));
    assert_eq!(c.current_inner_id, Some(key));
    c.set_current(Some(key.wrapping_add(1)));
    assert_eq!(c.current_inner_id, Some(key));
    c.set_current(None);
    assert_eq!(c.current_inner_id, None);
}

#[test]
fn insert_overwrites_same_key() {
    let mut c: PContainer<Subject> = PContainer::new("leafbox", 0);
    let a = subject("a", 1);
    let mut b = subject("b", 2);
    b.id = a.id;
    let key = a.id;
    c.insert_child(key, a);
    c.insert_child(key, b);
    assert_eq!(c.inner.len(), 1);
    assert_eq!(c.inner[0].1.name, "b");
}

#[test]
fn sorted_listing_orders_by_creation() {
    let mut c: PContainer<Subject> = PContainer::new("leafbox", 0);
    let a = subject("late", 30);
    let b = subject("early", 10);
    let d = subject("middle", 20);
    c.insert_child(a.id, a);
    c.insert_child(b.id, b);
    c.insert_child(d.id, d);
    let listed = c.get_inner_sorted();
    let names: Vec<&str> = listed.iter().map(|s| s.name.as_str()).collect();
    assert_eq!(names, vec!["early", "middle", "late"]);
}
