use std::cell::RefCell;
use std::rc::Rc;

use essay_ecs::entity::column::{Column, RowId};
use essay_ecs::entity::meta::StoreMeta;

#[test]
fn col_u8() {
    let mut metas = StoreMeta::new();
    let mut col = Column::<u8>::new(&mut metas);

    assert_eq!(col._capacity(), 0);
    assert_eq!(col.len(), 0);

    assert_eq!(col.get(RowId::new(0)), None);
    assert_eq!(col.push(1), RowId::new(0));

    assert_eq!(col._capacity(), 8);
    assert_eq!(col.len(), 1);

    assert_eq!(col.get(RowId::new(0)), Some(&1));
    assert_eq!(col.get(RowId::new(1)), None);

    assert_eq!(col.push(2), RowId::new(1));

    assert_eq!(col._capacity(), 8);
    assert_eq!(col.len(), 2);

    assert_eq!(col.get(RowId::new(0)), Some(&1));
    assert_eq!(col.get(RowId::new(1)), Some(&2));
    assert_eq!(col.get(RowId::new(2)), None);
}

#[test]
fn col_u16() {
    let mut metas = StoreMeta::new();
    let mut col = Column::<TestA>::new(&mut metas);

    assert_eq!(col._capacity(), 0);
    assert_eq!(col.len(), 0);

    assert_eq!(col.get(RowId::new(0)), None);
    assert_eq!(col.push(TestA(1)), RowId::new(0));

    assert_eq!(col._capacity(), 8);
    assert_eq!(col.len(), 1);

    assert_eq!(col.get(RowId::new(0)), Some(&TestA(1)));
    assert_eq!(col.get(RowId::new(1)), None);

    assert_eq!(col.push(TestA(1002)), RowId::new(1));

    assert_eq!(col._capacity(), 8);
    assert_eq!(col.len(), 2);

    assert_eq!(col.get(RowId::new(0)), Some(&TestA(1)));
    assert_eq!(col.get(RowId::new(1)), Some(&TestA(1002)));
    assert_eq!(col.get(RowId::new(2)), None);
}

#[test]
fn column_drop() {
    let mut metas = StoreMeta::new();
    let value = Rc::new(RefCell::new(Vec::<String>::new()));

    {
        let mut col = Column::<TestDrop>::new(&mut metas);

        assert_eq!(col.push(TestDrop(value.clone(), 10)), RowId::new(0));
        assert_eq!(col.push(TestDrop(value.clone(), 20)), RowId::new(1));

        assert_eq!(take(&value), "");
    }

    assert_eq!(take(&value), "drop[10], drop[20]");
}

#[test]
fn remove_drop() {
    let mut metas = StoreMeta::new();
    let value = Rc::new(RefCell::new(Vec::<String>::new()));

    {
        let mut col = Column::<TestDrop>::new(&mut metas);

        assert_eq!(col.push(TestDrop(value.clone(), 10)), RowId::new(0));
        assert_eq!(col.push(TestDrop(value.clone(), 20)), RowId::new(1));

        assert_eq!(take(&value), "");

        col.remove(RowId::new(0));

        assert_eq!(take(&value), "drop[10]");
    }

    assert_eq!(take(&value), "drop[20]");
}

#[test]
fn insert_drop() {
    let mut metas = StoreMeta::new();
    let value = Rc::new(RefCell::new(Vec::<String>::new()));

    {
        let mut col = Column::<TestDrop>::new(&mut metas);

        assert_eq!(col.push(TestDrop(value.clone(), 10)), RowId::new(0));
        assert_eq!(col.push(TestDrop(value.clone(), 20)), RowId::new(1));

        assert_eq!(take(&value), "");

        assert_eq!(
            col.insert(RowId::new(0), TestDrop(value.clone(), 110)),
            Some(RowId(0, 1))
        );

        assert_eq!(take(&value), "drop[10]");
    }

    assert_eq!(take(&value), "drop[110], drop[20]");
}

#[test]
fn column_remove_frees_row_for_reuse() {
    let mut metas = StoreMeta::new();
    let mut col = Column::<u32>::new(&mut metas);

    let a = col.push(7);
    let b = col.push(8);
    col.remove(a);

    assert_eq!(col.get(a), None);
    assert_eq!(col.get(b), Some(&8));

    // The freed index comes back under a new generation, so the stale id
    // no longer reaches it.
    let c = col.push(9);
    assert_eq!(c.0, a.0);
    assert_ne!(c.1, a.1);
    assert_eq!(col.get(c), Some(&9));
    assert_eq!(col.get(a), None);
    assert_eq!(col.len(), 2);
}

#[test]
fn column_stale_insert_is_refused() {
    let mut metas = StoreMeta::new();
    let mut col = Column::<u32>::new(&mut metas);

    let a = col.push(1);
    let a2 = col.insert(a, 2).unwrap();
    assert_eq!(col.get(a2), Some(&2));
    assert_eq!(col.get(a), None);

    // An insert through the old id does nothing.
    assert_eq!(col.insert(a, 3), None);
    assert_eq!(col.get(a2), Some(&2));
}

#[test]
fn column_get_mut_writes_through() {
    let mut metas = StoreMeta::new();
    let mut col = Column::<u32>::new(&mut metas);

    let a = col.push(10);
    *col.get_mut(a).unwrap() += 5;
    assert_eq!(col.get(a), Some(&15));
    assert!(col.get_mut(RowId::new(3)).is_none());
}

fn take(value: &Rc<RefCell<Vec<String>>>) -> String {
    let values: Vec<String> = value.borrow_mut().drain(..).collect();

    values.join(", ")
}

#[derive(Debug, PartialEq)]
struct TestA(u16);

#[derive(Debug, PartialEq)]
struct TestDrop(Rc<RefCell<Vec<String>>>, usize);

impl Drop for TestDrop {
    fn drop(&mut self) {
        self.0.borrow_mut().push(format!("drop[{:?}]", self.1));
    }
}
