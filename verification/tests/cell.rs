use essay_ecs::world::cell::Ptr;

#[test]
fn ptr_null() {
    let ptr = Ptr::new(());

    assert_eq!(ptr.deref(), &());
}

#[test]
fn ptr_u8() {
    let mut ptr = Ptr::new(1u8);

    assert_eq!(ptr.deref(), &1);
    assert_eq!(ptr.deref_mut(), &1);

    *ptr.deref_mut() = 3;

    assert_eq!(ptr.deref(), &3);
    assert_eq!(ptr.deref_mut(), &3);
}
