use pagebuf::PAGE_SIZE;

#[test]
fn it_works() {
    assert_eq!(2 + 2, 4);
}

#[test]
fn page_size_is_fixed() {
    assert_eq!(PAGE_SIZE, 4096);
}
