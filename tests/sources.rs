use ceport::{src, Src, SrcId, Sources};

#[test]
fn sources_get_ids_in_order() {
    let mut sources = Sources::default();
    let a = sources.add(src("a.fun", "one"));
    let b = sources.add(src("b.fun", "two→"));
    assert_eq!(a, SrcId(0));
    assert_eq!(b, SrcId::from(1));
    assert_eq!(sources.get(b).unwrap().name(), "b.fun");
    assert_eq!(sources.get(b).unwrap().content(), "two→".as_bytes());
    assert_eq!(sources.get(b).unwrap().text(), "two→");
    assert!(sources.get(SrcId(2)).is_none());
}
