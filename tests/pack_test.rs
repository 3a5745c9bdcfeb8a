use mayaqua::pack_reader::read_pack;
use mayaqua::pack_types::Pack;

#[test]
fn test_pack_serialization() {
    let mut pack = Pack::new();
    pack.add_str("test", "value");
    pack.add_int("number", 123);

    let buf = pack.to_buf().unwrap();
    assert!(!buf.is_empty());

    let pack2 = read_pack(&buf).unwrap();

    assert_eq!(pack2.elements.len(), 2);
    assert_eq!(pack2.get_str("test"), "value");
    assert_eq!(pack2.get_int("number"), 123);
}
