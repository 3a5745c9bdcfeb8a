use mayaqua::encrypt::{sha0, Sha0Context, SHA1_SIZE};

fn hex(b: &[u8]) -> String {
    b.iter().map(|x| format!("{:02x}", x)).collect()
}

#[test]
fn sha0_of_abc() {
    assert_eq!(hex(&sha0(b"abc")), "0164b8a914cd2a5e74c4f7ff082c4d97f1edf880");
}

#[test]
fn sha0_of_empty() {
    assert_eq!(hex(&sha0(b"")), "f96cea198ad1dd5617ac084a3d92c6107708c0ef");
}

#[test]
fn sha0_digest_size_and_sensitivity() {
    let a = sha0(b"abd");
    assert_eq!(a.len(), SHA1_SIZE as usize);
    assert_ne!(a, sha0(b"abc"));
    let long = vec![0x61u8; 1000];
    assert_ne!(sha0(&long), sha0(&long[..999]));
    let _ = Sha0Context::new();
}
