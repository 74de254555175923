use hl_blockscope::validators::{label, read_validators};

#[test]
fn signers_and_validators_have_names() {
    let reply = r#"[
        {"name":"Alpha","signer":"0xAA","validator":"0xBB"},
        {"name":"Beta","signer":"0xbb","validator":"0xcc"},
        {"signer":"0xdd"},
        {"name":"Gamma"}]"#;
    let names = read_validators(&Some(reply.as_bytes().to_vec()));
    assert_eq!(label(&names, "0xaa"), "Alpha");
    assert_eq!(label(&names, "0xbb"), "Alpha");
    assert_eq!(label(&names, "0xcc"), "Beta");
    assert_eq!(label(&names, "0xdd"), "?");
}

#[test]
fn the_first_name_is_kept() {
    let mut names = read_validators(&None);
    names.keep("0xaa".to_string(), "Alpha");
    names.keep("0xaa".to_string(), "Beta");
    names.keep("0xbb".to_string(), "Beta");
    assert_eq!(label(&names, "0xaa"), "Alpha");
    assert_eq!(label(&names, "0xbb"), "Beta");
}

#[test]
fn an_unknown_address_is_cut() {
    let names = read_validators(&None);
    assert_eq!(label(&names, "0x1234567890abcdef"), "0x12345678");
    assert_eq!(label(&names, "?"), "?");
    let names = read_validators(&Some(b"{}".to_vec()));
    assert_eq!(label(&names, "0xAA"), "0xAA");
}
