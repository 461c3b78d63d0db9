use treest::terminal::{keyseqstr, keyseqstr_each, keytrans};

#[test]
fn test_keytrans() {
    assert_eq!(keytrans("xlty").expect("xlty"), b"xlty");
    assert_eq!(keytrans("x<lty"), None, "x<lty");
    assert_eq!(keytrans("x<lt>y").expect("x<lt>y"), b"x<y");
    assert_eq!(keytrans("x<LT>y").expect("x<LT>y"), b"x<y");
    assert_eq!(keytrans("<C-x><C-e>").expect("<C-x><C-e>"), &[0x18, 0x05]);
    assert_eq!(keytrans("<C-X><M-C-e>").expect("<C-X><M-C-e>"), &[0x18, 0x1b, 0x05]);
    assert_eq!(keytrans("<C-x><M-A-C-e>"), None, "<C-x><M-A-C-e>");

    assert_eq!(keyseqstr(b"xlty"), "xlty");
    assert_eq!(keyseqstr(b"x<y"), "x<lt>y");
    assert_eq!(keyseqstr(&[0x18, 0x05]), "<C-X><C-E>");
    assert_eq!(keyseqstr(&[0x18, 0x1b, 0x05]), "<C-X><M-C-E>");
}

#[test]
fn keytrans_named_keys() {
    assert_eq!(keytrans("<Up><pageDown><LeftMouse>").unwrap(), b"\x1b[A\x1b[6~\x1b[M   ");
    assert_eq!(keytrans("<nope>"), None);
    assert_eq!(keytrans("a<A-C-x>").unwrap(), b"a\x1b\x18");
}

#[test]
fn keyseqstr_names() {
    assert_eq!(keyseqstr(b"\x1b[A\x1b"), "<Up><Esc>");
    assert_eq!(keyseqstr(b" \t"), "<Space><Tab>");
    assert_eq!(keyseqstr_each(b"\x1b["), "<Esc>[");
    assert_eq!(keyseqstr(&[0xff]), "<pp>");
}
