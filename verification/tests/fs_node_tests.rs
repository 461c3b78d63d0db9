use treest::fs_node::{keep_name, write_meta, write_perm, FsNodeKind};

#[test]
fn permissions_as_ls_shows_them() {
    assert_eq!(write_perm(0b111), "rwx");
    assert_eq!(write_perm(0b101), "r-x");
    assert_eq!(write_perm(0b010), "-w-");
    assert_eq!(write_perm(0), "---");
    assert_eq!(write_meta(&FsNodeKind::Directory(3), 0o755), "drwxr-xr-x");
    assert_eq!(write_meta(&FsNodeKind::Regular, 0o644), "-rw-r--r--");
    assert_eq!(write_meta(&FsNodeKind::Executable, 0o100750), "-rwxr-x---");
    let link = FsNodeKind::SymLink("target".to_string(), Box::new(FsNodeKind::Regular));
    assert_eq!(write_meta(&link, 0o777), "lrwxrwxrwx");
    assert_eq!(write_meta(&FsNodeKind::NamedPipe, 0), "p---------");
}

#[test]
fn hidden_names() {
    assert!(keep_name("src"));
    assert!(!keep_name(".git"));
    assert!(keep_name(""));
}
