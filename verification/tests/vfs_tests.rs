use rcore_os::vfs::{Directory, Unlinked, STATMODE_FILE};

#[test]
fn create_find_link_unlink_ls() {
    let mut d = Directory::new();
    assert_eq!(d.create(b"a", 1), Some(1));
    assert_eq!(d.find_inode_id(b"a"), Some(1));
    assert_eq!(d.find(b"a"), Some((1, STATMODE_FILE)));
    assert_eq!(d.get_nlink(1), Some(1));
    assert_eq!(d.find_inode_id(b"b"), None);
    // a taken name is refused, and nothing changes
    assert_eq!(d.create(b"a", 2), None);
    assert_eq!(d.len(), 1);
    assert_eq!(d.get_nlink(2), None);
    assert_eq!(d.create(b"b", 2), Some(2));
    assert_eq!(d.len(), 2);
    assert_eq!(d.link(b"a", b"a"), None);
    assert_eq!(d.link(b"a", b"b"), None);
    assert_eq!(d.link(b"zz", b"c"), None);
    assert_eq!(d.len(), 2);
    assert_eq!(d.link(b"a", b"c"), Some(1));
    assert_eq!(d.get_nlink(1), Some(2));
    assert_eq!(d.find_inode_id(b"c"), Some(1));
    assert_eq!(d.ls(), vec![b"a".to_vec(), b"b".to_vec(), b"c".to_vec()]);
    assert_eq!(d.unlinkat(b"a"), Some(Unlinked { inode_id: 1, freed: false }));
    assert_eq!(d.get_nlink(1), Some(1));
    assert_eq!(d.find_inode_id(b"a"), None);
    assert_eq!(d.unlinkat(b"a"), None);
    assert!(!d.entry(0).valid);
    assert_eq!(d.find_inode_id(b"c"), Some(1));
    assert_eq!(d.ls(), vec![b"b".to_vec(), b"c".to_vec()]);
    // the last link goes: the inode is freed
    assert_eq!(d.unlinkat(b"c"), Some(Unlinked { inode_id: 1, freed: true }));
    assert_eq!(d.get_nlink(1), None);
    assert_eq!(d.ls(), vec![b"b".to_vec()]);
}

#[test]
fn link_then_unlink_restores_count() {
    let mut d = Directory::new();
    assert_eq!(d.create(b"f", 4), Some(4));
    assert_eq!(d.link(b"f", b"g"), Some(4));
    assert_eq!(d.get_nlink(4), Some(2));
    assert_eq!(d.unlinkat(b"g"), Some(Unlinked { inode_id: 4, freed: false }));
    assert_eq!(d.get_nlink(4), Some(1));
    assert_eq!(d.ls(), vec![b"f".to_vec()]);
    assert_eq!(d.find_inode_id(b"f"), Some(4));
    assert_eq!(d.find(b"g"), None);
}
