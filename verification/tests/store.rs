use ez_core::store::{
    extension, file_name, insert, insert_new, is_mem, mem_paths, path_exists, read, remove,
    MemStore, MEM_PREFIX,
};

#[test]
fn memory_assets() {
    let mut s = MemStore::new();
    let p = insert_new(&mut s, "my logo.png", vec![1u8, 2, 3]);
    assert!(is_mem(&p));
    assert_eq!(read(&s, &p).unwrap(), vec![1, 2, 3]);
    let q = insert_new(&mut s, "my logo.png", vec![4u8]);
    assert_ne!(p, q, "names are made unique");
    assert_eq!(extension(&q), "png");
    assert_eq!(file_name("mem://a/b.obj"), "b.obj");
    remove(&mut s, &p);
    assert!(!path_exists(&s, &p));
}

#[test]
fn new_paths_are_numbered_and_cleaned() {
    let mut s = MemStore::new();
    assert_eq!(insert_new(&mut s, "a/b\\c.png", vec![]), "mem://a_b_c.png");
    assert_eq!(insert_new(&mut s, "a/b\\c.png", vec![]), "mem://2_a_b_c.png");
    assert_eq!(insert_new(&mut s, "a/b\\c.png", vec![]), "mem://3_a_b_c.png");
    let mut paths = mem_paths(&s);
    paths.sort();
    assert_eq!(paths, vec!["mem://2_a_b_c.png", "mem://3_a_b_c.png", "mem://a_b_c.png"]);
}

#[test]
fn insert_replaces_and_read_gives_back() {
    let mut s = MemStore::new();
    insert(&mut s, "mem://x", vec![1]);
    insert(&mut s, "mem://y", vec![2]);
    insert(&mut s, "mem://x", vec![3, 4]);
    assert_eq!(read(&s, "mem://x"), Some(vec![3, 4]));
    assert_eq!(read(&s, "mem://y"), Some(vec![2]));
    assert_eq!(read(&s, "mem://z"), None);
    assert_eq!(mem_paths(&s).len(), 2);
    remove(&mut s, "mem://nothing");
    assert_eq!(mem_paths(&s).len(), 2);
}

#[test]
fn path_parts() {
    assert_eq!(MEM_PREFIX, "mem://");
    assert!(!is_mem("mem:/x"));
    assert!(is_mem("mem://"));
    assert_eq!(file_name("C:\\models\\ship.OBJ"), "ship.OBJ");
    assert_eq!(file_name("plain"), "plain");
    assert_eq!(file_name("dir/"), "");
    assert_eq!(extension("C:\\models\\ship.OBJ"), "obj");
    assert_eq!(extension("archive.tar.GZ"), "gz");
    assert_eq!(extension("no_ext"), "");
    assert_eq!(extension("dot.dir/file"), "");
    assert_eq!(extension("trailing."), "");
}
