use advent_of_rust_22::day7_alt::{Dir, FileSystem};

#[test]
fn test_mkdir() {
    let mut fs = FileSystem::new();
    fs.mkdir("fasd");
    assert_eq!(fs.dir_map.len(), 2);

    let root_dir = fs.find("/".as_bytes()).map(|k| fs.dir_map[k].1).unwrap();
    let new_dir = fs.find("fasd".as_bytes()).map(|k| fs.dir_map[k].1).unwrap();
    let parent_dir = fs.dirs[new_dir].parent.unwrap();
    assert_eq!(root_dir, parent_dir);
}

#[test]
fn day7_alt_root_and_names() {
    let root = Dir::new_root();
    assert!(root.parent.is_none());
    assert_eq!(root.to_full_name(), b"/".to_vec());
    let mut fs = FileSystem::new();
    fs.mkdir("a");
    fs.mkdir("a");
    assert_eq!(fs.dir_map.len(), 2);
    assert_eq!(fs.dirs.len(), 2);
}
