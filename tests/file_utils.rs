use cope::fs::{ConfigRecord, FsSnapshot};
use cope::{files_matching, find_dir_up, has_dir, normalize, FindOptions};

const CWD: &[u8] = b"/work/cope";

fn tree() -> FsSnapshot {
    let mut fs = FsSnapshot::new();
    for d in [
        "/work/cope",
        "/work/cope/src",
        "/work/cope/.git",
        "/work/cope/.devcontainer",
    ] {
        fs.add_dir(d.as_bytes().to_vec());
    }
    fs.add_file(ConfigRecord {
        file_name: b"/work/cope/.devcontainer/devcontainer.json".to_vec(),
        name: None,
        workspace_folder: None,
    });
    fs
}

#[test]
fn test_normalize() {
    assert_eq!(normalize(b"/foo", CWD), b"/foo".to_vec());
    assert_eq!(
        normalize(b"./foo/./.././Cargo.toml", CWD),
        b"/work/cope/Cargo.toml".to_vec()
    );
}

#[test]
fn test_has_dir() {
    assert!(has_dir(&normalize(b".", CWD), "src", &tree()));
}

#[test]
fn test_files_matching() {
    let fs = tree();
    let cur = normalize(b"src/file_utils.rs", CWD);
    let dc = find_dir_up(
        &cur,
        FindOptions {
            dir: ".devcontainer",
            stop: None,
        },
        &fs,
    )
    .expect("No devcontainer");

    let res = files_matching(&dc, "devcontainer.json", &fs);
    assert_eq!(res.len(), 1);
}

#[test]
fn test_not_dir() {
    let cur = normalize(b"src/file_utils.rs", CWD);
    let ret = files_matching(&cur, "NO_SUCH_FILE", &tree());
    let expected: Vec<Vec<u8>> = vec![];
    assert_eq!(ret, expected);
}

#[test]
fn test_no_container() {
    let cur = normalize(b"src/file_utils.rs", CWD);
    let dc = find_dir_up(
        &cur,
        FindOptions {
            dir: "___BAD_DIR_DOESNT_EXIT_____HOPEFULLY...",
            stop: None,
        },
        &tree(),
    );
    assert_eq!(dc, None);
}

#[test]
fn test_stop_dir() {
    let cur = normalize(b"src/file_utils.rs", CWD);
    let dc = find_dir_up(
        &cur,
        FindOptions {
            dir: "___BAD_DIR_DOESNT_EXIT_____HOPEFULLY...",
            stop: Some(".git"),
        },
        &tree(),
    );
    assert_eq!(dc, None);
}

#[test]
fn normalize_parent_at_root_stays_at_root() {
    assert_eq!(normalize(b"/..", CWD), b"/".to_vec());
    assert_eq!(normalize(b"/../x", CWD), b"/x".to_vec());
    assert_eq!(normalize(b"/../../a/../b", CWD), b"/b".to_vec());
    assert_eq!(normalize(b"../../../..", CWD), b"/".to_vec());
}

#[test]
fn normalize_has_no_dot_components() {
    let r = normalize(b"a//./b/../c/.", b"/x/y");
    assert_eq!(r, b"/x/y/a/c".to_vec());
    assert!(r.starts_with(b"/"));
    for part in r.split(|&b| b == b'/').skip(1) {
        assert!(!part.is_empty() && part != b"." && part != b"..");
    }
    assert_eq!(normalize(b"", b"/x"), b"/x".to_vec());
}

#[test]
fn search_starts_at_the_path_itself() {
    let fs = tree();
    let dc = find_dir_up(
        b"/work/cope",
        FindOptions {
            dir: ".devcontainer",
            stop: Some(".git"),
        },
        &fs,
    );
    assert_eq!(dc, Some(b"/work/cope/.devcontainer".to_vec()));
}

#[test]
fn stop_dir_ends_the_search_before_an_outer_marker() {
    let mut fs = FsSnapshot::new();
    fs.add_dir(b"/outer/.devcontainer".to_vec());
    fs.add_dir(b"/outer/inner/.git".to_vec());
    let with_stop = find_dir_up(
        b"/outer/inner/file.rs",
        FindOptions {
            dir: ".devcontainer",
            stop: Some(".git"),
        },
        &fs,
    );
    assert_eq!(with_stop, None);
    let without_stop = find_dir_up(
        b"/outer/inner/file.rs",
        FindOptions {
            dir: ".devcontainer",
            stop: None,
        },
        &fs,
    );
    assert_eq!(without_stop, Some(b"/outer/.devcontainer".to_vec()));
}

#[test]
fn files_matching_looks_one_level_down_only() {
    let mut fs = FsSnapshot::new();
    for d in ["/p/.devcontainer", "/p/.devcontainer/a", "/p/.devcontainer/a/deep"] {
        fs.add_dir(d.as_bytes().to_vec());
    }
    for f in [
        "/p/.devcontainer/devcontainer.json",
        "/p/.devcontainer/a/devcontainer.json",
        "/p/.devcontainer/a/deep/devcontainer.json",
    ] {
        fs.add_file(ConfigRecord {
            file_name: f.as_bytes().to_vec(),
            name: None,
            workspace_folder: None,
        });
    }
    let res = files_matching(b"/p/.devcontainer", "devcontainer.json", &fs);
    assert_eq!(
        res,
        vec![
            b"/p/.devcontainer/devcontainer.json".to_vec(),
            b"/p/.devcontainer/a/devcontainer.json".to_vec()
        ]
    );
}
