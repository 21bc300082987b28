use cope::args::{classify_args, ArgRole, ArgState};
use cope::container_id;
use cope::fs::{ConfigRecord, FsSnapshot};
use cope::rewrite::{
    choice_labels, dir_properties, markers_needing_choice, process_args, to_devcontainer_uri,
    Choice, Context, ResolveCache, RewriteError,
};

fn record(path: &str, name: Option<&str>, folder: Option<&str>) -> ConfigRecord {
    ConfigRecord {
        file_name: path.as_bytes().to_vec(),
        name: name.map(|s| s.to_string()),
        workspace_folder: folder.map(|s| s.to_string()),
    }
}

/// A project at /proj with one default configuration and a git directory.
fn single() -> Context {
    let mut fs = FsSnapshot::new();
    for d in ["/proj", "/proj/src", "/proj/.git", "/proj/.devcontainer"] {
        fs.add_dir(d.as_bytes().to_vec());
    }
    fs.add_file(record("/proj/.devcontainer/devcontainer.json", None, None));
    Context {
        cwd: b"/proj".to_vec(),
        fs,
        choices: Vec::new(),
    }
}

/// A project at /multi whose marker directory holds two configurations.
fn double(choices: Vec<Choice>) -> Context {
    let mut fs = FsSnapshot::new();
    for d in ["/multi", "/multi/.devcontainer", "/multi/.devcontainer/bar"] {
        fs.add_dir(d.as_bytes().to_vec());
    }
    fs.add_file(record("/multi/.devcontainer/devcontainer.json", Some("base"), None));
    fs.add_file(record(
        "/multi/.devcontainer/bar/devcontainer.json",
        None,
        Some("/src/here"),
    ));
    Context {
        cwd: b"/multi".to_vec(),
        fs,
        choices,
    }
}

fn run(args: &[&[u8]], ctx: &Context) -> Vec<Vec<u8>> {
    let v: Vec<Vec<u8>> = args.iter().map(|a| a.to_vec()).collect();
    match process_args(&v, ctx) {
        Ok(out) => out,
        Err(RewriteError::NoSelection(m)) => panic!("no selection for {:?}", m),
    }
}

fn convert_args(args: &[&str]) -> Vec<String> {
    let v: Vec<&[u8]> = args.iter().map(|s| s.as_bytes()).collect();
    run(&v, &single())
        .into_iter()
        .map(|s| String::from_utf8(s).unwrap())
        .collect()
}

fn assert_file_uri(arg: &str) {
    assert!(
        arg.starts_with("--file-uri=vscode-remote://dev-container+"),
        "{:?}",
        arg
    );
}

fn assert_folder_uri(arg: &str) {
    assert!(
        arg.starts_with("--folder-uri=vscode-remote://dev-container+"),
        "{:?}",
        arg
    );
}

#[test]
fn test_convert_path() {
    let actual = convert_args(&["cope", "Cargo.toml", "/", "--log", "info", "--", "--log"]);

    assert_eq!(&actual[0], "code");
    assert_file_uri(&actual[1]);
    let last = actual.len() - 1;
    assert_eq!(&actual[last], "--log");
    let expected: Vec<String> = ["/", "--log", "info", "--"]
        .iter()
        .map(|&s| s.into())
        .collect();
    assert_eq!(actual[2..last], expected);
}

#[test]
fn test_invalid_trailing_needfile() {
    let actual = convert_args(&["cope", "--log"]);
    assert_eq!(actual[1], "--log");
    let plan = classify_args(&vec![b"--log".to_vec()]);
    assert_eq!(plan.end, ArgState::FollowOn(1));
}

#[test]
fn test_needfile() {
    let actual = convert_args(&["cope", "-d", "one", "two"]);
    assert_eq!(actual[1], "-d");
    assert_eq!(actual[2], "one");
    assert_eq!(actual[3], "two");
}

#[test]
fn test_unknown_ddash() {
    let actual = convert_args(&["cope", "--foo"]);
    assert_eq!(actual[1], "--foo");
}

#[test]
fn test_multi_sdash() {
    let actual = convert_args(&["cope", "-wa", "foo"]);
    assert_file_uri(&actual[2]);
    let plan = classify_args(&vec![b"-wa".to_vec(), b"foo".to_vec()]);
    assert_eq!(plan.roles, vec![ArgRole::ShortFlags, ArgRole::Path]);
}

#[test]
fn test_no_args() {
    let actual = convert_args(&["cope"]);
    assert_folder_uri(&actual[1]);
}

#[test]
fn test_invalid_utf8() {
    let actual = run(&[b"cope", &[0xff]], &single());
    assert_file_uri(std::str::from_utf8(&actual[1]).unwrap());
}

#[test]
fn test_complex_container() {
    let id = container_id("/foo", "/foo/.devcontainer/bar/devcontainer.json");
    assert_eq!(id.chars().next().unwrap(), '{');
}

#[test]
fn test_empty_dir() {
    let ctx = single();
    let mut cache = ResolveCache::new();
    let u = to_devcontainer_uri(b"src/main.rs", "src", &ctx, &mut cache);
    assert!(matches!(u, Ok(ref v) if v == b"src/main.rs"));
}

#[test]
fn rewrite_gives_exact_file_uri() {
    let actual = convert_args(&["cope", "Cargo.toml", "/", "--log", "info", "--", "--log"]);
    // "/proj" in hex is 2f70726f6a.
    assert_eq!(
        actual,
        vec![
            "code",
            "--file-uri=vscode-remote://dev-container+2f70726f6a/workspaces/proj/Cargo.toml",
            "/",
            "--log",
            "info",
            "--",
            "--log"
        ]
    );
}

#[test]
fn no_args_opens_the_current_folder() {
    let actual = convert_args(&["cope"]);
    assert_eq!(
        actual,
        vec![
            "code",
            "--folder-uri=vscode-remote://dev-container+2f70726f6a/workspaces/proj/"
        ]
    );
}

#[test]
fn arity_two_values_are_not_paths() {
    let actual = convert_args(&["cope", "-d", "src", "Cargo.toml", "README.md"]);
    assert_eq!(actual[1..4], ["-d", "src", "Cargo.toml"]);
    assert_file_uri(&actual[4]);
    let actual = convert_args(&["cope", "--merge", "a", "b", "c", "d", "e"]);
    assert_eq!(actual[1..6], ["--merge", "a", "b", "c", "d"]);
    assert_file_uri(&actual[6]);
}

#[test]
fn terminal_word_stops_path_rewriting() {
    let actual = convert_args(&["cope", "tunnel", "Cargo.toml"]);
    assert_eq!(actual, vec!["code", "tunnel", "Cargo.toml"]);
}

#[test]
fn non_text_dash_argument_is_a_path() {
    let plan = classify_args(&vec![vec![b'-', 0xff]]);
    assert_eq!(plan.roles, vec![ArgRole::Path]);
    let plan = classify_args(&vec![b"-".to_vec(), b"-x".to_vec()]);
    assert_eq!(plan.roles, vec![ArgRole::Verbatim, ArgRole::Verbatim]);
}

#[test]
fn invalid_bytes_become_replacement_characters() {
    let actual = run(&[b"cope", &[0xff]], &single());
    let s = String::from_utf8(actual[1].clone()).unwrap();
    assert_eq!(
        s,
        "--file-uri=vscode-remote://dev-container+2f70726f6a/workspaces/proj/\u{fffd}"
    );
}

#[test]
fn path_outside_any_project_passes_through() {
    let actual = convert_args(&["cope", "/elsewhere/file.txt"]);
    assert_eq!(actual, vec!["code", "/elsewhere/file.txt"]);
}

#[test]
fn default_location_id_is_the_root() {
    assert_eq!(container_id("/proj", "/proj/.devcontainer/devcontainer.json"), "/proj");
    assert_eq!(container_id("/", "/.devcontainer/devcontainer.json"), "/");
}

#[test]
fn complex_id_exact_text() {
    let c = "/foo/.devcontainer/bar/devcontainer.json";
    let id = container_id("/foo", c);
    assert_eq!(
        id,
        "{\"hostPath\":\"/foo\",\"localDocker\":false,\"settings\":{\"context\":\"desktop-linux\"},\"configFile\":{\"$mid\":1,\"fsPath\":\"/foo/.devcontainer/bar/devcontainer.json\",\"external\":\"file:///foo/.devcontainer/bar/devcontainer.json\",\"path\":\"/foo/.devcontainer/bar/devcontainer.json\",\"scheme\":\"file\"}}"
    );
    assert!(id.starts_with('{'));
    assert_eq!(id.matches(c).count(), 3);
}

#[test]
fn chooser_is_needed_once_per_marker() {
    let ctx = double(Vec::new());
    let args: Vec<Vec<u8>> = vec![b"cope".to_vec(), b"a.txt".to_vec(), b"b.txt".to_vec()];
    let markers = markers_needing_choice(&args, &ctx);
    assert_eq!(markers, vec![b"/multi/.devcontainer".to_vec()]);
    assert!(matches!(
        process_args(&args, &ctx),
        Err(RewriteError::NoSelection(ref m)) if m == b"/multi/.devcontainer"
    ));
}

#[test]
fn single_configuration_needs_no_chooser() {
    let args: Vec<Vec<u8>> = vec![b"cope".to_vec(), b"a.txt".to_vec()];
    assert!(markers_needing_choice(&args, &single()).is_empty());
}

#[test]
fn chosen_configuration_is_used_for_every_path() {
    let ctx = double(vec![Choice {
        marker: b"/multi/.devcontainer".to_vec(),
        index: 1,
    }]);
    let out = run(&[b"cope", b"a.txt", b"b.txt"], &ctx);
    let id = container_id("/multi", "/multi/.devcontainer/bar/devcontainer.json");
    let h = cope::hex(id.as_bytes());
    assert_eq!(
        out[1],
        format!("--file-uri=vscode-remote://dev-container+{}/src/here/a.txt", h).into_bytes()
    );
    assert_eq!(
        out[2],
        format!("--file-uri=vscode-remote://dev-container+{}/src/here/b.txt", h).into_bytes()
    );
}

#[test]
fn out_of_range_choice_is_an_error() {
    let ctx = double(vec![Choice {
        marker: b"/multi/.devcontainer".to_vec(),
        index: 2,
    }]);
    assert!(matches!(
        dir_properties(b"/multi/.devcontainer", &ctx),
        Err(RewriteError::NoSelection(_))
    ));
}

#[test]
fn dir_properties_of_default_configuration() {
    let p = match dir_properties(b"/proj/.devcontainer", &single()) {
        Ok(Some(p)) => p,
        _ => panic!("expected properties"),
    };
    assert_eq!(p.hex, "2f70726f6a");
    assert_eq!(p.folder, "/workspaces/proj");
    assert!(matches!(
        dir_properties(b"/proj/src", &single()),
        Ok(None)
    ));
}

#[test]
fn marker_at_filesystem_root() {
    let mut fs = FsSnapshot::new();
    fs.add_dir(b"/.devcontainer".to_vec());
    fs.add_file(record("/.devcontainer/devcontainer.json", None, None));
    let ctx = Context {
        cwd: b"/".to_vec(),
        fs,
        choices: Vec::new(),
    };
    let out = run(&[b"cope", b"x"], &ctx);
    // "/" in hex is 2f; the root's last component is "/" itself.
    assert_eq!(
        out[1],
        b"--file-uri=vscode-remote://dev-container+2f/workspaces///x".to_vec()
    );
}

#[test]
fn chooser_labels_name_each_configuration() {
    let labels = choice_labels(b"/multi/.devcontainer", &double(Vec::new()).fs);
    assert_eq!(
        labels,
        vec![
            "base (\".devcontainer/devcontainer.json\")".to_string(),
            "<no name> (\".devcontainer/bar/devcontainer.json\")".to_string()
        ]
    );
}

#[test]
fn default_location_spelled_differently_is_still_default() {
    assert_eq!(container_id("/foo", "/foo//.devcontainer/devcontainer.json"), "/foo");
    assert_eq!(container_id("/foo", "/foo/./.devcontainer/devcontainer.json/"), "/foo");
    assert_eq!(container_id("/foo/", "/foo/.devcontainer/devcontainer.json"), "/foo/");
    assert!(container_id("/foo", "/foo/../foo/.devcontainer/devcontainer.json").starts_with('{'));
    assert!(container_id("/foo", "foo/.devcontainer/devcontainer.json").starts_with('{'));
}

#[test]
fn complex_id_embeds_path_with_spaces_three_times() {
    let c = "/my proj/.devcontainer/x y/devcontainer.json";
    let id = container_id("/my proj", c);
    assert!(id.starts_with('{'));
    assert_eq!(id.matches(c).count(), 3);
}

#[test]
fn missing_flag_values_pass_through() {
    let actual = convert_args(&["cope", "-d", "Cargo.toml"]);
    assert_eq!(actual, vec!["code", "-d", "Cargo.toml"]);
    let plan = classify_args(&vec![b"-d".to_vec(), b"Cargo.toml".to_vec()]);
    assert_eq!(plan.end, ArgState::FollowOn(1));
}

#[test]
fn directory_recorded_twice_gives_one_configuration() {
    let mut fs = FsSnapshot::new();
    for d in ["/p", "/p/.devcontainer", "/p/.devcontainer/a", "/p/.devcontainer/a"] {
        fs.add_dir(d.as_bytes().to_vec());
    }
    fs.add_file(record("/p/.devcontainer/a/devcontainer.json", None, None));
    let ctx = Context {
        cwd: b"/p/.devcontainer/a".to_vec(),
        fs,
        choices: Vec::new(),
    };
    let args: Vec<Vec<u8>> = vec![b"cope".to_vec()];
    assert!(markers_needing_choice(&args, &ctx).is_empty());
    assert_eq!(
        cope::files_matching(b"/p/.devcontainer", "devcontainer.json", &ctx.fs),
        vec![b"/p/.devcontainer/a/devcontainer.json".to_vec()]
    );
    let out = run(&[b"cope"], &ctx);
    assert_folder_uri(std::str::from_utf8(&out[1]).unwrap());
}

#[test]
fn cache_answers_the_second_path_the_same() {
    let ctx = double(vec![Choice {
        marker: b"/multi/.devcontainer".to_vec(),
        index: 0,
    }]);
    let mut cache = ResolveCache::new();
    let a = to_devcontainer_uri(b"a.txt", ".devcontainer", &ctx, &mut cache);
    let b = to_devcontainer_uri(b"b.txt", ".devcontainer", &ctx, &mut cache);
    let (a, b) = match (a, b) {
        (Ok(a), Ok(b)) => (a, b),
        _ => panic!("expected rewrites"),
    };
    let a = String::from_utf8(a).unwrap();
    let b = String::from_utf8(b).unwrap();
    assert_eq!(a.strip_suffix("a.txt"), b.strip_suffix("b.txt"));
    assert!(a.ends_with("/workspaces/multi/a.txt"));
}
