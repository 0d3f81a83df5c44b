use firstaide::config::{expand_path, join, Config, Messages, ParentDir};
use firstaide::sums::{Checksums, FileRead};

fn pb(path: &str) -> Vec<u8> {
    path.into()
}

fn config() -> Config {
    Config {
        build_dir: pb("/project"),
        cache_dir: pb("/project/.cache"),
        build_exe: pb("/project/bin/build"),
        watch_exe: pb("/project/bin/watch"),
        direnv_exe: pb("/usr/bin/direnv"),
        parent_dir: pb("/"),
        self_exe: pb("/usr/bin/firstaide"),
        messages: Messages::default(),
    }
}

#[test]
fn expands_path_with_leading_tilde() {
    assert_eq!(
        pb("/home/dir/baz"),
        expand_path(b"~/baz", &pb("/home/dir")),
    );
}

#[test]
fn does_not_expand_path_with_leading_tilde_and_username() {
    assert_eq!(
        pb("~user/baz"),
        expand_path(b"~user/baz", &pb("/home/dir")),
    );
}

#[test]
fn does_not_expand_path_without_leading_tilde() {
    assert_eq!(pb("sum/were"), expand_path(b"sum/were", &pb("/home/dir")),);
}

#[test]
fn expands_a_lone_tilde_and_skips_empty_parts() {
    assert_eq!(pb("/home/dir/"), expand_path(b"~", b"/home/dir"));
    assert_eq!(pb("/home/dir/baz"), expand_path(b"~//./baz", b"/home/dir"));
    assert_eq!(pb("/home/dir/.baz"), expand_path(b"~/.baz", b"/home/dir"));
    assert_eq!(pb("/home/dir/../x"), expand_path(b"~/../x", b"/home/dir"));
    assert_eq!(pb("./~/x"), expand_path(b"./~/x", b"/home/dir"));
    assert_eq!(pb(""), expand_path(b"", b"/home/dir"));
}

#[test]
fn join_puts_one_separator_between() {
    assert_eq!(join(b"/a", b"b"), pb("/a/b"));
    assert_eq!(join(b"/a/", b"b"), pb("/a/b"));
    assert_eq!(join(b"", b"b"), pb("b"));
    assert_eq!(join(b"/a", b""), pb("/a/"));
    assert_eq!(join(b"/a", b"/b"), pb("/b"));
    assert_eq!(join(b"a", b"b/c"), pb("a/b/c"));
}

#[test]
fn abspath_resolves_from_the_build_dir() {
    assert_eq!(config().abspath(b"shell.nix"), pb("/project/shell.nix"));
    assert_eq!(config().abspath(b"/etc/hosts"), pb("/etc/hosts"));
}

#[test]
fn watch_files_splits_at_nul_bytes() {
    let c = config();
    assert_eq!(
        c.watch_files(b"shell.nix\0/etc/nix.conf\0\0nix/sources.json"),
        vec![
            pb("/project/shell.nix"),
            pb("/etc/nix.conf"),
            pb("/project/nix/sources.json")
        ]
    );
    assert_eq!(c.watch_files(b"a\0"), vec![pb("/project/a")]);
    assert_eq!(c.watch_files(b"\0\0"), Vec::<Vec<u8>>::new());
    assert_eq!(c.watch_files(b""), Vec::<Vec<u8>>::new());
    assert_eq!(c.watch_files(b"a b\nc"), vec![pb("/project/a b\nc")]);
}

#[test]
fn cache_files_live_in_the_cache_dir() {
    let c = config();
    let sums = Checksums::from(Vec::<(Vec<u8>, FileRead<String>)>::new()).unwrap();
    assert_eq!(
        c.cache_file(&sums),
        pb("/project/.cache/cache.05fe405753166f125559e7c9ac558654f107c7e9")
    );
    assert_eq!(c.cache_file_most_recent(), pb("/project/.cache/cache"));
    assert_eq!(c.build_log_file(), pb("/project/.cache/build.log"));
}

#[test]
fn defaults() {
    assert_eq!(Messages::default().getting_started, "aide --help");
    assert_eq!(ParentDir::default(), ParentDir(pb("..")));
}
