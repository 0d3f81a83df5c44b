use firstaide::cache::Cache;
use firstaide::config::{Config, Messages};
use firstaide::env::{Change, Diff, Env};
use firstaide::hook::{
    chunk, env_diff_dump, merge_cached, parent_diff, render, replace_all, watched_paths, watches,
    wipes_direnv_watches, Scripts,
};
use firstaide::status::EnvironmentStatus;
use firstaide::sums::{Checksums, FileRead};

fn added(key: &str, vb: &str) -> Change {
    Change::Added(key.into(), vb.into())
}

fn changed(key: &str, va: &str, vb: &str) -> Change {
    Change::Changed(key.into(), va.into(), vb.into())
}

fn removed(key: &str, va: &str) -> Change {
    Change::Removed(key.into(), va.into())
}

fn env(items: &[(&str, &str)]) -> Env {
    items
        .iter()
        .cloned()
        .map(|(k, v)| (k.into(), v.into()))
        .collect()
}

fn sums(files: &[(&str, Option<&str>)]) -> Checksums {
    let reads: Vec<(Vec<u8>, FileRead<String>)> = files
        .iter()
        .map(|(path, contents)| {
            (
                path.as_bytes().to_vec(),
                match contents {
                    Some(c) => FileRead::Contents(c.as_bytes().to_vec()),
                    None => FileRead::NotFound,
                },
            )
        })
        .collect();
    Checksums::from(reads).unwrap()
}

fn config() -> Config {
    Config {
        build_dir: b"/p".to_vec(),
        cache_dir: b"/p/.cache".to_vec(),
        build_exe: b"/p/bin/build it".to_vec(),
        watch_exe: b"/p/bin/watch".to_vec(),
        direnv_exe: b"/usr/bin/direnv".to_vec(),
        parent_dir: b"/".to_vec(),
        self_exe: b"/usr/bin/firstaide".to_vec(),
        messages: Messages {
            getting_started: "make help".into(),
        },
    }
}

fn scripts() -> Scripts {
    Scripts {
        helpers: b"helper() { :; }\n".to_vec(),
        active: b"echo __MESSAGE__\n".to_vec(),
        stale: b"echo stale\n".to_vec(),
        inactive: b"echo inactive\n".to_vec(),
    }
}

#[test]
fn dump_exports_and_unsets() {
    let d = Diff::from(&[
        added("NEW", "a b"),
        changed("PATH", "/bin", "/usr/bin:/bin"),
        removed("OLD VAR", "x"),
        Change::Added(b"RAW".to_vec(), vec![0xff, b'\n']),
    ]);
    assert_eq!(
        env_diff_dump(&d),
        b"export NEW=$'a b'\nexport PATH=$'/usr/bin:/bin'\nunset $'OLD VAR'\nexport RAW=$'\\xFF\\n'\n"
    );
    assert_eq!(env_diff_dump(&Diff::new()), b"");
}

#[test]
fn chunk_comments_each_line_of_the_title() {
    assert_eq!(chunk("Helpers.", b"body"), b"### Helpers.\nbody\n");
    assert_eq!(
        chunk("one\ntwo\r\n\nthree\n", b""),
        b"### one\n### two\n### \n### three\n\n"
    );
    assert_eq!(chunk("", b"x\n"), b"x\n\n");
    assert_eq!(chunk("bare\r", b""), b"### bare\r\n\n");
}

#[test]
fn replace_all_replaces_from_the_left() {
    assert_eq!(
        replace_all(b"say __MESSAGE__ and __MESSAGE__!", b"__MESSAGE__", b"hi"),
        b"say hi and hi!"
    );
    assert_eq!(replace_all(b"aaaa", b"aa", b"b"), b"bb");
    assert_eq!(replace_all(b"aaa", b"aa", b"b"), b"ba");
    assert_eq!(replace_all(b"abc", b"x", b"y"), b"abc");
    assert_eq!(replace_all(b"abc", b"", b"y"), b"abc");
    assert_eq!(replace_all(b"", b"a", b"y"), b"");
    assert_eq!(replace_all(b"ab", b"abc", b"y"), b"ab");
    assert_eq!(replace_all(b"xab", b"ab", b""), b"x");
}

#[test]
fn watches_lists_one_path_to_a_line() {
    assert_eq!(
        watches(&[b"/a".to_vec(), b"/b c".to_vec(), b"/d".to_vec()]),
        b"watch_file \\\n  /a \\\n  $'/b c' \\\n  /d\n"
    );
    assert_eq!(watches(&[b"/a".to_vec()]), b"watch_file \\\n  /a\n");
    assert_eq!(watches(&[]), b"watch_file \\\n  \n");
}

#[test]
fn watched_paths_are_the_files_and_the_tool_files() {
    let paths = watched_paths(
        &config(),
        &sums(&[("/p/shell.nix", Some("{}")), ("/p/missing", None)]),
        b"/p/.cache/cache.abc",
    );
    assert_eq!(
        paths,
        vec![
            b"/p/shell.nix".to_vec(),
            b"/p/missing".to_vec(),
            b"/p/.cache/cache.abc".to_vec(),
            b"/p/.cache/build.log".to_vec(),
            b"/p/bin/build it".to_vec(),
            b"/p/bin/watch".to_vec(),
        ]
    );
}

#[test]
fn direnv_watches_are_not_wiped() {
    assert!(wipes_direnv_watches(&changed("DIRENV_WATCHES", "x", "")));
    assert!(wipes_direnv_watches(&removed("DIRENV_WATCHES", "x")));
    assert!(!wipes_direnv_watches(&changed("DIRENV_WATCHES", "x", "y")));
    assert!(!wipes_direnv_watches(&added("DIRENV_WATCHES", "")));
    assert!(!wipes_direnv_watches(&removed("DIRENV_WATCHES2", "x")));
    assert!(!wipes_direnv_watches(&changed("HOME", "x", "")));
    let here = env(&[("DIRENV_WATCHES", "w"), ("A", "1")]);
    let outside = env(&[("A", "2")]);
    assert_eq!(
        parent_diff(&here, &outside),
        Diff::from(&[changed("A", "1", "2")])
    );
    let emptied = env(&[("DIRENV_WATCHES", ""), ("A", "1")]);
    assert_eq!(parent_diff(&here, &emptied), Diff::new());
}

#[test]
fn cached_changes_are_filtered_and_folded_in() {
    let parent = Diff::from(&[added("A", "1"), removed("B", "b")]);
    let cached = Diff::from(&[
        changed("A", "1", "2"),
        added("C", "c"),
        added("DIRENV_DIR", "d"),
        changed("SSH_AUTH_SOCK", "x", "y"),
        added("SSH", "kept"),
    ]);
    assert_eq!(
        merge_cached(parent, &cached),
        Diff::from(&[
            added("A", "2"),
            removed("B", "b"),
            added("C", "c"),
            added("SSH", "kept"),
        ])
    );
}

#[test]
fn status_follows_from_the_checksums() {
    let now = sums(&[("a", Some("x")), ("b", None)]);
    let same = sums(&[("a", Some("x")), ("b", None)]);
    let other = sums(&[("a", Some("y")), ("b", None)]);
    assert_eq!(EnvironmentStatus::assess(&now, None), EnvironmentStatus::Unknown);
    assert_eq!(
        EnvironmentStatus::assess(&now, Some(&same)),
        EnvironmentStatus::Okay
    );
    assert_eq!(
        EnvironmentStatus::assess(&now, Some(&other)),
        EnvironmentStatus::Stale
    );
}

#[test]
fn render_without_a_record() {
    let parent = Diff::from(&[added("A", "1")]);
    let out = render(&scripts(), &config(), parent, &sums(&[]), None);
    let expected = "{ # Start.\n\n\
        ### Helpers.\nhelper() { :; }\n\n\
        ### Environment not built or otherwise broken!\necho inactive\n\n\
        ### Parent environment follows:\nexport A=1\n\n\
        } # End.\n";
    assert_eq!(String::from_utf8(out).unwrap(), expected);
}

#[test]
fn render_with_a_record_that_is_up_to_date() {
    let now = sums(&[("/p/shell.nix", Some("{}"))]);
    let cache = Cache {
        diff: Diff::from(&[added("B", "2"), added("DIRENV_DIFF", "x")]),
        sums: sums(&[("/p/shell.nix", Some("{}"))]),
    };
    let parent = Diff::from(&[added("A", "1")]);
    let sig = now.sig();
    let out = render(&scripts(), &config(), parent, &now, Some(cache));
    let expected = format!(
        "{{ # Start.\n\n\
        ### Helpers.\nhelper() {{ :; }}\n\n\
        ### Environment is up to date!\necho $'make help'\n\n\
        ### Computed environment follows (includes parent environment):\n\
        export A=1\nexport B=2\n\n\
        ### Watch dependencies.\n\
        watch_file \\\n  /p/shell.nix \\\n  /p/.cache/cache.{} \\\n  /p/.cache/build.log \\\n  $'/p/bin/build it' \\\n  /p/bin/watch\n\n\
        }} # End.\n",
        sig
    );
    assert_eq!(String::from_utf8(out).unwrap(), expected);
}

#[test]
fn render_with_a_record_that_is_stale() {
    let now = sums(&[("/p/shell.nix", Some("changed"))]);
    let cache = Cache {
        diff: Diff::new(),
        sums: sums(&[("/p/shell.nix", Some("{}"))]),
    };
    let sig = now.sig();
    let out = render(&scripts(), &config(), Diff::new(), &now, Some(cache));
    let expected = format!(
        "{{ # Start.\n\n\
        ### Helpers.\nhelper() {{ :; }}\n\n\
        ### Environment is STALE!\necho stale\n\n\
        ### Computed environment follows (includes parent environment):\n\n\
        ### Watch dependencies.\n\
        watch_file \\\n  /p/shell.nix \\\n  /p/.cache/cache.{} \\\n  /p/.cache/build.log \\\n  $'/p/bin/build it' \\\n  /p/bin/watch\n\n\
        }} # End.\n",
        sig
    );
    assert_eq!(String::from_utf8(out).unwrap(), expected);
}
