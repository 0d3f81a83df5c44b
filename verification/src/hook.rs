//! The shell statements that bring a shell into the cached environment.
//!
//! The output is a script for a POSIX shell with ANSI-C quoting. Every name,
//! value and path in it goes through [`escape`](crate::bash::escape), so
//! that the shell reads it back byte for byte.

use crate::bash::{escape, escape_into, escaped};
use crate::bytes::{append, append_text, copy_bytes, has_prefix, same_bytes, starts_with, text};
use crate::cache::Cache;
use crate::config::{joined, path_views, Config};
use crate::env::{
    change_views, diff, kept, pairs, snapshot, without_prefix, Change, ChangeView, Diff, Item,
};
use crate::env_laws::{lemma_is_the_diff, lemma_is_the_folded, the_diff, the_folded};
use crate::status::EnvironmentStatus;
use crate::sums::{checksum_views, signature, ChecksumView, Checksums};
use vstd::prelude::*;
use vstd::utf8::encode_utf8;

verus! {

/// The byte that ends a line.
pub const LINE_FEED: u8 = 0x0A;

/// The byte that may stand before the end of a line.
pub const CARRIAGE_RETURN: u8 = 0x0D;

/// The statement that makes one change: `export NAME=VALUE` for a variable
/// that is added or changed, `unset NAME` for one that is removed.
pub open spec fn statement(change: ChangeView) -> Seq<u8> {
    match change {
        ChangeView::Added(name, new) => text("export ") + escaped(name) + text("=") + escaped(new)
            + text("\n"),
        ChangeView::Changed(name, _, new) => text("export ") + escaped(name) + text("=")
            + escaped(new) + text("\n"),
        ChangeView::Removed(name, _) => text("unset ") + escaped(name) + text("\n"),
    }
}

/// The statements for a list of changes, in order.
pub open spec fn statements(changes: Seq<ChangeView>) -> Seq<u8>
    decreases changes.len(),
{
    if changes.len() == 0 {
        Seq::empty()
    } else {
        statements(changes.drop_last()) + statement(changes.last())
    }
}

/// The statements that make the changes of `diff`, one line for each.
pub fn env_diff_dump(diff: &Diff) -> (output: Vec<u8>)
    ensures
        output@ == statements(diff@),
{
    let changes = diff.as_slice();
    let ghost views = change_views(changes@);
    let mut output: Vec<u8> = Vec::new();
    let mut i: usize = 0;
    assert(views.take(0) =~= Seq::<ChangeView>::empty());
    while i < changes.len()
        invariant
            i <= changes.len(),
            views == change_views(changes@),
            output@ == statements(views.take(i as int)),
        decreases changes.len() - i,
    {
        let ghost before = output@;
        match &changes[i] {
            Change::Added(k, vb) => {
                append_text(&mut output, "export ");
                escape_into(k.as_slice(), &mut output);
                append_text(&mut output, "=");
                escape_into(vb.as_slice(), &mut output);
            },
            Change::Changed(k, _va, vb) => {
                append_text(&mut output, "export ");
                escape_into(k.as_slice(), &mut output);
                append_text(&mut output, "=");
                escape_into(vb.as_slice(), &mut output);
            },
            Change::Removed(k, _va) => {
                append_text(&mut output, "unset ");
                escape_into(k.as_slice(), &mut output);
            },
        }
        append_text(&mut output, "\n");
        proof {
            assert(views.take(i + 1).drop_last() =~= views.take(i as int));
            assert(views.take(i + 1).last() == views[i as int]);
            assert(output@ =~= before + statement(views[i as int]));
        }
        i += 1;
    }
    assert(views.take(changes.len() as int) =~= views);
    output
}

/// A line without the carriage return at its end, if it has one there.
pub open spec fn without_return(line: Seq<u8>) -> Seq<u8> {
    if line.len() > 0 && line.last() == CARRIAGE_RETURN {
        line.drop_last()
    } else {
        line
    }
}

/// A line of a title as a comment.
pub open spec fn comment(line: Seq<u8>) -> Seq<u8> {
    text("### ") + line + text("\n")
}

/// What reading a title has gathered: the comments for the lines that are
/// complete, and the bytes of the line that is being read.
pub open spec fn commented(title: Seq<u8>) -> (Seq<u8>, Seq<u8>)
    decreases title.len(),
{
    if title.len() == 0 {
        (Seq::empty(), Seq::empty())
    } else {
        let (done, line) = commented(title.drop_last());
        if title.last() == LINE_FEED {
            (done + comment(without_return(line)), Seq::empty())
        } else {
            (done, line.push(title.last()))
        }
    }
}

/// The lines of a title, each as a comment. A line ends at a line feed, and
/// a carriage return before the line feed is not part of it; what follows
/// the last line feed is a line where it is not empty.
pub open spec fn comments(title: Seq<u8>) -> Seq<u8> {
    let (done, line) = commented(title);
    if line.len() > 0 {
        done + comment(line)
    } else {
        done
    }
}

/// One part of the output: the title as comments, the body, and a line feed.
pub open spec fn chunked(title: Seq<u8>, body: Seq<u8>) -> Seq<u8> {
    comments(title) + body + text("\n")
}

/// Puts a title, as comment lines, before a part of the output, and a line
/// feed after it.
pub fn chunk(title: &str, body: &[u8]) -> (buf: Vec<u8>)
    ensures
        buf@ == chunked(text(title), body@),
{
    let title = title.as_bytes();
    let mut buf: Vec<u8> = Vec::new();
    let mut line: Vec<u8> = Vec::new();
    let mut i: usize = 0;
    assert(title@.take(0) =~= Seq::<u8>::empty());
    while i < title.len()
        invariant
            i <= title.len(),
            (buf@, line@) == commented(title@.take(i as int)),
        decreases title.len() - i,
    {
        assert(title@.take(i + 1).drop_last() =~= title@.take(i as int));
        if title[i] == LINE_FEED {
            let ghost before = buf@;
            let end: usize = if line.len() > 0 && line[line.len() - 1] == CARRIAGE_RETURN {
                line.len() - 1
            } else {
                line.len()
            };
            let kept = vstd::slice::slice_subrange(line.as_slice(), 0, end);
            assert(kept@ =~= without_return(line@));
            append_text(&mut buf, "### ");
            append(&mut buf, kept);
            append_text(&mut buf, "\n");
            assert(buf@ =~= before + comment(without_return(line@)));
            line = Vec::new();
        } else {
            line.push(title[i]);
        }
        i += 1;
    }
    assert(title@.take(title@.len() as int) =~= title@);
    if line.len() > 0 {
        let ghost before = buf@;
        append_text(&mut buf, "### ");
        append(&mut buf, line.as_slice());
        append_text(&mut buf, "\n");
        assert(buf@ =~= before + comment(line@));
    }
    append(&mut buf, body);
    append_text(&mut buf, "\n");
    buf
}

/// `haystack` with each occurrence of `needle` replaced by `with`, found
/// from the left, an occurrence beginning only after the one before it
/// has ended. With an empty `needle` nothing is replaced.
pub open spec fn replaced(haystack: Seq<u8>, needle: Seq<u8>, with: Seq<u8>) -> Seq<u8>
    decreases haystack.len(),
{
    if needle.len() == 0 || haystack.len() < needle.len() {
        haystack
    } else if has_prefix(haystack, needle) {
        with + replaced(haystack.skip(needle.len() as int), needle, with)
    } else {
        seq![haystack[0]] + replaced(haystack.skip(1), needle, with)
    }
}

/// Replaces each occurrence of `needle` in `haystack` by `with`.
pub fn replace_all(haystack: &[u8], needle: &[u8], with: &[u8]) -> (out: Vec<u8>)
    ensures
        out@ == replaced(haystack@, needle@, with@),
{
    if needle.len() == 0 {
        return copy_bytes(haystack);
    }
    let mut out: Vec<u8> = Vec::new();
    let mut i: usize = 0;
    assert(haystack@.skip(0) =~= haystack@);
    while i < haystack.len() && haystack.len() - i >= needle.len()
        invariant
            i <= haystack.len(),
            needle.len() > 0,
            replaced(haystack@, needle@, with@) == out@ + replaced(
                haystack@.skip(i as int),
                needle@,
                with@,
            ),
        decreases haystack.len() - i,
    {
        let ghost rest = haystack@.skip(i as int);
        let ghost before = out@;
        let tail = vstd::slice::slice_subrange(haystack, i, haystack.len());
        assert(tail@ =~= rest);
        if starts_with(tail, needle) {
            append(&mut out, with);
            assert(rest.skip(needle.len() as int) =~= haystack@.skip(i + needle.len()));
            assert(before + (with@ + replaced(rest.skip(needle.len() as int), needle@, with@))
                =~= out@ + replaced(rest.skip(needle.len() as int), needle@, with@));
            i += needle.len();
        } else {
            out.push(haystack[i]);
            assert(rest.skip(1) =~= haystack@.skip(i + 1));
            assert(before + (seq![rest[0]] + replaced(rest.skip(1), needle@, with@)) =~= out@
                + replaced(rest.skip(1), needle@, with@));
            i += 1;
        }
    }
    let tail = vstd::slice::slice_subrange(haystack, i, haystack.len());
    assert(tail@ =~= haystack@.skip(i as int));
    append(&mut out, tail);
    out
}

/// The words for a list of paths, with a backslash, a line feed and two
/// spaces between one and the next.
pub open spec fn watch_list(paths: Seq<Seq<u8>>) -> Seq<u8>
    decreases paths.len(),
{
    if paths.len() == 0 {
        Seq::empty()
    } else if paths.len() == 1 {
        escaped(paths[0])
    } else {
        watch_list(paths.drop_last()) + text(" \\\n  ") + escaped(paths.last())
    }
}

/// The statement that has the shell watch the given paths.
pub open spec fn watch_statement(paths: Seq<Seq<u8>>) -> Seq<u8> {
    text("watch_file \\\n  ") + watch_list(paths) + text("\n")
}

/// The statement that has the shell watch the given paths: `watch_file`
/// and the paths, one to a line.
pub fn watches(paths: &[Vec<u8>]) -> (statement: Vec<u8>)
    ensures
        statement@ == watch_statement(path_views(paths@)),
{
    let ghost views = path_views(paths@);
    let mut statement: Vec<u8> = Vec::new();
    append_text(&mut statement, "watch_file \\\n  ");
    let mut i: usize = 0;
    assert(views.take(0) =~= Seq::<Seq<u8>>::empty());
    while i < paths.len()
        invariant
            i <= paths.len(),
            views == path_views(paths@),
            statement@ == text("watch_file \\\n  ") + watch_list(views.take(i as int)),
        decreases paths.len() - i,
    {
        let ghost before = statement@;
        if i > 0 {
            append_text(&mut statement, " \\\n  ");
        }
        escape_into(paths[i].as_slice(), &mut statement);
        proof {
            assert(views.take(i + 1).drop_last() =~= views.take(i as int));
            assert(views.take(i + 1).last() == views[i as int]);
            assert(views[i as int] == paths@[i as int]@);
            if i == 0 {
                assert(views.take(1)[0] == views[0]);
                assert(watch_list(views.take(0)) =~= Seq::<u8>::empty());
            }
            assert(statement@ =~= text("watch_file \\\n  ") + watch_list(views.take(i + 1)));
        }
        i += 1;
    }
    assert(views.take(paths.len() as int) =~= views);
    append_text(&mut statement, "\n");
    statement
}

/// The paths of the entries of a list of checksums.
pub open spec fn paths_of(sums: Seq<ChecksumView>) -> Seq<Seq<u8>> {
    sums.map_values(
        |sum: ChecksumView|
            match sum {
                ChecksumView::Found(path, _) => path,
                ChecksumView::NotFound(path) => path,
            },
    )
}

/// The paths to watch for a cache record: the files it was built from, the
/// file that holds it, the build log, the build program and the watch
/// program.
pub open spec fn watched(
    sums: Seq<ChecksumView>,
    cache_file: Seq<u8>,
    build_log: Seq<u8>,
    build_exe: Seq<u8>,
    watch_exe: Seq<u8>,
) -> Seq<Seq<u8>> {
    paths_of(sums) + seq![cache_file, build_log, build_exe, watch_exe]
}

/// The paths to watch for a cache record, as [`watched`] lists them.
pub fn watched_paths(config: &Config, sums: &Checksums, cache_file: &[u8]) -> (paths: Vec<Vec<u8>>)
    ensures
        path_views(paths@) == watched(
            sums@,
            cache_file@,
            joined(config.cache_dir@, text("build.log")),
            config.build_exe@,
            config.watch_exe@,
        ),
{
    let entries = sums.as_slice();
    let ghost views = checksum_views(entries@);
    let mut paths: Vec<Vec<u8>> = Vec::new();
    let mut i: usize = 0;
    while i < entries.len()
        invariant
            i <= entries.len(),
            views == checksum_views(entries@),
            path_views(paths@) == paths_of(views.take(i as int)),
        decreases entries.len() - i,
    {
        let ghost before = path_views(paths@);
        paths.push(copy_bytes(entries[i].path().as_slice()));
        proof {
            assert(path_views(paths@) =~= before.push(entries@[i as int].path_spec()));
            assert(paths_of(views.take(i + 1)) =~= paths_of(views.take(i as int)).push(
                entries@[i as int].path_spec(),
            ));
        }
        i += 1;
    }
    assert(views.take(entries.len() as int) =~= views);
    let ghost listed = path_views(paths@);
    paths.push(copy_bytes(cache_file));
    paths.push(config.build_log_file());
    paths.push(copy_bytes(config.build_exe.as_slice()));
    paths.push(copy_bytes(config.watch_exe.as_slice()));
    assert(path_views(paths@) =~= listed + seq![
        cache_file@,
        joined(config.cache_dir@, text("build.log")),
        config.build_exe@,
        config.watch_exe@,
    ]);
    paths
}

/// The change would take `DIRENV_WATCHES` away or leave it empty.
pub open spec fn wipes_watches(change: ChangeView) -> bool {
    match change {
        ChangeView::Changed(name, _, new) => name == text("DIRENV_WATCHES") && new.len() == 0,
        ChangeView::Removed(name, _) => name == text("DIRENV_WATCHES"),
        ChangeView::Added(_, _) => false,
    }
}

/// Whether the change would take `DIRENV_WATCHES` away or leave it empty.
pub fn wipes_direnv_watches(change: &Change) -> (wipes: bool)
    ensures
        wipes == wipes_watches(change@),
{
    match change {
        Change::Changed(name, _, value) => same_bytes(
            name.as_slice(),
            "DIRENV_WATCHES".as_bytes(),
        ) && value.len() == 0,
        Change::Removed(name, _) => same_bytes(name.as_slice(), "DIRENV_WATCHES".as_bytes()),
        Change::Added(_, _) => false,
    }
}

/// The changes that do not wipe `DIRENV_WATCHES`, in order.
pub open spec fn without_wipes(changes: Seq<ChangeView>) -> Seq<ChangeView> {
    kept(changes, changes.map_values(|c: ChangeView| wipes_watches(c)))
}

/// The changes that lead from the environment `here` to the environment
/// `outside`, but for one that would wipe `DIRENV_WATCHES`.
pub open spec fn parent_changes(
    here: Map<Seq<u8>, Seq<u8>>,
    outside: Map<Seq<u8>, Seq<u8>>,
) -> Seq<ChangeView> {
    without_wipes(the_diff(here, outside))
}

/// The changes that lead from the environment of this process to the one
/// outside the project, but for one that would wipe `DIRENV_WATCHES`.
pub fn parent_diff(here: &[Item], outside: &[Item]) -> (changes: Diff)
    ensures
        changes@ == parent_changes(snapshot(pairs(here@)), snapshot(pairs(outside@))),
{
    let all = diff(here, outside);
    proof {
        lemma_is_the_diff(all@, snapshot(pairs(here@)), snapshot(pairs(outside@)));
    }
    let wipes = |change: &Change| -> (wipes: bool)
        ensures
            wipes == wipes_watches(change@),
        { wipes_direnv_watches(change) };
    let changes = all.exclude_by(wipes);
    proof {
        let verdicts = choose|verdicts: Seq<bool>|
            verdicts.len() == all.items().len() && (forall|i: int|
                0 <= i < verdicts.len() ==> call_ensures(
                    wipes,
                    (&all.items()[i],),
                    #[trigger] verdicts[i],
                )) && changes@ == kept(all@, verdicts);
        all.lemma_view_items();
        assert(verdicts =~= all@.map_values(|c: ChangeView| wipes_watches(c)));
    }
    changes
}

/// The changes of the cached record that are replayed: all but those of
/// variables named `DIRENV_...` or `SSH_...`.
pub open spec fn replayed(cached: Seq<ChangeView>) -> Seq<ChangeView> {
    without_prefix(without_prefix(cached, text("DIRENV_")), text("SSH_"))
}

/// The changes to make in this shell: those of the parent environment
/// followed by those of the cache record that are replayed, folded.
pub open spec fn merged(parent: Seq<ChangeView>, cached: Seq<ChangeView>) -> Seq<ChangeView> {
    the_folded(parent + replayed(cached))
}

/// Folds the changes of the parent environment and those of the cache
/// record that are replayed into one list.
pub fn merge_cached(parent: Diff, cached: &Diff) -> (changes: Diff)
    ensures
        changes@ == merged(parent@, cached@),
{
    let mut changes = parent;
    changes.extend(
        cached.exclude_by_prefix("DIRENV_".as_bytes()).exclude_by_prefix("SSH_".as_bytes()),
    );
    let ghost chained = changes@;
    changes.simplify();
    proof {
        lemma_is_the_folded(changes@, chained);
    }
    changes
}

/// The scripts that are written into the output as they are.
pub struct Scripts {
    /// Functions that the other scripts use.
    pub helpers: Vec<u8>,
    /// For an environment that is up to date; `__MESSAGE__` in it stands
    /// for the command that tells how to get started.
    pub active: Vec<u8>,
    /// For an environment that is stale.
    pub stale: Vec<u8>,
    /// For an environment that is not built.
    pub inactive: Vec<u8>,
}

/// The part of the output that depends on the cache record.
pub open spec fn rendered_body(
    scripts: Scripts,
    config: Config,
    parent: Seq<ChangeView>,
    now: Seq<ChecksumView>,
    loaded: Option<(Seq<ChangeView>, Seq<ChecksumView>)>,
) -> Seq<u8> {
    match loaded {
        Some((cached, then)) => {
            let status = if then == now {
                chunked(
                    EnvironmentStatus::Okay.message_bytes(),
                    replaced(
                        scripts.active@,
                        text("__MESSAGE__"),
                        escaped(encode_utf8(config.messages.getting_started@)),
                    ),
                )
            } else {
                chunked(EnvironmentStatus::Stale.message_bytes(), scripts.stale@)
            };
            status + chunked(
                text("Computed environment follows (includes parent environment):"),
                statements(merged(parent, cached)),
            ) + chunked(
                text("Watch dependencies."),
                watch_statement(
                    watched(
                        then,
                        joined(config.cache_dir@, text("cache.") + encode_utf8(signature(now))),
                        joined(config.cache_dir@, text("build.log")),
                        config.build_exe@,
                        config.watch_exe@,
                    ),
                ),
            )
        },
        None => chunked(EnvironmentStatus::Unknown.message_bytes(), scripts.inactive@) + chunked(
            text("Parent environment follows:"),
            statements(parent),
        ),
    }
}

/// The whole output of the hook: one group of statements between braces,
/// so that the shell acts only once it has read all of it.
pub open spec fn rendered(
    scripts: Scripts,
    config: Config,
    parent: Seq<ChangeView>,
    now: Seq<ChecksumView>,
    loaded: Option<(Seq<ChangeView>, Seq<ChecksumView>)>,
) -> Seq<u8> {
    text("{ # Start.\n\n") + chunked(text("Helpers."), scripts.helpers@) + rendered_body(
        scripts,
        config,
        parent,
        now,
        loaded,
    ) + text("} # End.\n")
}

/// The cached changes and checksums of a record that was loaded, if one was.
pub open spec fn loaded_view(loaded: Option<Cache>) -> Option<(Seq<ChangeView>, Seq<ChecksumView>)> {
    match loaded {
        Some(cache) => Some((cache.diff@, cache.sums@)),
        None => None,
    }
}

/// Writes the output of the hook.
///
/// `parent` holds the changes of the parent environment, `now` the
/// checksums of the watched files as they are, and `loaded` the cache
/// record, if one could be loaded. With a record the output replays the
/// environment and says whether it is up to date or stale; without one it
/// brings in the parent environment alone.
pub fn render(
    scripts: &Scripts,
    config: &Config,
    parent: Diff,
    now: &Checksums,
    loaded: Option<Cache>,
) -> (output: Vec<u8>)
    ensures
        output@ == rendered(*scripts, *config, parent@, now@, loaded_view(loaded)),
{
    let mut output: Vec<u8> = Vec::new();
    append_text(&mut output, "{ # Start.\n\n");
    let helpers = chunk("Helpers.", scripts.helpers.as_slice());
    append(&mut output, helpers.as_slice());
    let ghost head = output@;
    match loaded {
        Some(cache) => {
            let ghost parent_view = parent@;
            let env_diff = merge_cached(parent, &cache.diff);
            let status = EnvironmentStatus::assess(now, Some(&cache.sums));
            match status {
                EnvironmentStatus::Okay => {
                    let message = escape(config.messages.getting_started.as_str().as_bytes());
                    let content = replace_all(
                        scripts.active.as_slice(),
                        "__MESSAGE__".as_bytes(),
                        message.as_slice(),
                    );
                    let part = chunk(
                        EnvironmentStatus::Okay.display().as_str(),
                        content.as_slice(),
                    );
                    append(&mut output, part.as_slice());
                },
                _ => {
                    let part = chunk(
                        EnvironmentStatus::Stale.display().as_str(),
                        scripts.stale.as_slice(),
                    );
                    append(&mut output, part.as_slice());
                },
            }
            let dump = env_diff_dump(&env_diff);
            let part = chunk(
                "Computed environment follows (includes parent environment):",
                dump.as_slice(),
            );
            append(&mut output, part.as_slice());
            let cache_file = config.cache_file(now);
            let paths = watched_paths(config, &cache.sums, cache_file.as_slice());
            let statement = watches(paths.as_slice());
            let part = chunk("Watch dependencies.", statement.as_slice());
            append(&mut output, part.as_slice());
            assert(output@ =~= head + rendered_body(
                *scripts,
                *config,
                parent_view,
                now@,
                loaded_view(loaded),
            ));
        },
        None => {
            let part = chunk(
                EnvironmentStatus::Unknown.display().as_str(),
                scripts.inactive.as_slice(),
            );
            append(&mut output, part.as_slice());
            let dump = env_diff_dump(&parent);
            let part = chunk("Parent environment follows:", dump.as_slice());
            append(&mut output, part.as_slice());
            assert(output@ =~= head + rendered_body(
                *scripts,
                *config,
                parent@,
                now@,
                loaded_view(loaded),
            ));
        },
    }
    append_text(&mut output, "} # End.\n");
    output
}

} // verus!
