//! The cache record: the changes that a build made to the environment and
//! the checksums of the files it was built from, and the record as bytes.
//!
//! The bytes of a record are the list of changes followed by the list of
//! checksums. A list is its number of items in 64 bits and then the items;
//! an item is a number of 32 bits that tells its kind and then its byte
//! strings, each with its length in 64 bits before it. Numbers are written
//! lowest byte first. Bytes that were not written from a record are not
//! read as one.

use crate::codec::{
    enc_field, enc_items, enc_list, enc_u32, enc_u64, lemma_field_read, lemma_field_written,
    lemma_items_fail, lemma_items_one_more, lemma_items_push, lemma_items_read,
    lemma_items_written, lemma_u32, lemma_u64, parse_field, parse_items, parse_list, parse_u32,
    parse_u64, put_field, put_u32, put_u64, take_field, take_u32, take_u64,
};
use crate::env::{change_views, Change, ChangeView, Diff};
use crate::sums::{
    checksums_fit, enc_checksums, lemma_checksums_read, lemma_checksums_written, parse_checksums,
    take_checksums, ChecksumView, Checksums,
};
use vstd::prelude::*;

verus! {

/// One change as bytes: the number 0, 1 or 2 for `Added`, `Changed` or
/// `Removed`, then the name and the values in the order of the fields.
pub open spec fn enc_change(change: ChangeView) -> Seq<u8> {
    match change {
        ChangeView::Added(name, new) => enc_u32(0) + enc_field(name) + enc_field(new),
        ChangeView::Changed(name, old, new) => enc_u32(1) + enc_field(name) + enc_field(old)
            + enc_field(new),
        ChangeView::Removed(name, old) => enc_u32(2) + enc_field(name) + enc_field(old),
    }
}

/// Reads one change from the front of `s`: the change and what follows.
pub open spec fn parse_change(s: Seq<u8>) -> Option<(ChangeView, Seq<u8>)> {
    match parse_u32(s) {
        Some((tag, rest)) => if tag > 2 {
            None
        } else {
            match parse_field(rest) {
                Some((name, rest)) => match parse_field(rest) {
                    Some((first, rest)) => if tag == 0 {
                        Some((ChangeView::Added(name, first), rest))
                    } else if tag == 2 {
                        Some((ChangeView::Removed(name, first), rest))
                    } else {
                        match parse_field(rest) {
                            Some((second, rest)) => Some(
                                (ChangeView::Changed(name, first, second), rest),
                            ),
                            None => None,
                        }
                    },
                    None => None,
                },
                None => None,
            }
        },
        None => None,
    }
}

/// The lengths in the change fit the 64 bits that the format gives them.
pub open spec fn change_fits(change: ChangeView) -> bool {
    match change {
        ChangeView::Added(name, new) => name.len() <= u64::MAX && new.len() <= u64::MAX,
        ChangeView::Changed(name, old, new) => name.len() <= u64::MAX && old.len() <= u64::MAX
            && new.len() <= u64::MAX,
        ChangeView::Removed(name, old) => name.len() <= u64::MAX && old.len() <= u64::MAX,
    }
}

/// The lengths in the list fit the 64 bits that the format gives them.
pub open spec fn changes_fit(changes: Seq<ChangeView>) -> bool {
    changes.len() <= u64::MAX && forall|i: int|
        0 <= i < changes.len() ==> change_fits(#[trigger] changes[i])
}

/// How one change is written.
pub open spec fn change_enc() -> spec_fn(ChangeView) -> Seq<u8> {
    |change: ChangeView| enc_change(change)
}

/// How one change is read.
pub open spec fn change_parse() -> spec_fn(Seq<u8>) -> Option<(ChangeView, Seq<u8>)> {
    |s: Seq<u8>| parse_change(s)
}

/// A list of changes as bytes.
pub open spec fn enc_changes(changes: Seq<ChangeView>) -> Seq<u8> {
    enc_list(changes, change_enc())
}

/// Reads a list of changes from the front of `s`.
pub open spec fn parse_changes(s: Seq<u8>) -> Option<(Seq<ChangeView>, Seq<u8>)> {
    parse_list(s, change_parse())
}

/// A written change is read back.
pub proof fn lemma_change_written(change: ChangeView, rest: Seq<u8>)
    requires
        change_fits(change),
    ensures
        parse_change(enc_change(change) + rest) == Some((change, rest)),
{
    match change {
        ChangeView::Added(name, new) => {
            let after_name = enc_field(new) + rest;
            let after_tag = enc_field(name) + after_name;
            assert(enc_change(change) + rest =~= enc_u32(0) + after_tag);
            lemma_u32(0, Seq::empty(), after_tag);
            lemma_field_written(name, after_name);
            lemma_field_written(new, rest);
        },
        ChangeView::Changed(name, old, new) => {
            let after_old = enc_field(new) + rest;
            let after_name = enc_field(old) + after_old;
            let after_tag = enc_field(name) + after_name;
            assert(enc_change(change) + rest =~= enc_u32(1) + after_tag);
            lemma_u32(1, Seq::empty(), after_tag);
            lemma_field_written(name, after_name);
            lemma_field_written(old, after_old);
            lemma_field_written(new, rest);
        },
        ChangeView::Removed(name, old) => {
            let after_name = enc_field(old) + rest;
            let after_tag = enc_field(name) + after_name;
            assert(enc_change(change) + rest =~= enc_u32(2) + after_tag);
            lemma_u32(2, Seq::empty(), after_tag);
            lemma_field_written(name, after_name);
            lemma_field_written(old, rest);
        },
    }
}

/// What is read as a change was written as one.
pub proof fn lemma_change_read(s: Seq<u8>)
    ensures
        parse_change(s) matches Some((change, tail)) ==> s == enc_change(change) + tail
            && change_fits(change),
{
    lemma_u32(0, s, Seq::empty());
    if let Some((tag, rest)) = parse_u32(s) {
        lemma_field_read(rest);
        if let Some((name, after_name)) = parse_field(rest) {
            lemma_field_read(after_name);
            if let Some((first, after_first)) = parse_field(after_name) {
                lemma_field_read(after_first);
                if tag == 0 {
                    assert(s =~= enc_u32(0) + enc_field(name) + enc_field(first) + after_first);
                } else if tag == 2 {
                    assert(s =~= enc_u32(2) + enc_field(name) + enc_field(first) + after_first);
                } else if tag == 1 {
                    if let Some((second, tail)) = parse_field(after_first) {
                        assert(s =~= enc_u32(1) + enc_field(name) + enc_field(first) + enc_field(
                            second,
                        ) + tail);
                    }
                }
            }
        }
    }
}

/// The changes that are read have lengths that fit.
proof fn lemma_changes_read_fit(count: nat, s: Seq<u8>)
    ensures
        parse_items(count, s, change_parse()) matches Some((changes, tail)) ==> forall|i: int|
            0 <= i < changes.len() ==> change_fits(#[trigger] changes[i]),
    decreases count,
{
    let parse = change_parse();
    if count > 0 {
        if let Some((item, rest)) = parse(s) {
            lemma_change_read(s);
            lemma_changes_read_fit((count - 1) as nat, rest);
            if let Some((items, tail)) = parse_items((count - 1) as nat, rest, parse) {
                let all = seq![item] + items;
                assert forall|i: int| 0 <= i < all.len() implies change_fits(#[trigger] all[i]) by {
                    if i > 0 {
                        assert(all[i] == items[i - 1]);
                    }
                }
            }
        }
    }
}

/// A written list of changes is read back.
pub proof fn lemma_changes_written(changes: Seq<ChangeView>, rest: Seq<u8>)
    requires
        changes_fit(changes),
    ensures
        parse_changes(enc_changes(changes) + rest) == Some((changes, rest)),
{
    let enc = change_enc();
    let parse = change_parse();
    let items = enc_items(changes, enc) + rest;
    assert(enc_changes(changes) + rest =~= enc_u64(changes.len() as u64) + items);
    lemma_u64(changes.len() as u64, Seq::empty(), items);
    assert forall|i: int, tail: Seq<u8>| 0 <= i < changes.len() implies #[trigger] parse(
        enc(changes[i]) + tail,
    ) == Some((changes[i], tail)) by {
        lemma_change_written(changes[i], tail);
    }
    lemma_items_written(changes, rest, enc, parse);
}

/// What is read as a list of changes was written as one.
pub proof fn lemma_changes_read(s: Seq<u8>)
    ensures
        parse_changes(s) matches Some((changes, tail)) ==> s == enc_changes(changes) + tail
            && changes_fit(changes),
{
    let enc = change_enc();
    let parse = change_parse();
    lemma_u64(0, s, Seq::empty());
    if let Some((count, rest)) = parse_u64(s) {
        assert forall|t: Seq<u8>|
            (#[trigger] parse(t)) matches Some((item, tail)) ==> t == enc(item) + tail by {
            lemma_change_read(t);
        }
        lemma_items_read(count as nat, rest, enc, parse);
        if let Some((changes, tail)) = parse_items(count as nat, rest, parse) {
            assert(s =~= enc_changes(changes) + tail);
            lemma_changes_read_fit(count as nat, rest);
        }
    }
}

/// Appends one change to `out`, as bytes.
fn put_change(out: &mut Vec<u8>, change: &Change)
    ensures
        final(out)@ == old(out)@ + enc_change(change@),
        change_fits(change@),
{
    match change {
        Change::Added(name, new) => {
            put_u32(out, 0);
            put_field(out, name.as_slice());
            put_field(out, new.as_slice());
        },
        Change::Changed(name, old, new) => {
            put_u32(out, 1);
            put_field(out, name.as_slice());
            put_field(out, old.as_slice());
            put_field(out, new.as_slice());
        },
        Change::Removed(name, old) => {
            put_u32(out, 2);
            put_field(out, name.as_slice());
            put_field(out, old.as_slice());
        },
    }
    assert(out@ =~= old(out)@ + enc_change(change@));
}

/// Appends a list of changes to `out`, as bytes.
fn put_changes(out: &mut Vec<u8>, changes: &[Change])
    ensures
        final(out)@ == old(out)@ + enc_changes(change_views(changes@)),
        changes_fit(change_views(changes@)),
{
    let ghost enc = change_enc();
    let ghost views = change_views(changes@);
    put_u64(out, changes.len() as u64);
    let ghost start = out@;
    let mut i: usize = 0;
    assert(views.take(0) =~= Seq::<ChangeView>::empty());
    while i < changes.len()
        invariant
            i <= changes.len(),
            enc == change_enc(),
            views == change_views(changes@),
            out@ == start + enc_items(views.take(i as int), enc),
            forall|j: int| 0 <= j < i ==> change_fits(#[trigger] views[j]),
        decreases changes.len() - i,
    {
        put_change(out, &changes[i]);
        proof {
            lemma_items_push(views.take(i as int), views[i as int], enc);
            assert(views.take(i + 1) =~= views.take(i as int).push(views[i as int]));
            assert(out@ =~= start + enc_items(views.take(i + 1), enc));
        }
        i += 1;
    }
    proof {
        assert(views.take(changes.len() as int) =~= views);
        assert(out@ =~= old(out)@ + enc_changes(views));
    }
}

/// Reads one change at `pos`: the change and the position after it, or
/// `None` where no change stands there.
fn take_change(bytes: &[u8], pos: usize) -> (read: Option<(Change, usize)>)
    requires
        pos <= bytes.len(),
    ensures
        match read {
            Some((change, next)) => pos <= next <= bytes.len() && parse_change(
                bytes@.skip(pos as int),
            ) == Some((change@, bytes@.skip(next as int))),
            None => parse_change(bytes@.skip(pos as int)) is None,
        },
{
    match take_u32(bytes, pos) {
        None => None,
        Some((tag, pos)) => {
            if tag > 2 {
                return None;
            }
            match take_field(bytes, pos) {
                None => None,
                Some((name, pos)) => match take_field(bytes, pos) {
                    None => None,
                    Some((first, pos)) => {
                        if tag == 0 {
                            Some((Change::Added(name, first), pos))
                        } else if tag == 2 {
                            Some((Change::Removed(name, first), pos))
                        } else {
                            match take_field(bytes, pos) {
                                None => None,
                                Some((second, pos)) => Some(
                                    (Change::Changed(name, first, second), pos),
                                ),
                            }
                        }
                    },
                },
            }
        },
    }
}

/// Reads a list of changes at `pos`: the list and the position after it,
/// or `None` where no list stands there.
fn take_changes(bytes: &[u8], pos: usize) -> (read: Option<(Diff, usize)>)
    requires
        pos <= bytes.len(),
    ensures
        match read {
            Some((diff, next)) => pos <= next <= bytes.len() && parse_changes(
                bytes@.skip(pos as int),
            ) == Some((diff@, bytes@.skip(next as int))),
            None => parse_changes(bytes@.skip(pos as int)) is None,
        },
{
    match take_u64(bytes, pos) {
        None => None,
        Some((count, start)) => {
            let ghost items = bytes@.skip(start as int);
            let ghost parse = change_parse();
            let mut list: Vec<Change> = Vec::new();
            let mut at: usize = start;
            let mut n: u64 = 0;
            while n < count
                invariant
                    n <= count,
                    start <= at <= bytes.len(),
                    items == bytes@.skip(start as int),
                    parse == change_parse(),
                    parse_u64(bytes@.skip(pos as int)) == Some((count, items)),
                    parse_items(n as nat, items, parse) == Some(
                        (change_views(list@), bytes@.skip(at as int)),
                    ),
                decreases count - n,
            {
                proof {
                    lemma_items_one_more(n as nat, items, parse);
                }
                match take_change(bytes, at) {
                    None => {
                        proof {
                            lemma_items_fail((n + 1) as nat, count as nat, items, parse);
                        }
                        return None;
                    },
                    Some((change, next)) => {
                        let ghost shorter = change_views(list@);
                        list.push(change);
                        assert(change_views(list@) =~= shorter.push(change@));
                        at = next;
                    },
                }
                n += 1;
            }
            Some((Diff::from_vec(list), at))
        },
    }
}

/// What is kept of one build: the changes it made to the environment and
/// the checksums of the files it was built from.
#[derive(Debug, PartialEq, Eq)]
pub struct Cache {
    pub diff: Diff,
    pub sums: Checksums,
}

/// A [`Cache`] as a mathematical value.
pub struct CacheView {
    pub diff: Seq<ChangeView>,
    pub sums: Seq<ChecksumView>,
}

impl View for Cache {
    type V = CacheView;

    open spec fn view(&self) -> CacheView {
        CacheView { diff: self.diff@, sums: self.sums@ }
    }
}

/// A record as bytes: its changes, then its checksums.
pub open spec fn enc_cache(cache: CacheView) -> Seq<u8> {
    enc_changes(cache.diff) + enc_checksums(cache.sums)
}

/// The record that the bytes `s` are, if they are one.
pub open spec fn parse_cache(s: Seq<u8>) -> Option<CacheView> {
    match parse_changes(s) {
        Some((diff, rest)) => match parse_checksums(rest) {
            Some((sums, tail)) => if tail.len() == 0 {
                Some(CacheView { diff, sums })
            } else {
                None
            },
            None => None,
        },
        None => None,
    }
}

/// The lengths in the record fit the 64 bits that the format gives them.
/// This holds of every record that a program can hold.
pub open spec fn cache_fits(cache: CacheView) -> bool {
    changes_fit(cache.diff) && checksums_fit(cache.sums)
}

/// The bytes `s` are those of some record.
pub open spec fn is_record(s: Seq<u8>) -> bool {
    exists|cache: CacheView| cache_fits(cache) && #[trigger] enc_cache(cache) == s
}

/// The bytes of a record are read back as that record.
pub proof fn lemma_cache_written(cache: CacheView)
    requires
        cache_fits(cache),
    ensures
        parse_cache(enc_cache(cache)) == Some(cache),
{
    lemma_changes_written(cache.diff, enc_checksums(cache.sums));
    lemma_checksums_written(cache.sums, Seq::empty());
    assert(enc_checksums(cache.sums) + Seq::<u8>::empty() =~= enc_checksums(cache.sums));
}

/// Bytes that are read as a record are the bytes of that record.
pub proof fn lemma_cache_read(s: Seq<u8>)
    ensures
        parse_cache(s) matches Some(cache) ==> s == enc_cache(cache) && cache_fits(cache),
{
    lemma_changes_read(s);
    if let Some((diff, rest)) = parse_changes(s) {
        lemma_checksums_read(rest);
        if let Some((sums, tail)) = parse_checksums(rest) {
            if tail.len() == 0 {
                assert(rest =~= enc_checksums(sums));
            }
        }
    }
}

/// Two records with the same bytes are the same record.
pub proof fn lemma_cache_bytes_unique(a: CacheView, b: CacheView)
    requires
        cache_fits(a),
        cache_fits(b),
        enc_cache(a) == enc_cache(b),
    ensures
        a == b,
{
    lemma_cache_written(a);
    lemma_cache_written(b);
}

/// Bytes are those of a record exactly where they are read as one.
pub proof fn lemma_is_record(s: Seq<u8>)
    ensures
        is_record(s) <==> parse_cache(s) is Some,
{
    if is_record(s) {
        let cache = choose|cache: CacheView| cache_fits(cache) && #[trigger] enc_cache(cache) == s;
        lemma_cache_written(cache);
    }
    if let Some(cache) = parse_cache(s) {
        lemma_cache_read(s);
        assert(cache_fits(cache) && enc_cache(cache) == s);
    }
}

/// The bytes of a record cut short are not the bytes of any record.
pub proof fn lemma_truncated_is_no_record(cache: CacheView, cut: int)
    requires
        cache_fits(cache),
        0 <= cut < enc_cache(cache).len(),
    ensures
        !is_record(enc_cache(cache).take(cut)),
{
    let whole = enc_cache(cache);
    let part = whole.take(cut);
    if is_record(part) {
        let other = choose|other: CacheView| cache_fits(other) && #[trigger] enc_cache(other) == part;
        let rest = whole.skip(cut);
        assert(whole =~= part + rest);
        let after_changes = enc_checksums(other.sums) + rest;
        assert(whole =~= enc_changes(other.diff) + after_changes);
        lemma_changes_written(other.diff, after_changes);
        lemma_checksums_written(other.sums, rest);
        lemma_cache_written(cache);
    }
}

/// Bytes that go on after a record are not the bytes of any record.
pub proof fn lemma_extended_is_no_record(cache: CacheView, more: Seq<u8>)
    requires
        cache_fits(cache),
        more.len() > 0,
    ensures
        !is_record(enc_cache(cache) + more),
{
    let whole = enc_cache(cache) + more;
    if is_record(whole) {
        let other = choose|other: CacheView| cache_fits(other) && #[trigger] enc_cache(other) == whole;
        let after_changes = enc_checksums(cache.sums) + more;
        assert(whole =~= enc_changes(cache.diff) + after_changes);
        lemma_changes_written(cache.diff, after_changes);
        lemma_checksums_written(cache.sums, more);
        lemma_cache_written(other);
    }
}

/// Why no record could be loaded. `E` is the error of the reader.
#[derive(Debug, PartialEq, Eq)]
pub enum LoadError<E> {
    /// The bytes could not be read.
    Read(E),
    /// The bytes are not those of a record.
    Decode,
}

impl Cache {
    /// The bytes of the record, to be written where it is kept.
    pub fn save(&self) -> (bytes: Vec<u8>)
        ensures
            bytes@ == enc_cache(self@),
            cache_fits(self@),
    {
        let mut out: Vec<u8> = Vec::new();
        put_changes(&mut out, self.diff.as_slice());
        self.sums.encode_into(&mut out);
        assert(out@ =~= enc_cache(self@));
        out
    }

    /// The record that the given bytes are; `None` where they are not the
    /// bytes of any record, be it that they end early, go on after the
    /// record, or hold a kind or a text that the format does not know.
    pub fn decode(bytes: &[u8]) -> (cache: Option<Self>)
        ensures
            cache is Some <==> is_record(bytes@),
            cache matches Some(c) ==> enc_cache(c@) == bytes@,
    {
        proof {
            lemma_is_record(bytes@);
            lemma_cache_read(bytes@);
            assert(bytes@.skip(0) =~= bytes@);
        }
        match take_changes(bytes, 0) {
            None => None,
            Some((diff, pos)) => match take_checksums(bytes, pos) {
                None => None,
                Some((sums, end)) => {
                    if end == bytes.len() {
                        Some(Cache { diff, sums })
                    } else {
                        None
                    }
                },
            },
        }
    }

    /// The record in what was read from where it is kept.
    ///
    /// A failure of the reader is handed back as [`LoadError::Read`]; bytes
    /// that are not those of a record give [`LoadError::Decode`].
    pub fn load<E>(read: Result<Vec<u8>, E>) -> (cache: Result<Self, LoadError<E>>)
        ensures
            match read {
                Ok(bytes) => if is_record(bytes@) {
                    cache is Ok && enc_cache(cache->Ok_0@) == bytes@
                } else {
                    cache == Err::<Self, LoadError<E>>(LoadError::Decode)
                },
                Err(error) => cache == Err::<Self, LoadError<E>>(LoadError::Read(error)),
            },
    {
        match read {
            Ok(bytes) => match Cache::decode(bytes.as_slice()) {
                Some(cache) => Ok(cache),
                None => Err(LoadError::Decode),
            },
            Err(error) => Err(LoadError::Read(error)),
        }
    }

    /// The record in what was read from the first place, or else, whatever
    /// went wrong there, what [`Cache::load`] gives for the second place.
    pub fn load_with_fallback<E>(primary: Result<Vec<u8>, E>, fallback: Result<Vec<u8>, E>) -> (cache:
        Result<Self, LoadError<E>>)
        ensures
            match primary {
                Ok(bytes) if is_record(bytes@) => cache is Ok && enc_cache(cache->Ok_0@) == bytes@,
                _ => match fallback {
                    Ok(bytes) => if is_record(bytes@) {
                        cache is Ok && enc_cache(cache->Ok_0@) == bytes@
                    } else {
                        cache == Err::<Self, LoadError<E>>(LoadError::Decode)
                    },
                    Err(error) => cache == Err::<Self, LoadError<E>>(LoadError::Read(error)),
                },
            },
    {
        match Cache::load(primary) {
            Ok(cache) => Ok(cache),
            Err(_) => Cache::load(fallback),
        }
    }
}

} // verus!
