//! Checksums of the watched files and the signature of the whole list.
//!
//! The list keeps the order in which the files were given: the signature
//! and the comparison of two lists both depend on it.

use crate::bytes::same_bytes;
use crate::codec::{
    enc_field, enc_list, enc_text, enc_u32, enc_u64, lemma_field_read, lemma_field_written,
    lemma_items_fail, lemma_items_one_more, lemma_items_push, lemma_items_read,
    lemma_items_written, lemma_text_read, lemma_text_written, lemma_u32, lemma_u64, parse_field,
    parse_items, parse_list, parse_text, parse_u32, parse_u64, put_field, put_text, put_u32,
    put_u64, take_field, take_text, take_u32, take_u64, enc_items,
};
use vstd::utf8::encode_utf8;
use vstd::prelude::*;

verus! {

/// What `crypto_hash::hex_digest` returns for the SHA-1 algorithm and the
/// bytes `data`: the digest in hexadecimal.
pub uninterp spec fn sha1_hex(data: Seq<u8>) -> Seq<char>;

/// Every character is one of `0` to `9` and `a` to `f`.
pub open spec fn is_lower_hex(text: Seq<char>) -> bool {
    forall|i: int|
        0 <= i < text.len() ==> ('0' <= #[trigger] text[i] <= '9') || ('a' <= text[i] <= 'f')
}

/// Calls `crypto_hash::hex_digest` with the SHA-1 algorithm. Two things are
/// taken on trust: that the digest depends on the bytes alone, and that it
/// is written in lower-case hexadecimal digits, as the `hex` crate, through
/// which `crypto_hash` writes it, does.
#[verifier::external_body]
fn hex_sha1(data: &[u8]) -> (digest: String)
    ensures
        digest@ == sha1_hex(data@),
        is_lower_hex(digest@),
{
    crypto_hash::hex_digest(crypto_hash::Algorithm::SHA1, data)
}

/// The hexadecimal SHA-1 digest of the bytes of a file.
#[derive(Debug, PartialEq, Eq)]
pub struct Sha1(pub String);

impl View for Sha1 {
    type V = Seq<char>;

    open spec fn view(&self) -> Seq<char> {
        self.0@
    }
}

impl Clone for Sha1 {
    fn clone(&self) -> (copy: Self)
        ensures
            copy@ == self@,
    {
        Sha1(self.0.clone())
    }
}

impl Sha1 {
    /// The digest of the given bytes.
    pub fn from(contents: &[u8]) -> (sha1: Self)
        ensures
            sha1@ == sha1_hex(contents@),
            is_lower_hex(sha1@),
    {
        Sha1(hex_sha1(contents))
    }
}

/// What reading one watched file gave. `E` is the error of the reader; it is
/// handed back as it came.
pub enum FileRead<E> {
    /// The bytes of the file.
    Contents(Vec<u8>),
    /// There is no such file.
    NotFound,
    /// Reading failed for another reason.
    Failed(E),
}

/// The checksum of one watched file, or the note that the file is missing.
#[derive(Debug, PartialEq, Eq)]
pub enum Checksum {
    /// The path of the file and the digest of its bytes.
    Found(Vec<u8>, Sha1),
    /// The path of a file that does not exist.
    NotFound(Vec<u8>),
}

/// A [`Checksum`] as a mathematical value.
pub enum ChecksumView {
    Found(Seq<u8>, Seq<char>),
    NotFound(Seq<u8>),
}

impl View for Checksum {
    type V = ChecksumView;

    open spec fn view(&self) -> ChecksumView {
        match self {
            Checksum::Found(path, sha1) => ChecksumView::Found(path@, sha1@),
            Checksum::NotFound(path) => ChecksumView::NotFound(path@),
        }
    }
}

impl Clone for Checksum {
    fn clone(&self) -> (copy: Self)
        ensures
            copy@ == self@,
    {
        match self {
            Checksum::Found(path, sha1) => Checksum::Found(path.clone(), sha1.clone()),
            Checksum::NotFound(path) => Checksum::NotFound(path.clone()),
        }
    }
}

/// The entry for a file at `path` whose reading gave `read`, where the
/// reading did not fail.
pub open spec fn checksum_of<E>(path: Seq<u8>, read: FileRead<E>) -> ChecksumView {
    match read {
        FileRead::Contents(data) => ChecksumView::Found(path, sha1_hex(data@)),
        _ => ChecksumView::NotFound(path),
    }
}

impl Checksum {
    /// The entry for the file at `path`, from what reading it gave.
    ///
    /// A missing file is no error: it gives `NotFound`. Any other failure of
    /// the reader is handed back.
    pub fn from<E>(path: Vec<u8>, read: FileRead<E>) -> (sum: Result<Self, E>)
        ensures
            match read {
                FileRead::Failed(error) => sum == Err::<Self, E>(error),
                _ => sum is Ok && sum->Ok_0@ == checksum_of(path@, read),
            },
    {
        match read {
            FileRead::Contents(data) => Ok(Checksum::Found(path, Sha1::from(data.as_slice()))),
            FileRead::NotFound => Ok(Checksum::NotFound(path)),
            FileRead::Failed(error) => Err(error),
        }
    }

    /// The path of the file.
    pub open spec fn path_spec(self) -> Seq<u8> {
        match self@ {
            ChecksumView::Found(path, _) => path,
            ChecksumView::NotFound(path) => path,
        }
    }

    /// The path of the file.
    pub fn path(&self) -> (path: &Vec<u8>)
        ensures
            path@ == self.path_spec(),
    {
        match self {
            Checksum::Found(path, _) => path,
            Checksum::NotFound(path) => path,
        }
    }

    /// Whether two entries name the same path with the same outcome.
    pub fn same(&self, other: &Checksum) -> (same: bool)
        ensures
            same == (self@ == other@),
    {
        match (self, other) {
            (Checksum::Found(p, s), Checksum::Found(q, t)) => {
                same_bytes(p.as_slice(), q.as_slice()) && s.0 == t.0
            },
            (Checksum::NotFound(p), Checksum::NotFound(q)) => same_bytes(
                p.as_slice(),
                q.as_slice(),
            ),
            _ => false,
        }
    }
}

/// A list of entries as mathematical values.
pub open spec fn checksum_views(sums: Seq<Checksum>) -> Seq<ChecksumView> {
    sums.map_values(|c: Checksum| c@)
}

/// The checksums of the watched files, in the order the files were given.
#[derive(Debug, PartialEq, Eq)]
pub struct Checksums(pub(crate) Vec<Checksum>);

impl View for Checksums {
    type V = Seq<ChecksumView>;

    closed spec fn view(&self) -> Seq<ChecksumView> {
        checksum_views(self.0@)
    }
}

/// The entries for a list of files with what reading each gave.
pub open spec fn listed<E>(files: Seq<(Vec<u8>, FileRead<E>)>) -> Seq<ChecksumView> {
    Seq::new(files.len(), |i: int| checksum_of(files[i].0@, files[i].1))
}

/// No reading before place `upto` has failed.
pub open spec fn none_failed<E>(reads: Seq<(Vec<u8>, FileRead<E>)>, upto: int) -> bool {
    forall|i: int| 0 <= i < upto ==> !((#[trigger] reads[i]).1 is Failed)
}

impl Checksums {
    /// The list for the given files, each with what reading it gave.
    ///
    /// Missing files are entered as `NotFound`. The first reading that
    /// failed otherwise ends the work, and its error is handed back.
    pub fn from<E>(files: Vec<(Vec<u8>, FileRead<E>)>) -> (sums: Result<Self, E>)
        ensures
            sums is Ok <==> none_failed(files@, files@.len() as int),
            sums matches Ok(list) ==> list@ == listed(files@),
            sums matches Err(error) ==> exists|i: int|
                0 <= i < files@.len() && none_failed(files@, i) && (#[trigger] files@[i]).1
                    == FileRead::Failed(error),
    {
        let mut list: Vec<Checksum> = Vec::new();
        let ghost all = files@;
        for entry in it: files
            invariant
                all == it.seq(),
                list.len() == it.index(),
                none_failed(all, it.index() as int),
                forall|i: int|
                    0 <= i < list.len() ==> (#[trigger] list[i])@ == checksum_of(
                        all[i].0@,
                        all[i].1,
                    ),
        {
            let (path, read) = entry;
            match Checksum::from(path, read) {
                Ok(sum) => {
                    list.push(sum);
                },
                Err(error) => {
                    return Err(error);
                },
            }
        }
        let sums = Checksums(list);
        assert(sums@ =~= listed(files@));
        Ok(sums)
    }

    /// The entries, in order.
    pub fn as_slice(&self) -> (entries: &[Checksum])
        ensures
            checksum_views(entries@) == self@,
    {
        self.0.as_slice()
    }

    /// The list as a vector of its entries, in order.
    pub fn into_vec(self) -> (entries: Vec<Checksum>)
        ensures
            checksum_views(entries@) == self@,
    {
        self.0
    }
}

/// Whether two lists hold the same entries in the same order.
pub fn equal(a: &Checksums, b: &Checksums) -> (same: bool)
    ensures
        same == (a@ == b@),
{
    if a.0.len() != b.0.len() {
        assert(a@.len() != b@.len());
        return false;
    }
    let mut i: usize = 0;
    while i < a.0.len()
        invariant
            i <= a.0.len(),
            a.0.len() == b.0.len(),
            forall|j: int| 0 <= j < i ==> a@[j] == b@[j],
        decreases a.0.len() - i,
    {
        if !a.0[i].same(&b.0[i]) {
            assert(a@[i as int] != b@[i as int]);
            return false;
        }
        i += 1;
    }
    assert(a@ =~= b@);
    true
}

/// One entry as bytes: the number 0, the path and the digest for a file
/// that was found; the number 1 and the path for one that was not.
pub open spec fn enc_checksum(sum: ChecksumView) -> Seq<u8> {
    match sum {
        ChecksumView::Found(path, digest) => enc_u32(0) + enc_field(path) + enc_text(digest),
        ChecksumView::NotFound(path) => enc_u32(1) + enc_field(path),
    }
}

/// Reads one entry from the front of `s`: the entry and what follows.
pub open spec fn parse_checksum(s: Seq<u8>) -> Option<(ChecksumView, Seq<u8>)> {
    match parse_u32(s) {
        Some((tag, rest)) => if tag == 0 {
            match parse_field(rest) {
                Some((path, rest)) => match parse_text(rest) {
                    Some((digest, rest)) => Some((ChecksumView::Found(path, digest), rest)),
                    None => None,
                },
                None => None,
            }
        } else if tag == 1 {
            match parse_field(rest) {
                Some((path, rest)) => Some((ChecksumView::NotFound(path), rest)),
                None => None,
            }
        } else {
            None
        },
        None => None,
    }
}

/// The lengths in the entry fit the 64 bits that the format gives them.
pub open spec fn checksum_fits(sum: ChecksumView) -> bool {
    match sum {
        ChecksumView::Found(path, digest) => path.len() <= u64::MAX && encode_utf8(digest).len()
            <= u64::MAX,
        ChecksumView::NotFound(path) => path.len() <= u64::MAX,
    }
}

/// The lengths in the list fit the 64 bits that the format gives them.
pub open spec fn checksums_fit(sums: Seq<ChecksumView>) -> bool {
    sums.len() <= u64::MAX && forall|i: int| 0 <= i < sums.len() ==> checksum_fits(#[trigger] sums[i])
}

/// How one entry is written.
pub open spec fn checksum_enc() -> spec_fn(ChecksumView) -> Seq<u8> {
    |sum: ChecksumView| enc_checksum(sum)
}

/// How one entry is read.
pub open spec fn checksum_parse() -> spec_fn(Seq<u8>) -> Option<(ChecksumView, Seq<u8>)> {
    |s: Seq<u8>| parse_checksum(s)
}

/// The canonical bytes of a list of entries: the number of entries, then
/// the entries in their order.
pub open spec fn enc_checksums(sums: Seq<ChecksumView>) -> Seq<u8> {
    enc_list(sums, checksum_enc())
}

/// Reads a list of entries from the front of `s`.
pub open spec fn parse_checksums(s: Seq<u8>) -> Option<(Seq<ChecksumView>, Seq<u8>)> {
    parse_list(s, checksum_parse())
}

/// The signature of a list of entries: the SHA-1 digest, in hexadecimal, of
/// its canonical bytes.
pub open spec fn signature(sums: Seq<ChecksumView>) -> Seq<char> {
    sha1_hex(enc_checksums(sums))
}

/// A written entry is read back.
pub proof fn lemma_checksum_written(sum: ChecksumView, rest: Seq<u8>)
    requires
        checksum_fits(sum),
    ensures
        parse_checksum(enc_checksum(sum) + rest) == Some((sum, rest)),
{
    match sum {
        ChecksumView::Found(path, digest) => {
            let after_path = enc_text(digest) + rest;
            let after_tag = enc_field(path) + after_path;
            assert(enc_checksum(sum) + rest =~= enc_u32(0) + after_tag);
            lemma_u32(0, Seq::empty(), after_tag);
            lemma_field_written(path, after_path);
            lemma_text_written(digest, rest);
        },
        ChecksumView::NotFound(path) => {
            let after_tag = enc_field(path) + rest;
            assert(enc_checksum(sum) + rest =~= enc_u32(1) + after_tag);
            lemma_u32(1, Seq::empty(), after_tag);
            lemma_field_written(path, rest);
        },
    }
}

/// What is read as an entry was written as one.
pub proof fn lemma_checksum_read(s: Seq<u8>)
    ensures
        parse_checksum(s) matches Some((sum, tail)) ==> s == enc_checksum(sum) + tail
            && checksum_fits(sum),
{
    lemma_u32(0, s, Seq::empty());
    if let Some((tag, rest)) = parse_u32(s) {
        lemma_field_read(rest);
        if let Some((path, after_path)) = parse_field(rest) {
            lemma_text_read(after_path);
            if tag == 0 {
                if let Some((digest, tail)) = parse_text(after_path) {
                    assert(s =~= enc_u32(0) + enc_field(path) + enc_text(digest) + tail);
                }
            } else if tag == 1 {
                assert(s =~= enc_u32(1) + enc_field(path) + after_path);
            }
        }
    }
}

/// A written list of entries is read back.
pub proof fn lemma_checksums_written(sums: Seq<ChecksumView>, rest: Seq<u8>)
    requires
        checksums_fit(sums),
    ensures
        parse_checksums(enc_checksums(sums) + rest) == Some((sums, rest)),
{
    let enc = checksum_enc();
    let parse = checksum_parse();
    let items = enc_items(sums, enc) + rest;
    assert(enc_checksums(sums) + rest =~= enc_u64(sums.len() as u64) + items);
    lemma_u64(sums.len() as u64, Seq::empty(), items);
    assert forall|i: int, tail: Seq<u8>| 0 <= i < sums.len() implies #[trigger] parse(
        enc(sums[i]) + tail,
    ) == Some((sums[i], tail)) by {
        lemma_checksum_written(sums[i], tail);
    }
    lemma_items_written(sums, rest, enc, parse);
}

/// What is read as a list of entries was written as one.
pub proof fn lemma_checksums_read(s: Seq<u8>)
    ensures
        parse_checksums(s) matches Some((sums, tail)) ==> s == enc_checksums(sums) + tail
            && checksums_fit(sums),
{
    let enc = checksum_enc();
    let parse = checksum_parse();
    lemma_u64(0, s, Seq::empty());
    if let Some((count, rest)) = parse_u64(s) {
        assert forall|t: Seq<u8>|
            (#[trigger] parse(t)) matches Some((item, tail)) ==> t == enc(item) + tail by {
            lemma_checksum_read(t);
        }
        lemma_items_read(count as nat, rest, enc, parse);
        if let Some((sums, tail)) = parse_items(count as nat, rest, parse) {
            assert(s =~= enc_checksums(sums) + tail);
            lemma_items_fit(count as nat, rest);
        }
    }
}

/// The entries that are read have lengths that fit.
proof fn lemma_items_fit(count: nat, s: Seq<u8>)
    ensures
        parse_items(count, s, checksum_parse()) matches Some((sums, tail)) ==> forall|i: int|
            0 <= i < sums.len() ==> checksum_fits(#[trigger] sums[i]),
    decreases count,
{
    let parse = checksum_parse();
    if count > 0 {
        if let Some((item, rest)) = parse(s) {
            lemma_checksum_read(s);
            lemma_items_fit((count - 1) as nat, rest);
            if let Some((items, tail)) = parse_items((count - 1) as nat, rest, parse) {
                let all = seq![item] + items;
                assert forall|i: int| 0 <= i < all.len() implies checksum_fits(
                    #[trigger] all[i],
                ) by {
                    if i > 0 {
                        assert(all[i] == items[i - 1]);
                    }
                }
            }
        }
    }
}

impl Checksum {
    /// Appends the entry to `out`, as bytes.
    pub fn encode_into(&self, out: &mut Vec<u8>)
        ensures
            final(out)@ == old(out)@ + enc_checksum(self@),
            checksum_fits(self@),
    {
        match self {
            Checksum::Found(path, sha1) => {
                put_u32(out, 0);
                put_field(out, path.as_slice());
                put_text(out, sha1.0.as_str());
                assert(out@ =~= old(out)@ + enc_checksum(self@));
            },
            Checksum::NotFound(path) => {
                put_u32(out, 1);
                put_field(out, path.as_slice());
                assert(out@ =~= old(out)@ + enc_checksum(self@));
            },
        }
    }
}

/// Reads one entry at `pos`: the entry and the position after it, or `None`
/// where no entry stands there.
pub(crate) fn take_checksum(bytes: &[u8], pos: usize) -> (read: Option<(Checksum, usize)>)
    requires
        pos <= bytes.len(),
    ensures
        match read {
            Some((sum, next)) => pos <= next <= bytes.len() && parse_checksum(
                bytes@.skip(pos as int),
            ) == Some((sum@, bytes@.skip(next as int))),
            None => parse_checksum(bytes@.skip(pos as int)) is None,
        },
{
    match take_u32(bytes, pos) {
        None => None,
        Some((tag, pos)) => {
            if tag == 0 {
                match take_field(bytes, pos) {
                    None => None,
                    Some((path, pos)) => match take_text(bytes, pos) {
                        None => None,
                        Some((digest, pos)) => Some((Checksum::Found(path, Sha1(digest)), pos)),
                    },
                }
            } else if tag == 1 {
                match take_field(bytes, pos) {
                    None => None,
                    Some((path, pos)) => Some((Checksum::NotFound(path), pos)),
                }
            } else {
                None
            }
        },
    }
}

/// Reads a list of entries at `pos`: the list and the position after it, or
/// `None` where no list stands there.
pub(crate) fn take_checksums(bytes: &[u8], pos: usize) -> (read: Option<(Checksums, usize)>)
    requires
        pos <= bytes.len(),
    ensures
        match read {
            Some((sums, next)) => pos <= next <= bytes.len() && parse_checksums(
                bytes@.skip(pos as int),
            ) == Some((sums@, bytes@.skip(next as int))),
            None => parse_checksums(bytes@.skip(pos as int)) is None,
        },
{
    match take_u64(bytes, pos) {
        None => None,
        Some((count, start)) => {
            let ghost items = bytes@.skip(start as int);
            let ghost parse = checksum_parse();
            let mut list: Vec<Checksum> = Vec::new();
            let mut at: usize = start;
            let mut n: u64 = 0;
            while n < count
                invariant
                    n <= count,
                    start <= at <= bytes.len(),
                    items == bytes@.skip(start as int),
                    parse == checksum_parse(),
                    parse_u64(bytes@.skip(pos as int)) == Some((count, items)),
                    parse_items(n as nat, items, parse) == Some(
                        (checksum_views(list@), bytes@.skip(at as int)),
                    ),
                decreases count - n,
            {
                proof {
                    lemma_items_one_more(n as nat, items, parse);
                }
                match take_checksum(bytes, at) {
                    None => {
                        proof {
                            lemma_items_fail((n + 1) as nat, count as nat, items, parse);
                        }
                        return None;
                    },
                    Some((sum, next)) => {
                        let ghost shorter = checksum_views(list@);
                        list.push(sum);
                        assert(checksum_views(list@) =~= shorter.push(sum@));
                        at = next;
                    },
                }
                n += 1;
            }
            Some((Checksums(list), at))
        },
    }
}

impl Checksums {
    /// The canonical bytes of the list: the number of entries, then the
    /// entries in their order.
    pub fn encode(&self) -> (bytes: Vec<u8>)
        ensures
            bytes@ == enc_checksums(self@),
            checksums_fit(self@),
    {
        let mut out: Vec<u8> = Vec::new();
        self.encode_into(&mut out);
        assert(out@ =~= enc_checksums(self@));
        out
    }

    /// Appends the canonical bytes of the list to `out`.
    pub fn encode_into(&self, out: &mut Vec<u8>)
        ensures
            final(out)@ == old(out)@ + enc_checksums(self@),
            checksums_fit(self@),
    {
        let ghost enc = checksum_enc();
        put_u64(out, self.0.len() as u64);
        let ghost start = out@;
        let mut i: usize = 0;
        assert(self@.take(0) =~= Seq::<ChecksumView>::empty());
        while i < self.0.len()
            invariant
                i <= self.0.len(),
                enc == checksum_enc(),
                out@ == start + enc_items(self@.take(i as int), enc),
                forall|j: int| 0 <= j < i ==> checksum_fits(#[trigger] self@[j]),
            decreases self.0.len() - i,
        {
            let ghost before = out@;
            self.0[i].encode_into(out);
            proof {
                lemma_items_push(self@.take(i as int), self@[i as int], enc);
                assert(self@.take(i + 1) =~= self@.take(i as int).push(self@[i as int]));
                assert(out@ =~= start + enc_items(self@.take(i + 1), enc));
            }
            i += 1;
        }
        proof {
            assert(self@.take(self.0.len() as int) =~= self@);
            assert(out@ =~= old(out)@ + enc_checksums(self@));
        }
    }

    /// The signature of the list: the SHA-1 digest, in hexadecimal, of its
    /// canonical bytes. Lists with the same entries in the same order have
    /// the same signature.
    pub fn sig(&self) -> (sig: String)
        ensures
            sig@ == signature(self@),
            is_lower_hex(sig@),
    {
        let bytes = self.encode();
        hex_sha1(bytes.as_slice())
    }
}

/// Two readings gave the same: the same bytes, or both no file, or both a
/// failure.
pub open spec fn same_outcome<E>(one: FileRead<E>, two: FileRead<E>) -> bool {
    match (one, two) {
        (FileRead::Contents(a), FileRead::Contents(b)) => a@ == b@,
        (FileRead::NotFound, FileRead::NotFound) => true,
        (FileRead::Failed(_), FileRead::Failed(_)) => true,
        _ => false,
    }
}

/// The signature is a function of the files and their contents: two lists
/// of the same paths in the same order, read with the same outcomes, have
/// the same entries and the same signature.
pub proof fn lemma_signature_deterministic<E>(
    one: Seq<(Vec<u8>, FileRead<E>)>,
    two: Seq<(Vec<u8>, FileRead<E>)>,
)
    requires
        one.len() == two.len(),
        forall|i: int|
            0 <= i < one.len() ==> (#[trigger] one[i]).0@ == two[i].0@ && same_outcome(
                one[i].1,
                two[i].1,
            ),
    ensures
        listed(one) == listed(two),
        signature(listed(one)) == signature(listed(two)),
{
    assert forall|i: int| 0 <= i < one.len() implies listed(one)[i] == listed(two)[i] by {
        assert(one[i].0@ == two[i].0@ && same_outcome(one[i].1, two[i].1));
    }
    assert(listed(one) =~= listed(two));
}

/// Lists that differ in an entry, in the order or in the number of entries
/// have different canonical bytes: what is hashed for the signature changes
/// with any change of a path, a digest or the presence of a file.
pub proof fn lemma_canonical_bytes_differ(one: Seq<ChecksumView>, two: Seq<ChecksumView>)
    requires
        checksums_fit(one),
        checksums_fit(two),
        one != two,
    ensures
        enc_checksums(one) != enc_checksums(two),
{
    lemma_checksums_written(one, Seq::empty());
    lemma_checksums_written(two, Seq::empty());
}

/// Exchanging two entries that differ gives another list: lists with the
/// same entries in another order are not equal.
pub proof fn lemma_reordered_is_unequal(sums: Seq<ChecksumView>, i: int, j: int)
    requires
        0 <= i < sums.len(),
        0 <= j < sums.len(),
        sums[i] != sums[j],
    ensures
        sums.update(i, sums[j]).update(j, sums[i]) != sums,
{
    let reordered = sums.update(i, sums[j]).update(j, sums[i]);
    assert(reordered[j] == sums[i]);
}

} // verus!
