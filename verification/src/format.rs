//! The format of an override file.
//!
//! A file is a run of lines, each ended by a newline byte; what follows the
//! last newline is a line too, unless it is empty. A line with a `=` in it is
//! an entry: the key stands before the first `=`, the value after it, both
//! taken as they are. Any other line says nothing. An entry with an empty
//! value unsets its key.

use vstd::prelude::*;
use vstd::slice::slice_subrange;
use vstd::utf8::valid_utf8;
use crate::bytes::{copy_bytes, find_byte, first_index, lemma_first_index, same_bytes};
use crate::cache::Cache;

verus! {

/// The byte between a key and its value: `=`.
pub const SEPARATOR: u8 = 61;

/// The byte that ends a line.
pub const NEWLINE: u8 = 10;

/// Which byte strings the platform takes as names and values.
#[derive(Clone, Copy, PartialEq, Eq, Debug)]
pub enum Decoding {
    /// Every byte string is one: keys and values are kept as they stand.
    Native,
    /// Only UTF-8 text is one: an entry whose key or value is no valid UTF-8
    /// is passed over.
    Utf8,
}

/// Whether `bytes` can be a name or a value under `decoding`.
pub open spec fn decodes(decoding: Decoding, bytes: Seq<u8>) -> bool {
    decoding is Native || valid_utf8(bytes)
}

/// What an entry with this value stores: nothing where the value is empty.
pub open spec fn stored(value: Seq<u8>) -> Option<Seq<u8>> {
    if value.len() == 0 {
        None
    } else {
        Some(value)
    }
}

/// The part of `line` before the separator at `at`.
pub open spec fn key_part(line: Seq<u8>, at: int) -> Seq<u8> {
    line.subrange(0, at)
}

/// The part of `line` after the separator at `at`.
pub open spec fn value_part(line: Seq<u8>, at: int) -> Seq<u8> {
    line.subrange(at + 1, line.len() as int)
}

/// The entry that a line holds: its key and what it stores for it. A line
/// without separator holds none, nor does one whose key or value does not
/// decode.
pub open spec fn entry_of(decoding: Decoding, line: Seq<u8>) -> Option<(Seq<u8>, Option<Seq<u8>>)> {
    match first_index(line, SEPARATOR) {
        Some(at) => if decodes(decoding, key_part(line, at)) && decodes(
            decoding,
            value_part(line, at),
        ) {
            Some((key_part(line, at), stored(value_part(line, at))))
        } else {
            None
        },
        None => None,
    }
}

/// The lines of a text. With `last`, what follows the last newline counts as
/// a line unless it is empty; without, only lines that a newline ends count.
pub open spec fn split_lines(text: Seq<u8>, last: bool) -> Seq<Seq<u8>>
    decreases text.len(),
    via split_lines_shortens
{
    if text.len() == 0 {
        Seq::empty()
    } else {
        match first_index(text, NEWLINE) {
            Some(at) => seq![text.subrange(0, at)] + split_lines(
                text.subrange(at + 1, text.len() as int),
                last,
            ),
            None => if last {
                seq![text]
            } else {
                Seq::empty()
            },
        }
    }
}

/// What follows the first newline of a text is shorter than the text.
#[via_fn]
proof fn split_lines_shortens(text: Seq<u8>, last: bool) {
    lemma_first_index(text, NEWLINE);
}

/// What became of an override file when it was read.
#[derive(Debug, PartialEq, Eq)]
pub enum Source {
    /// It could not be opened.
    Missing,
    /// It was read to its end.
    Whole(Vec<u8>),
    /// A read failed after these bytes.
    Partial(Vec<u8>),
}

impl View for Source {
    type V = Seq<Seq<u8>>;

    /// The lines that the source offers: none where the file could not be
    /// opened, all its lines where it was read to its end, and the lines read
    /// in full before the failure where a read failed.
    open spec fn view(&self) -> Seq<Seq<u8>> {
        match self {
            Source::Missing => Seq::empty(),
            Source::Whole(text) => split_lines(text@, true),
            Source::Partial(text) => split_lines(text@, false),
        }
    }
}

/// A cache after some lines were scanned for a name, and whether the scan
/// came upon an entry for the name.
pub struct Scanned {
    pub cache: Map<Seq<u8>, Option<Seq<u8>>>,
    pub found: bool,
}

/// Scanning one line: its entry, if it holds one, is cached, and the name is
/// found where the entry's key is the name.
pub open spec fn scan_line(
    cache: Map<Seq<u8>, Option<Seq<u8>>>,
    decoding: Decoding,
    name: Seq<u8>,
    line: Seq<u8>,
) -> Scanned {
    match entry_of(decoding, line) {
        Some((key, value)) => Scanned { cache: cache.insert(key, value), found: key == name },
        None => Scanned { cache, found: false },
    }
}

/// Scanning lines in order, up to and with the first that holds an entry for
/// the name. The entries come upon on the way are cached, whatever their key.
pub open spec fn scan_lines(
    cache: Map<Seq<u8>, Option<Seq<u8>>>,
    decoding: Decoding,
    name: Seq<u8>,
    lines: Seq<Seq<u8>>,
) -> Scanned
    decreases lines.len(),
{
    if lines.len() == 0 {
        Scanned { cache, found: false }
    } else {
        let first = scan_line(cache, decoding, name, lines[0]);
        if first.found {
            first
        } else {
            scan_lines(first.cache, decoding, name, lines.drop_first())
        }
    }
}

/// A scan that found the name has cached it.
pub proof fn lemma_found_is_cached(
    cache: Map<Seq<u8>, Option<Seq<u8>>>,
    decoding: Decoding,
    name: Seq<u8>,
    lines: Seq<Seq<u8>>,
)
    ensures
        scan_lines(cache, decoding, name, lines).found ==> scan_lines(
            cache,
            decoding,
            name,
            lines,
        ).cache.contains_key(name),
    decreases lines.len(),
{
    if lines.len() > 0 {
        let first = scan_line(cache, decoding, name, lines[0]);
        if !first.found {
            lemma_found_is_cached(first.cache, decoding, name, lines.drop_first());
        }
    }
}

/// Caches `value` for `key`, or that `key` is unset where `value` is empty.
pub fn insert_key_value(cache: &mut Cache, key: &[u8], value: &[u8])
    ensures
        final(cache)@ == old(cache)@.insert(key@, stored(value@)),
{
    if value.len() == 0 {
        cache.insert(copy_bytes(key), None);
    } else {
        cache.insert(copy_bytes(key), Some(copy_bytes(value)));
    }
}

/// Caches the entry of `line`, whose separator stands at `at`, where both
/// its key and its value are valid UTF-8, and says whether it did.
pub(crate) fn insert_text_key_value(
    cache: &mut Cache,
    line: &[u8],
    at: usize,
) -> (inserted: bool)
    requires
        at < line@.len(),
    ensures
        inserted == (valid_utf8(key_part(line@, at as int)) && valid_utf8(
            value_part(line@, at as int),
        )),
        inserted ==> final(cache)@ == old(cache)@.insert(
            key_part(line@, at as int),
            stored(value_part(line@, at as int)),
        ),
        !inserted ==> final(cache)@ == old(cache)@,
{
    let len = line.len();
    let key = slice_subrange(line, 0, at);
    let value = slice_subrange(line, at + 1, len);
    match core::str::from_utf8(key) {
        Ok(_) => {},
        Err(_) => {
            return false;
        },
    }
    match core::str::from_utf8(value) {
        Ok(_) => {},
        Err(_) => {
            return false;
        },
    }
    insert_key_value(cache, key, value);
    true
}

/// Scans one line for `name`.
pub(crate) fn scan_one_line(
    cache: &mut Cache,
    decoding: Decoding,
    name: &[u8],
    line: &[u8],
) -> (found: bool)
    ensures
        (Scanned { cache: final(cache)@, found }) == scan_line(
            old(cache)@,
            decoding,
            name@,
            line@,
        ),
{
    let at = match find_byte(line, SEPARATOR, 0) {
        Some(at) => at,
        None => {
            assert(line@.subrange(0, line@.len() as int) =~= line@);
            return false;
        },
    };
    assert(line@.subrange(0, line@.len() as int) =~= line@);
    match decoding {
        Decoding::Utf8 => {
            if !insert_text_key_value(cache, line, at) {
                return false;
            }
        },
        Decoding::Native => {
            let len = line.len();
            insert_key_value(cache, slice_subrange(line, 0, at), slice_subrange(line, at + 1, len));
        },
    }
    same_bytes(slice_subrange(line, 0, at), name)
}

/// Scans the lines of `text` for `name`, in order, up to and with the first
/// that holds an entry for it.
pub(crate) fn scan_text(
    cache: &mut Cache,
    decoding: Decoding,
    name: &[u8],
    text: &[u8],
    last: bool,
) -> (found: bool)
    ensures
        (Scanned { cache: final(cache)@, found }) == scan_lines(
            old(cache)@,
            decoding,
            name@,
            split_lines(text@, last),
        ),
{
    let ghost whole = scan_lines(old(cache)@, decoding, name@, split_lines(text@, last));
    let mut start: usize = 0;
    assert(text@.subrange(0, text@.len() as int) =~= text@);
    while start < text.len()
        invariant
            start <= text@.len(),
            whole == scan_lines(old(cache)@, decoding, name@, split_lines(text@, last)),
            scan_lines(
                cache@,
                decoding,
                name@,
                split_lines(text@.subrange(start as int, text@.len() as int), last),
            ) == whole,
        decreases text@.len() - start,
    {
        let ghost rest = text@.subrange(start as int, text@.len() as int);
        let ghost lines = split_lines(rest, last);
        let newline = find_byte(text, NEWLINE, start);
        let end = match newline {
            Some(end) => end,
            None => {
                if !last {
                    return false;
                }
                text.len()
            },
        };
        let line = slice_subrange(text, start, end);
        let ghost after = if newline is Some {
            text@.subrange(end + 1, text@.len() as int)
        } else {
            Seq::<u8>::empty()
        };
        proof {
            if newline is Some {
                lemma_first_index(rest, NEWLINE);
                assert(rest.subrange(0, end - start) =~= line@);
                assert(rest.subrange(end - start + 1, rest.len() as int) =~= after);
                assert(lines == seq![line@] + split_lines(after, last));
            } else {
                assert(line@ =~= rest);
                assert(lines == seq![line@]);
                assert(split_lines(after, last) =~= Seq::<Seq<u8>>::empty());
                assert(lines =~= seq![line@] + split_lines(after, last));
            }
            assert(lines[0] == line@);
            assert(lines.drop_first() =~= split_lines(after, last));
        }
        if scan_one_line(cache, decoding, name, line) {
            return true;
        }
        if end < text.len() {
            start = end + 1;
        } else {
            start = end;
            assert(text@.subrange(start as int, text@.len() as int) =~= after);
        }
    }
    assert(text@.subrange(start as int, text@.len() as int).len() == 0);
    false
}

/// Scans what a source offers for `name`.
pub fn scan_source(
    cache: &mut Cache,
    decoding: Decoding,
    name: &[u8],
    source: &Source,
) -> (found: bool)
    ensures
        (Scanned { cache: final(cache)@, found }) == scan_lines(
            old(cache)@,
            decoding,
            name@,
            source@,
        ),
{
    match source {
        Source::Missing => false,
        Source::Whole(text) => scan_text(cache, decoding, name, text.as_slice(), true),
        Source::Partial(text) => scan_text(cache, decoding, name, text.as_slice(), false),
    }
}

} // verus!
