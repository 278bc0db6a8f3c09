//! What holds of every lookup and of every registration, proved from the
//! definitions of `resolve`, `registered` and `invalidated`.

use vstd::prelude::*;
use crate::bytes::{
    first_index,
    lemma_first_index,
    lemma_first_index_absent,
    lemma_first_index_found,
};
use crate::format::{
    decodes,
    entry_of,
    key_part,
    lemma_found_is_cached,
    scan_line,
    scan_lines,
    split_lines,
    stored,
    value_part,
    Decoding,
    Source,
    NEWLINE,
    SEPARATOR,
};
use crate::registry::{invalidated, registered};
use crate::resolve::{
    resolve,
    run,
    scan_files,
    settled,
    EventView,
    Resolved,
};

verus! {

// What a line says of a name.

/// Whether `line` holds an entry for `name`.
pub open spec fn defines(decoding: Decoding, name: Seq<u8>, line: Seq<u8>) -> bool {
    entry_of(decoding, line) matches Some(entry) && entry.0 == name
}

/// What the entry of `line` stores for its key.
pub open spec fn value_in(decoding: Decoding, line: Seq<u8>) -> Option<Seq<u8>> {
    match entry_of(decoding, line) {
        Some(entry) => entry.1,
        None => None,
    }
}

/// Whether none of `lines` holds an entry for `name`.
pub open spec fn silent(decoding: Decoding, name: Seq<u8>, lines: Seq<Seq<u8>>) -> bool {
    forall|j: int| 0 <= j < lines.len() ==> !defines(decoding, name, #[trigger] lines[j])
}

/// Whether the line at `at` is the first of `lines` to hold an entry for
/// `name`.
pub open spec fn first_entry_at(
    decoding: Decoding,
    name: Seq<u8>,
    lines: Seq<Seq<u8>>,
    at: int,
) -> bool {
    &&& 0 <= at < lines.len()
    &&& defines(decoding, name, lines[at])
    &&& forall|j: int| 0 <= j < at ==> !defines(decoding, name, #[trigger] lines[j])
}

/// Whether a scan of `lines` for `name` reads the first `end` lines and no
/// more: none but the last of them holds an entry for the name, and the last
/// of them holds one unless the lines end there.
pub open spec fn reads(decoding: Decoding, name: Seq<u8>, lines: Seq<Seq<u8>>, end: int) -> bool {
    &&& 0 <= end <= lines.len()
    &&& forall|j: int| 0 <= j < end - 1 ==> !defines(decoding, name, #[trigger] lines[j])
    &&& end < lines.len() ==> end > 0 && defines(decoding, name, lines[end - 1])
}

// The format of a file.

/// The first line of a text is what stands before its first newline, and
/// the other lines are those of what follows it.
pub proof fn law_first_line_of_text(line: Seq<u8>, rest: Seq<u8>, last: bool)
    requires
        !line.contains(NEWLINE),
    ensures
        split_lines(line + seq![NEWLINE] + rest, last) == seq![line] + split_lines(rest, last),
{
    let text = line + seq![NEWLINE] + rest;
    let at = line.len() as int;
    assert(text[at] == NEWLINE);
    assert forall|j: int| 0 <= j < at implies text[j] != NEWLINE by {
        assert(text[j] == line[j]);
        if line[j] == NEWLINE {
            assert(line.contains(NEWLINE));
        }
    }
    lemma_first_index_found(text, NEWLINE, at);
    assert(text.subrange(0, at) =~= line);
    assert(text.subrange(at + 1, text.len() as int) =~= rest);
}

/// A text without newline is one line where it is not empty and was read to
/// its end, and no line else.
pub proof fn law_text_without_newline(text: Seq<u8>, last: bool)
    requires
        !text.contains(NEWLINE),
    ensures
        split_lines(text, last) == if last && text.len() > 0 {
            seq![text]
        } else {
            Seq::<Seq<u8>>::empty()
        },
{
    assert forall|j: int| 0 <= j < text.len() implies text[j] != NEWLINE by {
        if text[j] == NEWLINE {
            assert(text.contains(NEWLINE));
        }
    }
    lemma_first_index_absent(text, NEWLINE);
}

/// A read that failed offers the lines of the text as far as it was read,
/// but for the line that the failure cut short.
pub proof fn law_failed_read_keeps_whole_lines(text: Seq<u8>)
    ensures
        split_lines(text, false) == if text.len() > 0 && text.last() != NEWLINE {
            split_lines(text, true).drop_last()
        } else {
            split_lines(text, true)
        },
        text.len() > 0 ==> split_lines(text, true).len() > 0,
    decreases text.len(),
{
    lemma_first_index(text, NEWLINE);
    if text.len() > 0 {
        match first_index(text, NEWLINE) {
            Some(at) => {
                let line = text.subrange(0, at);
                let rest = text.subrange(at + 1, text.len() as int);
                law_failed_read_keeps_whole_lines(rest);
                let whole = split_lines(rest, true);
                if rest.len() > 0 {
                    assert(rest.last() == text.last());
                    if rest.last() != NEWLINE {
                        assert((seq![line] + whole).drop_last() =~= seq![line] + whole.drop_last());
                    }
                } else {
                    assert(text.last() == text[at]);
                }
            },
            None => {
                assert(seq![text].drop_last() =~= Seq::<Seq<u8>>::empty());
            },
        }
    }
}

/// A line without separator holds no entry.
pub proof fn lemma_no_separator_no_entry(decoding: Decoding, line: Seq<u8>)
    requires
        !line.contains(SEPARATOR),
    ensures
        entry_of(decoding, line) is None,
{
    assert forall|j: int| 0 <= j < line.len() implies line[j] != SEPARATOR by {
        if line[j] == SEPARATOR {
            assert(line.contains(SEPARATOR));
        }
    }
    lemma_first_index_absent(line, SEPARATOR);
}

/// The key of an entry has no separator in it, and it decodes.
pub proof fn lemma_key_of_entry(decoding: Decoding, line: Seq<u8>)
    ensures
        entry_of(decoding, line) matches Some(entry) ==> !entry.0.contains(SEPARATOR) && decodes(
            decoding,
            entry.0,
        ),
{
    lemma_first_index(line, SEPARATOR);
    if let Some(entry) = entry_of(decoding, line) {
        let at = first_index(line, SEPARATOR)->0;
        let key = key_part(line, at);
        if key.contains(SEPARATOR) {
            let i = choose|i: int| 0 <= i < key.len() && key[i] == SEPARATOR;
            assert(line[i] == key[i]);
        }
    }
}

/// The line made of a key, a separator and a value holds that key with what
/// the value stores, where the key has no separator in it and both decode.
pub proof fn lemma_entry_of_pair(decoding: Decoding, key: Seq<u8>, value: Seq<u8>)
    requires
        !key.contains(SEPARATOR),
        decodes(decoding, key),
        decodes(decoding, value),
    ensures
        entry_of(decoding, key + seq![SEPARATOR] + value) == Some((key, stored(value))),
{
    let line = key + seq![SEPARATOR] + value;
    let at = key.len() as int;
    assert(line[at] == SEPARATOR);
    assert forall|j: int| 0 <= j < at implies line[j] != SEPARATOR by {
        assert(line[j] == key[j]);
        if key[j] == SEPARATOR {
            assert(key.contains(SEPARATOR));
        }
    }
    lemma_first_index_found(line, SEPARATOR, at);
    assert(key_part(line, at) =~= key);
    assert(value_part(line, at) =~= value);
}

// Scans.

/// Scanning lines that hold no entry for the name does not find it.
pub proof fn lemma_silent_lines(
    cache: Map<Seq<u8>, Option<Seq<u8>>>,
    decoding: Decoding,
    name: Seq<u8>,
    lines: Seq<Seq<u8>>,
)
    requires
        silent(decoding, name, lines),
    ensures
        !scan_lines(cache, decoding, name, lines).found,
    decreases lines.len(),
{
    if lines.len() > 0 {
        let rest = lines.drop_first();
        assert(!defines(decoding, name, lines[0]));
        assert forall|j: int| 0 <= j < rest.len() implies !defines(
            decoding,
            name,
            #[trigger] rest[j],
        ) by {
            assert(rest[j] == lines[j + 1]);
        }
        lemma_silent_lines(scan_line(cache, decoding, name, lines[0]).cache, decoding, name, rest);
    }
}

/// Scanning lines finds the name at the first line that holds an entry for
/// it, and leaves what that entry stores cached for the name.
pub proof fn lemma_first_entry(
    cache: Map<Seq<u8>, Option<Seq<u8>>>,
    decoding: Decoding,
    name: Seq<u8>,
    lines: Seq<Seq<u8>>,
    at: int,
)
    requires
        first_entry_at(decoding, name, lines, at),
    ensures
        scan_lines(cache, decoding, name, lines).found,
        scan_lines(cache, decoding, name, lines).cache.contains_key(name),
        scan_lines(cache, decoding, name, lines).cache[name] == value_in(decoding, lines[at]),
    decreases lines.len(),
{
    if at > 0 {
        let rest = lines.drop_first();
        assert(!defines(decoding, name, lines[0]));
        assert(rest[at - 1] == lines[at]);
        assert forall|j: int| 0 <= j < at - 1 implies !defines(
            decoding,
            name,
            #[trigger] rest[j],
        ) by {
            assert(rest[j] == lines[j + 1]);
        }
        lemma_first_entry(
            scan_line(cache, decoding, name, lines[0]).cache,
            decoding,
            name,
            rest,
            at - 1,
        );
    }
}

/// A scan leaves alone what is cached for a key that no line has an entry
/// for.
pub proof fn lemma_key_untouched(
    cache: Map<Seq<u8>, Option<Seq<u8>>>,
    decoding: Decoding,
    name: Seq<u8>,
    lines: Seq<Seq<u8>>,
    key: Seq<u8>,
)
    requires
        silent(decoding, key, lines),
    ensures
        scan_lines(cache, decoding, name, lines).cache.contains_key(key) == cache.contains_key(key),
        scan_lines(cache, decoding, name, lines).cache[key] == cache[key],
    decreases lines.len(),
{
    if lines.len() > 0 {
        let rest = lines.drop_first();
        assert(!defines(decoding, key, lines[0]));
        assert forall|j: int| 0 <= j < rest.len() implies !defines(
            decoding,
            key,
            #[trigger] rest[j],
        ) by {
            assert(rest[j] == lines[j + 1]);
        }
        lemma_key_untouched(
            scan_line(cache, decoding, name, lines[0]).cache,
            decoding,
            name,
            rest,
            key,
        );
    }
}

/// Scanning two runs of lines one after the other is scanning the first and,
/// where that did not find the name, the second.
pub proof fn lemma_scan_lines_joined(
    cache: Map<Seq<u8>, Option<Seq<u8>>>,
    decoding: Decoding,
    name: Seq<u8>,
    a: Seq<Seq<u8>>,
    b: Seq<Seq<u8>>,
)
    ensures
        scan_lines(cache, decoding, name, a + b) == if scan_lines(cache, decoding, name, a).found {
            scan_lines(cache, decoding, name, a)
        } else {
            scan_lines(scan_lines(cache, decoding, name, a).cache, decoding, name, b)
        },
    decreases a.len(),
{
    if a.len() == 0 {
        assert(a + b =~= b);
    } else {
        assert((a + b)[0] == a[0]);
        assert((a + b).drop_first() =~= a.drop_first() + b);
        lemma_scan_lines_joined(
            scan_line(cache, decoding, name, a[0]).cache,
            decoding,
            name,
            a.drop_first(),
            b,
        );
    }
}

/// Scanning two runs of files one after the other is scanning the first and,
/// where that did not find the name, the second.
pub proof fn lemma_scan_files_joined(
    cache: Map<Seq<u8>, Option<Seq<u8>>>,
    decoding: Decoding,
    name: Seq<u8>,
    a: Seq<Seq<Seq<u8>>>,
    b: Seq<Seq<Seq<u8>>>,
)
    ensures
        scan_files(cache, decoding, name, a + b) == if scan_files(cache, decoding, name, a).found {
            scan_files(cache, decoding, name, a)
        } else {
            scan_files(scan_files(cache, decoding, name, a).cache, decoding, name, b)
        },
    decreases a.len(),
{
    if a.len() == 0 {
        assert(a + b =~= b);
    } else {
        assert((a + b)[0] == a[0]);
        assert((a + b).drop_first() =~= a.drop_first() + b);
        lemma_scan_files_joined(
            scan_lines(cache, decoding, name, a[0]).cache,
            decoding,
            name,
            a.drop_first(),
            b,
        );
    }
}

/// Scanning files of which none holds an entry for the name does not find it.
pub proof fn lemma_silent_files(
    cache: Map<Seq<u8>, Option<Seq<u8>>>,
    decoding: Decoding,
    name: Seq<u8>,
    files: Seq<Seq<Seq<u8>>>,
)
    requires
        forall|i: int| 0 <= i < files.len() ==> silent(decoding, name, #[trigger] files[i]),
    ensures
        !scan_files(cache, decoding, name, files).found,
    decreases files.len(),
{
    if files.len() > 0 {
        let rest = files.drop_first();
        assert(silent(decoding, name, files[0]));
        lemma_silent_lines(cache, decoding, name, files[0]);
        assert forall|i: int| 0 <= i < rest.len() implies silent(
            decoding,
            name,
            #[trigger] rest[i],
        ) by {
            assert(rest[i] == files[i + 1]);
        }
        lemma_silent_files(scan_lines(cache, decoding, name, files[0]).cache, decoding, name, rest);
    }
}

/// A scan of files that found the name has cached it.
proof fn lemma_found_files_cached(
    cache: Map<Seq<u8>, Option<Seq<u8>>>,
    decoding: Decoding,
    name: Seq<u8>,
    files: Seq<Seq<Seq<u8>>>,
)
    ensures
        scan_files(cache, decoding, name, files).found ==> scan_files(
            cache,
            decoding,
            name,
            files,
        ).cache.contains_key(name),
    decreases files.len(),
{
    if files.len() > 0 {
        let first = scan_lines(cache, decoding, name, files[0]);
        if first.found {
            lemma_found_is_cached(cache, decoding, name, files[0]);
        } else {
            lemma_found_files_cached(first.cache, decoding, name, files.drop_first());
        }
    }
}

/// A scan does not read past the first entry for the name: the lines after
/// it could be any others.
pub proof fn law_scan_stops_at_the_name(
    cache: Map<Seq<u8>, Option<Seq<u8>>>,
    decoding: Decoding,
    name: Seq<u8>,
    lines: Seq<Seq<u8>>,
    end: int,
)
    requires
        reads(decoding, name, lines, end),
    ensures
        scan_lines(cache, decoding, name, lines) == scan_lines(
            cache,
            decoding,
            name,
            lines.take(end),
        ),
{
    let head = lines.take(end);
    let tail = lines.skip(end);
    assert(lines =~= head + tail);
    lemma_scan_lines_joined(cache, decoding, name, head, tail);
    if end < lines.len() {
        assert(head[end - 1] == lines[end - 1]);
        assert forall|j: int| 0 <= j < end - 1 implies !defines(
            decoding,
            name,
            #[trigger] head[j],
        ) by {
            assert(head[j] == lines[j]);
        }
        lemma_first_entry(cache, decoding, name, head, end - 1);
    } else {
        assert(head =~= lines);
    }
}

/// The entries that a scan comes upon are cached, whatever their key: what
/// is cached for a key afterwards is what the last line read with an entry
/// for it stores.
pub proof fn law_entries_on_the_way_are_cached(
    cache: Map<Seq<u8>, Option<Seq<u8>>>,
    decoding: Decoding,
    name: Seq<u8>,
    lines: Seq<Seq<u8>>,
    end: int,
    key: Seq<u8>,
    at: int,
)
    requires
        reads(decoding, name, lines, end),
        0 <= at < end,
        defines(decoding, key, lines[at]),
        forall|j: int| at < j < end ==> !defines(decoding, key, #[trigger] lines[j]),
    ensures
        scan_lines(cache, decoding, name, lines).cache.contains_key(key),
        scan_lines(cache, decoding, name, lines).cache[key] == value_in(decoding, lines[at]),
{
    law_scan_stops_at_the_name(cache, decoding, name, lines, end);
    let read = lines.take(end);
    let before = read.take(at);
    let after = read.skip(at + 1);
    let one = seq![lines[at]];
    assert(read =~= before + (one + after));
    assert forall|j: int| 0 <= j < before.len() implies !defines(
        decoding,
        name,
        #[trigger] before[j],
    ) by {
        assert(before[j] == lines[j]);
    }
    lemma_silent_lines(cache, decoding, name, before);
    lemma_scan_lines_joined(cache, decoding, name, before, one + after);
    let reached = scan_lines(cache, decoding, name, before).cache;
    let written = scan_line(reached, decoding, name, lines[at]);
    assert((one + after)[0] == lines[at]);
    assert((one + after).drop_first() =~= after);
    if written.found {
        assert(at == end - 1);
    } else {
        assert forall|j: int| 0 <= j < after.len() implies !defines(
            decoding,
            key,
            #[trigger] after[j],
        ) by {
            assert(after[j] == lines[at + 1 + j]);
        }
        lemma_key_untouched(written.cache, decoding, name, after, key);
    }
}

/// What is cached for a key stays as it is through a scan that comes upon no
/// entry for the key.
pub proof fn law_other_names_stay(
    cache: Map<Seq<u8>, Option<Seq<u8>>>,
    decoding: Decoding,
    name: Seq<u8>,
    lines: Seq<Seq<u8>>,
    end: int,
    key: Seq<u8>,
)
    requires
        reads(decoding, name, lines, end),
        forall|j: int| 0 <= j < end ==> !defines(decoding, key, #[trigger] lines[j]),
    ensures
        scan_lines(cache, decoding, name, lines).cache.contains_key(key) == cache.contains_key(key),
        scan_lines(cache, decoding, name, lines).cache[key] == cache[key],
{
    law_scan_stops_at_the_name(cache, decoding, name, lines, end);
    let read = lines.take(end);
    assert forall|j: int| 0 <= j < read.len() implies !defines(
        decoding,
        key,
        #[trigger] read[j],
    ) by {
        assert(read[j] == lines[j]);
    }
    lemma_key_untouched(cache, decoding, name, read, key);
}

/// A line that holds no entry, such as one without separator, does not come
/// between the lines around it: a file scans as it would without the line.
pub proof fn law_line_without_entry_is_skipped(
    cache: Map<Seq<u8>, Option<Seq<u8>>>,
    decoding: Decoding,
    name: Seq<u8>,
    before: Seq<Seq<u8>>,
    line: Seq<u8>,
    after: Seq<Seq<u8>>,
)
    requires
        !line.contains(SEPARATOR) || entry_of(decoding, line) is None,
    ensures
        entry_of(decoding, line) is None,
        scan_lines(cache, decoding, name, before + seq![line] + after) == scan_lines(
            cache,
            decoding,
            name,
            before + after,
        ),
{
    if !line.contains(SEPARATOR) {
        lemma_no_separator_no_entry(decoding, line);
    }
    let head = scan_lines(cache, decoding, name, before);
    let one = seq![line];
    lemma_scan_lines_joined(cache, decoding, name, before, one + after);
    lemma_scan_lines_joined(cache, decoding, name, before, after);
    assert(before + one + after =~= before + (one + after));
    assert((one + after)[0] == line);
    assert((one + after).drop_first() =~= after);
}

// The registry.

/// Registering a path a second time changes neither the registry, which
/// keeps its size, nor the cache.
pub proof fn law_registering_twice(
    paths: Seq<Seq<u8>>,
    cache: Map<Seq<u8>, Option<Seq<u8>>>,
    path: Seq<u8>,
)
    ensures
        registered(registered(paths, path), path) == registered(paths, path),
        invalidated(registered(paths, path), invalidated(paths, cache, path), path) == invalidated(
            paths,
            cache,
            path,
        ),
{
    if !paths.contains(path) {
        assert(paths.push(path)[paths.len() as int] == path);
    }
}

/// A registry that holds no path twice holds none twice after a
/// registration.
pub proof fn law_registry_keeps_paths_apart(paths: Seq<Seq<u8>>, path: Seq<u8>)
    requires
        paths.no_duplicates(),
    ensures
        registered(paths, path).no_duplicates(),
{
    if !paths.contains(path) {
        let after = paths.push(path);
        assert forall|i: int, j: int|
            0 <= i < after.len() && 0 <= j < after.len() && i != j implies after[i] != after[j] by {
            if i < paths.len() && j < paths.len() {
            } else if i < paths.len() {
                assert(paths.contains(paths[i]));
            } else {
                assert(paths.contains(paths[j]));
            }
        }
    }
}

// Lookups.

/// A lookup that stands before the file at `index`, every file before it
/// having been scanned in vain, comes to what the scan of the files from
/// there on comes to.
pub proof fn lemma_steps_through_files(
    cache: Map<Seq<u8>, Option<Seq<u8>>>,
    decoding: Decoding,
    name: Seq<u8>,
    variable: Option<Seq<u8>>,
    files: Seq<Seq<Seq<u8>>>,
    index: int,
)
    requires
        0 <= index < files.len(),
    ensures
        run(cache, decoding, name, variable, files, EventView::File(index, files[index]))
            == settled(scan_files(cache, decoding, name, files.skip(index)), name),
    decreases files.len() - index,
{
    let rest = files.skip(index);
    assert(rest[0] == files[index]);
    assert(rest.drop_first() =~= files.skip(index + 1));
    let scanned = scan_lines(cache, decoding, name, files[index]);
    if !scanned.found {
        if index + 1 < files.len() {
            lemma_steps_through_files(scanned.cache, decoding, name, variable, files, index + 1);
        } else {
            assert(files.skip(index + 1).len() == 0);
        }
    }
}

/// Step by step, every step answered with what the environment holds and the
/// files offer, a lookup comes to what `resolve` says.
pub proof fn law_steps_reach_the_lookup(
    cache: Map<Seq<u8>, Option<Seq<u8>>>,
    decoding: Decoding,
    name: Seq<u8>,
    variable: Option<Seq<u8>>,
    files: Seq<Seq<Seq<u8>>>,
)
    ensures
        run(cache, decoding, name, variable, files, EventView::Begin) == resolve(
            cache,
            decoding,
            name,
            variable,
            files,
        ),
{
    reveal_with_fuel(run, 3);
    if !cache.contains_key(name) && variable is None && files.len() > 0 {
        assert(files.skip(0) =~= files);
        lemma_steps_through_files(cache, decoding, name, variable, files, 0);
    }
}

/// A lookup leaves its own result cached for the name, so a second lookup of
/// the name gives the same value and leaves the cache as it is, whatever the
/// environment and the files hold by then.
pub proof fn law_lookup_is_remembered(
    cache: Map<Seq<u8>, Option<Seq<u8>>>,
    decoding: Decoding,
    name: Seq<u8>,
    variable: Option<Seq<u8>>,
    files: Seq<Seq<Seq<u8>>>,
    later_variable: Option<Seq<u8>>,
    later_files: Seq<Seq<Seq<u8>>>,
)
    ensures
        ({
            let first = resolve(cache, decoding, name, variable, files);
            &&& first.cache.contains_key(name)
            &&& first.cache[name] == first.value
            &&& resolve(first.cache, decoding, name, later_variable, later_files) == first
        }),
{
    if !cache.contains_key(name) && variable is None {
        lemma_found_files_cached(cache, decoding, name, files);
    }
}

/// A name that the environment holds resolves to the environment's value,
/// whatever the override files say of it, where the name is not cached yet.
pub proof fn law_environment_comes_first(
    cache: Map<Seq<u8>, Option<Seq<u8>>>,
    decoding: Decoding,
    name: Seq<u8>,
    value: Seq<u8>,
    files: Seq<Seq<Seq<u8>>>,
)
    requires
        !cache.contains_key(name),
    ensures
        resolve(cache, decoding, name, Some(value), files) == (Resolved {
            cache: cache.insert(name, Some(value)),
            value: Some(value),
        }),
{
}

/// A name that neither the cache nor the environment holds resolves to what
/// the first entry for it stores, in the first file that has one: files
/// registered later are not asked.
pub proof fn law_first_file_decides(
    cache: Map<Seq<u8>, Option<Seq<u8>>>,
    decoding: Decoding,
    name: Seq<u8>,
    earlier: Seq<Seq<Seq<u8>>>,
    file: Seq<Seq<u8>>,
    later: Seq<Seq<Seq<u8>>>,
    at: int,
)
    requires
        !cache.contains_key(name),
        forall|i: int| 0 <= i < earlier.len() ==> silent(decoding, name, #[trigger] earlier[i]),
        first_entry_at(decoding, name, file, at),
    ensures
        resolve(cache, decoding, name, None, earlier + seq![file] + later).value == value_in(
            decoding,
            file[at],
        ),
        resolve(cache, decoding, name, None, earlier + seq![file] + later) == resolve(
            cache,
            decoding,
            name,
            None,
            earlier + seq![file],
        ),
{
    let before = scan_files(cache, decoding, name, earlier);
    lemma_silent_files(cache, decoding, name, earlier);
    lemma_scan_files_joined(cache, decoding, name, earlier, seq![file]);
    lemma_scan_files_joined(cache, decoding, name, earlier + seq![file], later);
    lemma_first_entry(before.cache, decoding, name, file, at);
    let one = seq![file];
    assert(one[0] == file);
    assert(scan_files(before.cache, decoding, name, one) == scan_lines(
        before.cache,
        decoding,
        name,
        file,
    ));
}

/// A name that neither the cache nor the environment holds, and for which no
/// file has an entry, resolves to absence, and absence is cached for it.
pub proof fn law_absent_everywhere(
    cache: Map<Seq<u8>, Option<Seq<u8>>>,
    decoding: Decoding,
    name: Seq<u8>,
    files: Seq<Seq<Seq<u8>>>,
)
    requires
        !cache.contains_key(name),
        forall|i: int| 0 <= i < files.len() ==> silent(decoding, name, #[trigger] files[i]),
    ensures
        resolve(cache, decoding, name, None, files).value is None,
        resolve(cache, decoding, name, None, files).cache[name] is None,
{
    lemma_silent_files(cache, decoding, name, files);
}

/// An entry with an empty value unsets its name: where the first line that
/// could speak of a name is the name, a separator and nothing more, the name
/// resolves to absence, as if no file had spoken of it.
pub proof fn law_empty_value_unsets(
    cache: Map<Seq<u8>, Option<Seq<u8>>>,
    decoding: Decoding,
    name: Seq<u8>,
    earlier: Seq<Seq<Seq<u8>>>,
    file: Seq<Seq<u8>>,
    later: Seq<Seq<Seq<u8>>>,
    at: int,
)
    requires
        !cache.contains_key(name),
        forall|i: int| 0 <= i < earlier.len() ==> silent(decoding, name, #[trigger] earlier[i]),
        0 <= at < file.len(),
        file[at] == name + seq![SEPARATOR],
        forall|j: int| 0 <= j < at ==> !defines(decoding, name, #[trigger] file[j]),
    ensures
        !name.contains(SEPARATOR) && decodes(decoding, name) ==> entry_of(decoding, file[at])
            == Some((name, None::<Seq<u8>>)),
        resolve(cache, decoding, name, None, earlier + seq![file] + later).value is None,
{
    if !name.contains(SEPARATOR) && decodes(decoding, name) {
        let nothing = Seq::<u8>::empty();
        assert(name + seq![SEPARATOR] + nothing =~= name + seq![SEPARATOR]);
        assert(decodes(decoding, nothing)) by {
            reveal_with_fuel(vstd::utf8::valid_utf8, 1);
        }
        lemma_entry_of_pair(decoding, name, nothing);
        law_first_file_decides(cache, decoding, name, earlier, file, later, at);
    } else {
        let files = earlier + seq![file] + later;
        assert forall|i: int| 0 <= i < files.len() implies silent(
            decoding,
            name,
            #[trigger] files[i],
        ) by {
            assert forall|j: int| 0 <= j < files[i].len() implies !defines(
                decoding,
                name,
                #[trigger] files[i][j],
            ) by {
                lemma_key_of_entry(decoding, files[i][j]);
            }
        }
        law_absent_everywhere(cache, decoding, name, files);
    }
}

/// Registering a new file lets the next lookup see it: a name that resolved
/// to absence, no file having an entry for it, resolves to what the first
/// entry for it stores in a file registered since, though absence had been
/// cached for it.
pub proof fn law_new_file_is_seen(
    paths: Seq<Seq<u8>>,
    cache: Map<Seq<u8>, Option<Seq<u8>>>,
    decoding: Decoding,
    name: Seq<u8>,
    files: Seq<Seq<Seq<u8>>>,
    path: Seq<u8>,
    file: Seq<Seq<u8>>,
    at: int,
)
    requires
        resolve(cache, decoding, name, None, files).value is None,
        !paths.contains(path),
        forall|i: int| 0 <= i < files.len() ==> silent(decoding, name, #[trigger] files[i]),
        first_entry_at(decoding, name, file, at),
    ensures
        ({
            let first = resolve(cache, decoding, name, None, files);
            let cleared = invalidated(paths, first.cache, path);
            let second = resolve(cleared, decoding, name, None, files.push(file));
            &&& first.cache.contains_key(name)
            &&& first.cache[name] is None
            &&& registered(paths, path) == paths.push(path)
            &&& !cleared.contains_key(name)
            &&& second.value == value_in(decoding, file[at])
        }),
{
    law_lookup_is_remembered(cache, decoding, name, None, files, None, files);
    let cleared = Map::<Seq<u8>, Option<Seq<u8>>>::empty();
    assert(files.push(file) =~= files + seq![file] + Seq::<Seq<Seq<u8>>>::empty());
    law_first_file_decides(
        cleared,
        decoding,
        name,
        files,
        file,
        Seq::<Seq<Seq<u8>>>::empty(),
        at,
    );
}

/// A file in which a line holds no entry resolves every name as the file
/// without that line does, wherever the file stands among the others.
pub proof fn law_malformed_line_is_harmless(
    cache: Map<Seq<u8>, Option<Seq<u8>>>,
    decoding: Decoding,
    name: Seq<u8>,
    variable: Option<Seq<u8>>,
    earlier: Seq<Seq<Seq<u8>>>,
    later: Seq<Seq<Seq<u8>>>,
    before: Seq<Seq<u8>>,
    line: Seq<u8>,
    after: Seq<Seq<u8>>,
)
    requires
        !line.contains(SEPARATOR) || entry_of(decoding, line) is None,
    ensures
        resolve(
            cache,
            decoding,
            name,
            variable,
            earlier + seq![before + seq![line] + after] + later,
        ) == resolve(cache, decoding, name, variable, earlier + seq![before + after] + later),
{
    let with = before + seq![line] + after;
    let without = before + after;
    let head = scan_files(cache, decoding, name, earlier);
    law_line_without_entry_is_skipped(head.cache, decoding, name, before, line, after);
    lemma_scan_files_joined(cache, decoding, name, earlier, seq![with] + later);
    lemma_scan_files_joined(cache, decoding, name, earlier, seq![without] + later);
    assert(earlier + seq![with] + later =~= earlier + (seq![with] + later));
    assert(earlier + seq![without] + later =~= earlier + (seq![without] + later));
    assert((seq![with] + later)[0] == with);
    assert((seq![without] + later)[0] == without);
    assert((seq![with] + later).drop_first() =~= later);
    assert((seq![without] + later).drop_first() =~= later);
}

/// A file that cannot be opened is passed over: every name resolves as if the
/// file's path were not registered, by the files before it and after it.
pub proof fn law_missing_file_is_skipped(
    cache: Map<Seq<u8>, Option<Seq<u8>>>,
    decoding: Decoding,
    name: Seq<u8>,
    variable: Option<Seq<u8>>,
    earlier: Seq<Seq<Seq<u8>>>,
    later: Seq<Seq<Seq<u8>>>,
)
    ensures
        resolve(cache, decoding, name, variable, earlier + seq![Source::Missing@] + later)
            == resolve(cache, decoding, name, variable, earlier + later),
{
    let missing = Source::Missing@;
    let one = seq![missing];
    lemma_scan_files_joined(cache, decoding, name, earlier, one + later);
    lemma_scan_files_joined(cache, decoding, name, earlier, later);
    assert(earlier + one + later =~= earlier + (one + later));
    assert((one + later)[0] == missing);
    assert((one + later).drop_first() =~= later);
}

} // verus!
