//! Byte strings: the raw form of every name, value, path and file.

use vstd::prelude::*;
use vstd::slice::slice_to_vec;

verus! {

/// Whether `at` is the place where `byte` first occurs in `s`.
pub open spec fn first_at(s: Seq<u8>, byte: u8, at: int) -> bool {
    &&& 0 <= at < s.len()
    &&& s[at] == byte
    &&& forall|j: int| 0 <= j < at ==> s[j] != byte
}

/// The place where `byte` first occurs in `s`, if it occurs at all.
pub open spec fn first_index(s: Seq<u8>, byte: u8) -> Option<int> {
    if exists|at: int| first_at(s, byte, at) {
        Some(choose|at: int| first_at(s, byte, at))
    } else {
        None
    }
}

/// The model of an optional byte string.
pub open spec fn optional(value: Option<Vec<u8>>) -> Option<Seq<u8>> {
    match value {
        Some(bytes) => Some(bytes@),
        None => None,
    }
}

/// The model of an optional borrowed byte string.
pub open spec fn optional_slice(value: Option<&[u8]>) -> Option<Seq<u8>> {
    match value {
        Some(bytes) => Some(bytes@),
        None => None,
    }
}

/// A byte occurs first in one place only.
pub proof fn lemma_first_index_found(s: Seq<u8>, byte: u8, at: int)
    requires
        first_at(s, byte, at),
    ensures
        first_index(s, byte) == Some(at),
{
    let chosen = choose|i: int| first_at(s, byte, i);
    assert(first_at(s, byte, chosen));
    if chosen < at {
        assert(s[chosen] != byte);
    }
    if at < chosen {
        assert(s[at] != byte);
    }
}

/// A byte that occurs nowhere has no first place.
pub proof fn lemma_first_index_absent(s: Seq<u8>, byte: u8)
    requires
        forall|j: int| 0 <= j < s.len() ==> s[j] != byte,
    ensures
        first_index(s, byte) is None,
{
}

/// What `first_index` returns, spelled out.
pub proof fn lemma_first_index(s: Seq<u8>, byte: u8)
    ensures
        match first_index(s, byte) {
            Some(at) => first_at(s, byte, at),
            None => forall|j: int| 0 <= j < s.len() ==> s[j] != byte,
        },
{
    if first_index(s, byte) is None {
        assert forall|j: int| 0 <= j < s.len() implies s[j] != byte by {
            if s[j] == byte {
                lemma_occurrence_has_first(s, byte, j);
            }
        }
    }
}

/// A byte that occurs somewhere occurs first at or before that place.
pub proof fn lemma_occurrence_has_first(s: Seq<u8>, byte: u8, at: int)
    requires
        0 <= at < s.len(),
        s[at] == byte,
    ensures
        exists|first: int| first_at(s, byte, first) && first <= at,
    decreases at,
{
    if exists|j: int| 0 <= j < at && s[j] == byte {
        let j = choose|j: int| 0 <= j < at && s[j] == byte;
        lemma_occurrence_has_first(s, byte, j);
    } else {
        assert(first_at(s, byte, at));
    }
}

/// Whether two byte strings hold the same bytes.
pub fn same_bytes(a: &[u8], b: &[u8]) -> (r: bool)
    ensures
        r == (a@ == b@),
{
    if a.len() != b.len() {
        return false;
    }
    let mut i: usize = 0;
    while i < a.len()
        invariant
            a@.len() == b@.len(),
            i <= a@.len(),
            forall|j: int| 0 <= j < i ==> a@[j] == b@[j],
        decreases a@.len() - i,
    {
        if a[i] != b[i] {
            return false;
        }
        i = i + 1;
    }
    assert(a@ =~= b@);
    true
}

/// The place of the first `byte` in `data` at or after `from`, counted from
/// the start of `data`.
pub(crate) fn find_byte(data: &[u8], byte: u8, from: usize) -> (r: Option<usize>)
    requires
        from <= data@.len(),
    ensures
        match r {
            Some(at) => from <= at < data@.len() && first_index(
                data@.subrange(from as int, data@.len() as int),
                byte,
            ) == Some(at - from),
            None => first_index(data@.subrange(from as int, data@.len() as int), byte) is None,
        },
{
    let ghost rest = data@.subrange(from as int, data@.len() as int);
    let mut i: usize = from;
    while i < data.len()
        invariant
            from <= i <= data@.len(),
            rest == data@.subrange(from as int, data@.len() as int),
            forall|j: int| 0 <= j < i - from ==> rest[j] != byte,
        decreases data@.len() - i,
    {
        if data[i] == byte {
            proof {
                assert(rest[i - from] == byte);
                lemma_first_index_found(rest, byte, i - from);
            }
            return Some(i);
        }
        i = i + 1;
    }
    proof {
        lemma_first_index_absent(rest, byte);
    }
    None
}

/// A copy of a byte string.
pub(crate) fn copy_bytes(bytes: &[u8]) -> (r: Vec<u8>)
    ensures
        r@ == bytes@,
{
    slice_to_vec(bytes)
}

/// A copy of an optional byte string.
pub(crate) fn copy_optional(value: &Option<Vec<u8>>) -> (r: Option<Vec<u8>>)
    ensures
        optional(r) == optional(*value),
{
    match value {
        Some(bytes) => Some(slice_to_vec(bytes.as_slice())),
        None => None,
    }
}

} // verus!
