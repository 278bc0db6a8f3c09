//! Resolving a name: the cache first, then the process environment, then the
//! override files in the order of the registry.
//!
//! The environment and the files lie outside this library. A lookup is
//! therefore a run of steps: each step takes what the outside answered to the
//! step before and says what to ask next, until the value is known. Whoever
//! drives a lookup asks the environment and reads the files; every decision is
//! taken here.

use vstd::prelude::*;
use crate::bytes::{copy_bytes, optional, optional_slice};
use crate::cache::Cache;
use crate::format::{
    lemma_found_is_cached,
    scan_lines,
    scan_source,
    Decoding,
    Scanned,
    Source,
};
use crate::laws::law_steps_reach_the_lookup;
use crate::registry::Registry;
use crate::text::{as_flag, as_text, optional_text, to_flag, to_text};

verus! {

/// A cache after a lookup, and the value that the lookup gave.
pub struct Resolved {
    pub cache: Map<Seq<u8>, Option<Seq<u8>>>,
    pub value: Option<Seq<u8>>,
}

/// Scanning files in order, each by its lines, up to and with the first that
/// holds an entry for the name.
pub open spec fn scan_files(
    cache: Map<Seq<u8>, Option<Seq<u8>>>,
    decoding: Decoding,
    name: Seq<u8>,
    files: Seq<Seq<Seq<u8>>>,
) -> Scanned
    decreases files.len(),
{
    if files.len() == 0 {
        Scanned { cache, found: false }
    } else {
        let first = scan_lines(cache, decoding, name, files[0]);
        if first.found {
            first
        } else {
            scan_files(first.cache, decoding, name, files.drop_first())
        }
    }
}

/// What a scan of the files comes to: the value of the entry that was found,
/// or, where none was, absence, which is cached for the name.
pub open spec fn settled(scanned: Scanned, name: Seq<u8>) -> Resolved {
    if scanned.found {
        Resolved { cache: scanned.cache, value: scanned.cache[name] }
    } else {
        Resolved { cache: scanned.cache.insert(name, None), value: None }
    }
}

/// The lookup of `name`, where the environment holds `variable` for it and the
/// registered files offer the lines `files`.
///
/// A cached name gives what is cached for it and nothing is asked. Else the
/// environment's value, where it has one, is cached and given. Else the files
/// are scanned in order.
pub open spec fn resolve(
    cache: Map<Seq<u8>, Option<Seq<u8>>>,
    decoding: Decoding,
    name: Seq<u8>,
    variable: Option<Seq<u8>>,
    files: Seq<Seq<Seq<u8>>>,
) -> Resolved {
    if cache.contains_key(name) {
        Resolved { cache, value: cache[name] }
    } else {
        match variable {
            Some(value) => Resolved { cache: cache.insert(name, Some(value)), value: Some(value) },
            None => settled(scan_files(cache, decoding, name, files), name),
        }
    }
}

/// What the outside answered to the step before.
#[derive(Clone, Copy, Debug)]
pub enum Event<'a> {
    /// Nothing yet: the lookup begins.
    Begin,
    /// The value that the environment holds for the name, if it holds one.
    Variable(Option<&'a [u8]>),
    /// What became of the file at this place in the registry.
    File(usize, &'a Source),
}

/// The model of an `Event`.
pub enum EventView {
    Begin,
    Variable(Option<Seq<u8>>),
    File(int, Seq<Seq<u8>>),
}

impl<'a> View for Event<'a> {
    type V = EventView;

    open spec fn view(&self) -> EventView {
        match self {
            Event::Begin => EventView::Begin,
            Event::Variable(value) => EventView::Variable(optional_slice(*value)),
            Event::File(index, source) => EventView::File(*index as int, source@),
        }
    }
}

/// What a lookup needs next, or its outcome.
#[derive(Debug, PartialEq, Eq)]
pub enum Step {
    /// The lookup is over, with this value.
    Done(Option<Vec<u8>>),
    /// The environment is to be asked for the name.
    Variable,
    /// The file at this place in the registry is to be read.
    File(usize),
}

/// The model of a `Step`.
pub enum StepView {
    Done(Option<Seq<u8>>),
    Variable,
    File(int),
}

impl View for Step {
    type V = StepView;

    open spec fn view(&self) -> StepView {
        match self {
            Step::Done(value) => StepView::Done(optional(*value)),
            Step::Variable => StepView::Variable,
            Step::File(index) => StepView::File(*index as int),
        }
    }
}

/// A cache after a step, and what the step asks for.
pub struct Moved {
    pub cache: Map<Seq<u8>, Option<Seq<u8>>>,
    pub step: StepView,
}

/// Going on to the file at `index` where `count` files are registered: it is
/// to be read where there is one, else the name is absent.
pub open spec fn turn_to(
    cache: Map<Seq<u8>, Option<Seq<u8>>>,
    count: int,
    name: Seq<u8>,
    index: int,
) -> Moved {
    if index < count {
        Moved { cache, step: StepView::File(index) }
    } else {
        Moved { cache: cache.insert(name, None), step: StepView::Done(None) }
    }
}

/// One step of the lookup of `name`, with `count` files registered.
pub open spec fn transition(
    cache: Map<Seq<u8>, Option<Seq<u8>>>,
    count: int,
    decoding: Decoding,
    name: Seq<u8>,
    event: EventView,
) -> Moved {
    match event {
        EventView::Begin => if cache.contains_key(name) {
            Moved { cache, step: StepView::Done(cache[name]) }
        } else {
            Moved { cache, step: StepView::Variable }
        },
        EventView::Variable(Some(value)) => Moved {
            cache: cache.insert(name, Some(value)),
            step: StepView::Done(Some(value)),
        },
        EventView::Variable(None) => turn_to(cache, count, name, 0),
        EventView::File(index, lines) => {
            let scanned = scan_lines(cache, decoding, name, lines);
            if scanned.found {
                Moved { cache: scanned.cache, step: StepView::Done(scanned.cache[name]) }
            } else {
                turn_to(scanned.cache, count, name, index + 1)
            }
        },
    }
}

/// The lines that each of `count` registered files offers, where `files` tells
/// what became of them in order: a file that `files` does not reach counts as
/// one that could not be opened.
pub open spec fn offered(files: Seq<Source>, count: nat) -> Seq<Seq<Seq<u8>>> {
    Seq::new(
        count,
        |i: int|
            if i < files.len() {
                files[i]@
            } else {
                Seq::empty()
            },
    )
}

/// Turns to the file at `index`, or ends the lookup where there is none.
fn turn(cache: &mut Cache, registry: &Registry, name: &[u8], index: usize) -> (step: Step)
    ensures
        (Moved { cache: final(cache)@, step: step@ }) == turn_to(
            old(cache)@,
            registry@.len() as int,
            name@,
            index as int,
        ),
{
    if index < registry.len() {
        Step::File(index)
    } else {
        cache.insert(copy_bytes(name), None);
        Step::Done(None)
    }
}

/// Takes one step of the lookup of `name`: given what the outside answered to
/// the step before, caches what there is to cache and says what to do next.
///
/// A lookup starts with `Event::Begin`. `Step::Variable` is to be answered
/// with `Event::Variable`, `Step::File` with `Event::File` and the same index.
/// `Step::Done` ends the lookup.
pub fn advance(
    cache: &mut Cache,
    registry: &Registry,
    decoding: Decoding,
    name: &[u8],
    event: Event,
) -> (step: Step)
    ensures
        (Moved { cache: final(cache)@, step: step@ }) == transition(
            old(cache)@,
            registry@.len() as int,
            decoding,
            name@,
            event@,
        ),
{
    match event {
        Event::Begin => match cache.get(name) {
            Some(value) => Step::Done(value),
            None => Step::Variable,
        },
        Event::Variable(Some(value)) => {
            cache.insert(copy_bytes(name), Some(copy_bytes(value)));
            Step::Done(Some(copy_bytes(value)))
        },
        Event::Variable(None) => turn(cache, registry, name, 0),
        Event::File(index, source) => {
            let ghost before = cache@;
            if scan_source(cache, decoding, name, source) {
                proof {
                    lemma_found_is_cached(before, decoding, name@, source@);
                }
                let cached = cache.get(name);
                Step::Done(cached.unwrap())
            } else if index < registry.len() {
                turn(cache, registry, name, index + 1)
            } else {
                cache.insert(copy_bytes(name), None);
                Step::Done(None)
            }
        },
    }
}

/// The true answer to a step, where the environment holds `variable` for the
/// name and the registered files offer the lines `files`.
pub open spec fn answer(
    step: StepView,
    variable: Option<Seq<u8>>,
    files: Seq<Seq<Seq<u8>>>,
) -> EventView {
    match step {
        StepView::Variable => EventView::Variable(variable),
        StepView::File(index) => EventView::File(index, files[index]),
        StepView::Done(_) => EventView::Begin,
    }
}

/// How many steps a lookup that stands before `event` may still take.
pub open spec fn steps_left(event: EventView, count: int) -> int {
    match event {
        EventView::Begin => count + 2,
        EventView::Variable(_) => count + 1,
        EventView::File(index, _) => count - index,
    }
}

/// A lookup run to its end from `event` on, every step answered truly.
pub open spec fn run(
    cache: Map<Seq<u8>, Option<Seq<u8>>>,
    decoding: Decoding,
    name: Seq<u8>,
    variable: Option<Seq<u8>>,
    files: Seq<Seq<Seq<u8>>>,
    event: EventView,
) -> Resolved
    decreases steps_left(event, files.len() as int),
{
    let moved = transition(cache, files.len() as int, decoding, name, event);
    match moved.step {
        StepView::Done(value) => Resolved { cache: moved.cache, value },
        step => run(moved.cache, decoding, name, variable, files, answer(step, variable, files)),
    }
}

/// Looks `name` up, where the environment holds `variable` for it and
/// `files` tells what became of each registered file, in the order of the
/// registry.
///
/// The lookup runs step by step, as `advance` has it, and every step is
/// answered from `variable` and `files`. What it gives and what it leaves in
/// the cache is what `resolve` says.
pub fn get_os(
    cache: &mut Cache,
    registry: &Registry,
    decoding: Decoding,
    name: &[u8],
    variable: Option<&[u8]>,
    files: &Vec<Source>,
) -> (value: Option<Vec<u8>>)
    ensures
        (Resolved { cache: final(cache)@, value: optional(value) }) == resolve(
            old(cache)@,
            decoding,
            name@,
            optional_slice(variable),
            offered(files@, registry@.len()),
        ),
{
    let missing = Source::Missing;
    let ghost all = offered(files@, registry@.len());
    let ghost held = optional_slice(variable);
    let ghost goal = run(old(cache)@, decoding, name@, held, all, EventView::Begin);
    proof {
        law_steps_reach_the_lookup(old(cache)@, decoding, name@, held, all);
    }
    let mut event = Event::Begin;
    loop
        invariant
            all == offered(files@, registry@.len()),
            missing@ == Seq::<Seq<u8>>::empty(),
            event@ matches EventView::File(index, lines) ==> 0 <= index < all.len() && lines
                == all[index],
            held == optional_slice(variable),
            run(cache@, decoding, name@, held, all, event@) == goal,
            goal == resolve(old(cache)@, decoding, name@, held, all),
        decreases steps_left(event@, all.len() as int),
    {
        match advance(cache, registry, decoding, name, event) {
            Step::Done(value) => {
                return value;
            },
            Step::Variable => {
                event = Event::Variable(variable);
            },
            Step::File(index) => {
                if index < files.len() {
                    event = Event::File(index, &files[index]);
                } else {
                    event = Event::File(index, &missing);
                }
            },
        }
    }
}

/// Looks `name` up as text: the value of `get_os`, where it is valid UTF-8.
pub fn get(
    cache: &mut Cache,
    registry: &Registry,
    decoding: Decoding,
    name: &[u8],
    variable: Option<&[u8]>,
    files: &Vec<Source>,
) -> (text: Option<String>)
    ensures
        ({
            let resolved = resolve(
                old(cache)@,
                decoding,
                name@,
                optional_slice(variable),
                offered(files@, registry@.len()),
            );
            &&& final(cache)@ == resolved.cache
            &&& optional_text(text) == as_text(resolved.value)
        }),
{
    to_text(get_os(cache, registry, decoding, name, variable, files))
}

/// Looks `name` up as a switch: the text of `get`, where it is one of the
/// words that switch off or on.
pub fn get_bool(
    cache: &mut Cache,
    registry: &Registry,
    decoding: Decoding,
    name: &[u8],
    variable: Option<&[u8]>,
    files: &Vec<Source>,
) -> (flag: Option<bool>)
    ensures
        ({
            let resolved = resolve(
                old(cache)@,
                decoding,
                name@,
                optional_slice(variable),
                offered(files@, registry@.len()),
            );
            &&& final(cache)@ == resolved.cache
            &&& flag == as_flag(as_text(resolved.value))
        }),
{
    to_flag(get(cache, registry, decoding, name, variable, files))
}

} // verus!
