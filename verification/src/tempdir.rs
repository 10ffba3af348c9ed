//! The place of the directory that the repository is fetched into.

use crate::path::components;
use crate::path::is_absolute;
use crate::path::joined;
use crate::path::law_entry_names;
use crate::path::law_join_adds_component;
use crate::path::raw;
use crate::path::RawPath;
use crate::path::SLASH;
use crate::text::decimal;
use crate::text::lemma_decimal_digits;
use crate::text::lemma_encoding_is_injective;
use crate::text::same_bytes;
use crate::text::to_decimal;
use vstd::prelude::*;
use vstd::utf8::encode_scalar;
use vstd::utf8::encode_utf8;
use vstd::utf8::is_ascii_chars;
use vstd::utf8::is_ascii_chars_encode_utf8;

verus! {

/// The name of the directory of a run that starts at `millis` milliseconds after the epoch.
pub open spec fn dir_name(millis: nat) -> Seq<char> {
    "gitingest-"@ + decimal(millis)
}

/// The path of that directory in the directory `base`.
pub open spec fn dir_path(base: Seq<u8>, millis: nat) -> Seq<u8> {
    joined(base, encode_utf8(dir_name(millis)))
}

/// Whether `path` is the first one, from the time `millis` on, that is not taken.
pub open spec fn is_first_free(
    path: Seq<u8>,
    base: Seq<u8>,
    millis: nat,
    taken: Seq<Seq<u8>>,
) -> bool {
    !taken.contains(path) && exists|time: nat|
        millis <= time && path == #[trigger] dir_path(base, time) && (forall|earlier: nat|
            millis <= earlier < time ==> taken.contains(#[trigger] dir_path(base, earlier)))
}

/// A temporary directory.
#[derive(Debug)]
pub struct TempDir {
    path: RawPath,
}

impl View for TempDir {
    type V = Seq<u8>;

    closed spec fn view(&self) -> Seq<u8> {
        self.path@
    }
}

fn is_listed(path: &RawPath, list: &[RawPath]) -> (listed: bool)
    ensures
        listed == raw(list@).contains(path@),
{
    let ghost all = raw(list@);
    let mut i: usize = 0;
    while i < list.len()
        invariant
            i <= list@.len(),
            all == raw(list@),
            forall|k: int| 0 <= k < i ==> all[k] != path@,
        decreases list@.len() - i,
    {
        assert(all[i as int] == list@[i as int]@);
        if same_bytes(list[i].as_bytes(), path.as_bytes()) {
            return true;
        }
        i += 1;
    }
    false
}

impl TempDir {
    /// A directory in `base` with a name of its own, for a run that starts at `millis` milliseconds
    /// after the epoch: the paths in `taken` are in use, so the name of a later time stands in for
    /// theirs. There is none if all later times are taken.
    pub fn new(base: &RawPath, millis: u128, taken: &[RawPath]) -> (dir: Option<TempDir>)
        ensures
            dir is None <==> (forall|time: nat|
                millis <= time <= u128::MAX ==> raw(taken@).contains(
                    #[trigger] dir_path(base@, time),
                )),
            dir is Some ==> is_first_free(dir->0@, base@, millis as nat, raw(taken@)),
    {
        let ghost all = raw(taken@);
        let mut time: u128 = millis;
        loop
            invariant
                millis <= time,
                all == raw(taken@),
                forall|earlier: nat|
                    millis <= earlier < time ==> all.contains(#[trigger] dir_path(base@, earlier)),
            decreases u128::MAX - time,
        {
            let mut name = "gitingest-".to_owned();
            name.append(to_decimal(time).as_str());
            let path = base.join(name.as_str().as_bytes());
            assert(path@ == dir_path(base@, time as nat));
            if !is_listed(&path, taken) {
                return Some(TempDir { path });
            }
            if time == u128::MAX {
                return None;
            }
            time += 1;
        }
    }

    /// The path of the directory.
    pub fn path(&self) -> (path: &RawPath)
        ensures
            path@ == self@,
    {
        &self.path
    }
}

/// Two directories that exist at the same time differ: the later one is none of those that are in
/// use when it is found, and the earlier one is among them.
pub proof fn law_live_dirs_differ(
    first: Seq<u8>,
    second: Seq<u8>,
    base: Seq<u8>,
    millis: nat,
    live: Seq<Seq<u8>>,
)
    requires
        live.contains(first),
        is_first_free(second, base, millis, live),
    ensures
        first != second,
{
}

/// Trying paths in turn finds the first that is not in use: where only paths in use were refused,
/// and the path that is found is not in use, it is the first such path.
pub proof fn law_refusals_lead_to_first_free(
    path: Seq<u8>,
    base: Seq<u8>,
    millis: nat,
    refused: Seq<Seq<u8>>,
    live: Seq<Seq<u8>>,
)
    requires
        is_first_free(path, base, millis, refused),
        forall|p: Seq<u8>| #[trigger] refused.contains(p) ==> live.contains(p),
        !live.contains(path),
    ensures
        is_first_free(path, base, millis, live),
{
    let time = choose|time: nat|
        millis <= time && path == #[trigger] dir_path(base, time) && (forall|earlier: nat|
            millis <= earlier < time ==> refused.contains(#[trigger] dir_path(base, earlier)));
    assert forall|earlier: nat| millis <= earlier < time implies live.contains(
        #[trigger] dir_path(base, earlier),
    ) by {
        assert(refused.contains(dir_path(base, earlier)));
    }
}

/// The directories on a file system, and those among them that runs hold: made for them, and not
/// yet removed.
pub struct DirState {
    pub live: Set<Seq<u8>>,
    pub held: Seq<Seq<u8>>,
}

/// What can happen to directories.
pub enum DirEvent {
    /// A run gets the directory `path`: the first one that the file system has not refused it, and
    /// that the file system made, which it does only where nothing has that path.
    Acquire { path: Seq<u8>, base: Seq<u8>, millis: nat, refused: Seq<Seq<u8>> },
    /// A run that holds the directory at this place removes it.
    Release(int),
    /// Something that no run holds is made or removed.
    Foreign(Seq<u8>),
}

/// Whether an event can happen in a state.
pub open spec fn can_happen(state: DirState, event: DirEvent) -> bool {
    match event {
        DirEvent::Acquire { path, base, millis, refused } => {
            &&& is_first_free(path, base, millis, refused)
            &&& !state.live.contains(path)
        },
        DirEvent::Release(i) => 0 <= i < state.held.len(),
        DirEvent::Foreign(path) => !state.held.contains(path),
    }
}

/// The state after an event.
pub open spec fn after_dir_event(state: DirState, event: DirEvent) -> DirState {
    match event {
        DirEvent::Acquire { path, .. } => DirState {
            live: state.live.insert(path),
            held: state.held.push(path),
        },
        DirEvent::Release(i) => DirState {
            live: state.live.remove(state.held[i]),
            held: state.held.remove(i),
        },
        DirEvent::Foreign(path) => DirState {
            live: if state.live.contains(path) {
                state.live.remove(path)
            } else {
                state.live.insert(path)
            },
            held: state.held,
        },
    }
}

/// Whether some events can happen one after the other.
pub open spec fn can_happen_in_turn(state: DirState, events: Seq<DirEvent>) -> bool
    decreases events.len(),
{
    events.len() == 0 || (can_happen_in_turn(state, events.drop_last()) && can_happen(
        after_dir_events(state, events.drop_last()),
        events.last(),
    ))
}

/// The state after some events.
pub open spec fn after_dir_events(state: DirState, events: Seq<DirEvent>) -> DirState
    decreases events.len(),
{
    if events.len() == 0 {
        state
    } else {
        after_dir_event(after_dir_events(state, events.drop_last()), events.last())
    }
}

/// Whatever happens, no two runs hold the same directory, and every directory that is held exists:
/// removing the one of a run never removes that of another.
pub proof fn law_held_dirs_are_unique(start: DirState, events: Seq<DirEvent>)
    requires
        start.held.len() == 0,
        can_happen_in_turn(start, events),
    ensures
        after_dir_events(start, events).held.no_duplicates(),
        forall|path: Seq<u8>| #[trigger]
            after_dir_events(start, events).held.contains(path) ==> after_dir_events(
                start,
                events,
            ).live.contains(path),
    decreases events.len(),
{
    if events.len() > 0 {
        let state = after_dir_events(start, events.drop_last());
        let next = after_dir_events(start, events);
        law_held_dirs_are_unique(start, events.drop_last());
        match events.last() {
            DirEvent::Acquire { path, .. } => {
                assert(!state.held.contains(path));
                assert forall|i: int, j: int| 0 <= i < j < next.held.len() implies next.held[i]
                    != next.held[j] by {
                    if j == state.held.len() {
                        assert(state.held.contains(state.held[i]));
                    }
                }
                assert forall|p: Seq<u8>| #[trigger]
                    next.held.contains(p) implies next.live.contains(p) by {
                    let k = choose|k: int| 0 <= k < next.held.len() && next.held[k] == p;
                    if k < state.held.len() {
                        assert(state.held[k] == p);
                        assert(state.held.contains(p));
                    }
                }
            },
            DirEvent::Release(i) => {
                assert forall|p: Seq<u8>| #[trigger]
                    next.held.contains(p) implies next.live.contains(p) by {
                    let k = choose|k: int| 0 <= k < next.held.len() && next.held[k] == p;
                    let old_place = if k < i {
                        k
                    } else {
                        k + 1
                    };
                    assert(state.held[old_place] == p);
                    assert(state.held.contains(p));
                }
            },
            DirEvent::Foreign(_) => {},
        }
    }
}

/// A directory that a run gets is none that a run holds already.
pub proof fn law_new_dir_is_not_held(
    start: DirState,
    events: Seq<DirEvent>,
    first: Seq<u8>,
    second: Seq<u8>,
    base: Seq<u8>,
    millis: nat,
    refused: Seq<Seq<u8>>,
)
    requires
        start.held.len() == 0,
        can_happen_in_turn(start, events),
        after_dir_events(start, events).held.contains(first),
        can_happen(
            after_dir_events(start, events),
            (DirEvent::Acquire { path: second, base, millis, refused }),
        ),
    ensures
        first != second,
{
    law_held_dirs_are_unique(start, events);
}

/// Where nothing is taken the directory has the time of the run in its name.
pub proof fn law_free_name_has_start_time(path: Seq<u8>, base: Seq<u8>, millis: nat)
    requires
        is_first_free(path, base, millis, Seq::empty()),
    ensures
        path == dir_path(base, millis),
{
    let time = choose|time: nat|
        millis <= time && path == #[trigger] dir_path(base, time) && (forall|earlier: nat|
            millis <= earlier < time ==> Seq::<Seq<u8>>::empty().contains(
                #[trigger] dir_path(base, earlier),
            ));
    if millis < time {
        assert(Seq::<Seq<u8>>::empty().contains(dir_path(base, millis)));
    }
}

/// Different times give different paths.
pub proof fn law_dirs_of_different_times_differ(base: Seq<u8>, a: nat, b: nat)
    requires
        a != b,
    ensures
        dir_path(base, a) != dir_path(base, b),
{
    lemma_name_is_relative(a);
    lemma_name_is_relative(b);
    let x = encode_utf8(dir_name(a));
    let y = encode_utf8(dir_name(b));
    assert(x != y) by {
        lemma_encoding_is_injective(dir_name(a), dir_name(b));
        lemma_decimal_digits(a);
        lemma_decimal_digits(b);
        let n = "gitingest-"@.len() as int;
        assert(dir_name(a).skip(n) =~= decimal(a));
        assert(dir_name(b).skip(n) =~= decimal(b));
    }
    let head = if base.len() == 0 || base.last() == SLASH {
        base
    } else {
        base.push(SLASH)
    };
    assert((head + x).skip(head.len() as int) =~= x);
    assert((head + y).skip(head.len() as int) =~= y);
}

proof fn lemma_name_is_relative(millis: nat)
    ensures
        !is_absolute(encode_utf8(dir_name(millis))),
{
    reveal_strlit("gitingest-");
    let name = dir_name(millis);
    assert(name[0] == 'g');
    assert(encode_utf8(name) == encode_scalar(name[0] as u32) + encode_utf8(name.drop_first()));
    let scalar = 'g' as u32;
    assert(scalar == 103);
    assert((103u32 & 0x7F) as u8 == 103u8) by (bit_vector);
    assert(encode_scalar(scalar) =~= seq![103u8]);
    assert(encode_utf8(name)[0] == 103u8);
}

/// The directory of a run is an entry of the directory `base`, named by the time in milliseconds.
pub proof fn law_dir_is_entry_of_base(base: Seq<u8>, millis: nat)
    ensures
        components(dir_path(base, millis)) == components(base).push(
            encode_utf8("gitingest-"@ + decimal(millis)),
        ),
{
    let name = "gitingest-"@ + decimal(millis);
    let bytes = encode_utf8(name);
    reveal_strlit("gitingest-");
    lemma_decimal_digits(millis);
    assert forall|i: int| 0 <= i < name.len() implies 45 <= (#[trigger] name[i]) as int <= 127
        && name[i] != '/' by {
        if i >= "gitingest-"@.len() {
            assert(name[i] == decimal(millis)[i - "gitingest-"@.len()]);
        }
    }
    assert(is_ascii_chars(name));
    is_ascii_chars_encode_utf8(name);
    assert(!bytes.contains(SLASH)) by {
        if bytes.contains(SLASH) {
            let k = choose|k: int| 0 <= k < bytes.len() && bytes[k] == SLASH;
            assert(name[k] as int == 47);
        }
    }
    assert(bytes.len() > 10);
    law_entry_names(bytes);
    law_join_adds_component(base, bytes);
}

/// A directory is searched for from the start time on, millisecond by millisecond: where the name of
/// a time is free it is taken, and else the search is that from the next time on. So there is only
/// one directory that is found, and it is none that is taken.
pub proof fn law_search_goes_on_while_taken(
    path: Seq<u8>,
    other: Seq<u8>,
    base: Seq<u8>,
    millis: nat,
    taken: Seq<Seq<u8>>,
)
    ensures
        !taken.contains(dir_path(base, millis)) ==> (is_first_free(path, base, millis, taken)
            <==> path == dir_path(base, millis)),
        taken.contains(dir_path(base, millis)) ==> (is_first_free(path, base, millis, taken)
            <==> is_first_free(path, base, millis + 1, taken)),
        is_first_free(path, base, millis, taken) ==> !taken.contains(path),
        is_first_free(path, base, millis, taken) && is_first_free(other, base, millis, taken)
            ==> path == other,
{
    let start = dir_path(base, millis);
    if is_first_free(path, base, millis, taken) {
        let time = choose|time: nat|
            millis <= time && path == #[trigger] dir_path(base, time) && (forall|earlier: nat|
                millis <= earlier < time ==> taken.contains(#[trigger] dir_path(base, earlier)));
        if millis < time {
            assert(taken.contains(dir_path(base, millis)));
            assert(is_first_free(path, base, millis + 1, taken));
        }
        if is_first_free(other, base, millis, taken) {
            let second = choose|time: nat|
                millis <= time && other == #[trigger] dir_path(base, time) && (forall|
                    earlier: nat,
                |
                    millis <= earlier < time ==> taken.contains(
                        #[trigger] dir_path(base, earlier),
                    ));
            if time < second {
                assert(taken.contains(dir_path(base, time)));
            } else if second < time {
                assert(taken.contains(dir_path(base, second)));
            }
        }
    }
    if taken.contains(start) && is_first_free(path, base, millis + 1, taken) {
        let time = choose|time: nat|
            millis + 1 <= time && path == #[trigger] dir_path(base, time) && (forall|earlier: nat|
                millis + 1 <= earlier < time ==> taken.contains(
                    #[trigger] dir_path(base, earlier),
                ));
        assert forall|earlier: nat| millis <= earlier < time implies taken.contains(
            #[trigger] dir_path(base, earlier),
        ) by {
            if earlier > millis {
                assert(millis + 1 <= earlier);
            }
        }
        assert(is_first_free(path, base, millis, taken));
    }
    if !taken.contains(start) {
        assert(is_first_free(start, base, millis, taken));
    }
}

} // verus!
