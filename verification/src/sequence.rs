//! Several scenes on one timeline: the transitions between them, and the
//! bookkeeping of scene ids, names and loop lengths (in beats).

use vstd::prelude::*;
use crate::text::{push_char, push_decimal, decimal_chars, chars_of};

verus! {

/// How one clip of a sequence comes in.
#[derive(Clone, Copy, Debug, PartialEq, Eq, Structural)]
pub enum TransitionKind {
    /// Straight cut.
    Cut,
    Crossfade,
    /// A soft edge sweeping across at an angle.
    Wipe,
    /// A circle opening from the middle.
    Iris,
    /// Flash to white and back.
    Flash,
    /// Blocks of the next scene glitch in.
    Glitch,
    /// Cut on the first kick of the transition (with music).
    CutOnKick,
}

impl TransitionKind {
    /// Every variant, in menu order.
    pub const ALL: [TransitionKind; 7] = [
        TransitionKind::Cut,
        TransitionKind::Crossfade,
        TransitionKind::Wipe,
        TransitionKind::Iris,
        TransitionKind::Flash,
        TransitionKind::Glitch,
        TransitionKind::CutOnKick,
    ];

    /// Name shown in menus.
    pub fn label(self) -> (s: &'static str)
        ensures
            s@ == (match self {
                TransitionKind::Cut => "Cut"@,
                TransitionKind::Crossfade => "Crossfade"@,
                TransitionKind::Wipe => "Wipe"@,
                TransitionKind::Iris => "Iris"@,
                TransitionKind::Flash => "Flash"@,
                TransitionKind::Glitch => "Glitch"@,
                TransitionKind::CutOnKick => "Cut on kick"@,
            }),
    {
        match self {
            TransitionKind::Cut => "Cut",
            TransitionKind::Crossfade => "Crossfade",
            TransitionKind::Wipe => "Wipe",
            TransitionKind::Iris => "Iris",
            TransitionKind::Flash => "Flash",
            TransitionKind::Glitch => "Glitch",
            TransitionKind::CutOnKick => "Cut on kick",
        }
    }

    /// Position in [`TransitionKind::ALL`] (used by the shaders).
    pub fn index(self) -> (i: u32)
        ensures
            i < 7,
            Self::ALL@[i as int] == self,
    {
        match self {
            TransitionKind::Cut => 0,
            TransitionKind::Crossfade => 1,
            TransitionKind::Wipe => 2,
            TransitionKind::Iris => 3,
            TransitionKind::Flash => 4,
            TransitionKind::Glitch => 5,
            TransitionKind::CutOnKick => 6,
        }
    }
}

impl Default for TransitionKind {
    fn default() -> (r: Self)
        ensures
            r == TransitionKind::Cut,
    {
        TransitionKind::Cut
    }
}


/// A clip lasts at least one beat.
pub open spec fn clip_len(beats: u32) -> int {
    if beats == 0 { 1 } else { beats as int }
}

/// The clips' lengths added up.
pub open spec fn beats_sum(clip_beats: Seq<u32>) -> int
    decreases clip_beats.len(),
{
    if clip_beats.len() == 0 {
        0
    } else {
        beats_sum(clip_beats.drop_last()) + clip_len(clip_beats.last())
    }
}

/// Length of the whole sequence in beats (at least one).
pub open spec fn sequence_beats(clip_beats: Seq<u32>) -> int {
    if beats_sum(clip_beats) == 0 { 1 } else { beats_sum(clip_beats) }
}

proof fn lemma_beats_sum_prefix(clip_beats: Seq<u32>, i: int)
    requires
        0 <= i <= clip_beats.len(),
    ensures
        beats_sum(clip_beats.take(i)) <= beats_sum(clip_beats),
    decreases clip_beats.len() - i,
{
    if i < clip_beats.len() {
        lemma_beats_sum_prefix(clip_beats, i + 1);
        assert(clip_beats.take(i + 1).drop_last() =~= clip_beats.take(i));
    } else {
        assert(clip_beats.take(i) =~= clip_beats);
    }
}

/// Length of the whole sequence in beats: every clip counts at least one
/// beat, and an empty sequence one beat.
pub fn total_beats(clip_beats: &[u32]) -> (t: u32)
    requires
        beats_sum(clip_beats@) <= u32::MAX,
    ensures
        t == sequence_beats(clip_beats@),
{
    let mut sum: u32 = 0;
    let mut i: usize = 0;
    while i < clip_beats.len()
        invariant
            i <= clip_beats@.len(),
            beats_sum(clip_beats@) <= u32::MAX,
            sum == beats_sum(clip_beats@.take(i as int)),
        decreases clip_beats@.len() - i,
    {
        proof {
            lemma_beats_sum_prefix(clip_beats@, i as int + 1);
            assert(clip_beats@.take(i as int + 1).drop_last() =~= clip_beats@.take(i as int));
        }
        let b: u32 = if clip_beats[i] == 0 { 1 } else { clip_beats[i] };
        sum = sum + b;
        i += 1;
    }
    assert(clip_beats@.take(clip_beats@.len() as int) =~= clip_beats@);
    if sum == 0 { 1 } else { sum }
}

/// Index of the first scene with id `id`.
pub open spec fn first_scene(ids: Seq<u32>, id: u32) -> Option<int>
    decreases ids.len(),
{
    if ids.len() == 0 {
        None
    } else if ids[0] == id {
        Some(0)
    } else {
        match first_scene(ids.drop_first(), id) {
            Some(j) => Some(j + 1),
            None => None,
        }
    }
}

proof fn lemma_first_scene(ids: Seq<u32>, id: u32)
    ensures
        match first_scene(ids, id) {
            Some(j) => 0 <= j < ids.len() && ids[j] == id && forall|k: int| 0 <= k < j ==> ids[k] != id,
            None => forall|k: int| 0 <= k < ids.len() ==> ids[k] != id,
        },
    decreases ids.len(),
{
    if ids.len() > 0 && ids[0] != id {
        lemma_first_scene(ids.drop_first(), id);
        match first_scene(ids.drop_first(), id) {
            Some(j) => {
                assert forall|k: int| 0 <= k < j + 1 implies ids[k] != id by {
                    if k > 0 {
                        assert(ids[k] == ids.drop_first()[k - 1]);
                    }
                }
            },
            None => {
                assert forall|k: int| 0 <= k < ids.len() implies ids[k] != id by {
                    if k > 0 {
                        assert(ids[k] == ids.drop_first()[k - 1]);
                    }
                }
            },
        }
    }
}

/// Index of the first scene with id `id`, found by a scan.
fn find_scene(ids: &[u32], id: u32) -> (r: Option<usize>)
    ensures
        match r {
            Some(j) => first_scene(ids@, id) == Some(j as int),
            None => first_scene(ids@, id) is None,
        },
{
    proof {
        lemma_first_scene(ids@, id);
    }
    let mut j: usize = 0;
    while j < ids.len()
        invariant
            j <= ids@.len(),
            forall|k: int| 0 <= k < j ==> ids@[k] != id,
        decreases ids@.len() - j,
    {
        if ids[j] == id {
            proof {
                lemma_first_scene(ids@, id);
                match first_scene(ids@, id) {
                    Some(f) => {
                        assert(f >= j);
                        assert(f <= j);
                    },
                    None => {},
                }
            }
            return Some(j);
        }
        j += 1;
    }
    None
}

/// A scene's own loop, in beats (at least one).
pub open spec fn loop_len(beats: u32) -> u32 {
    if beats == 0 { 1 } else { beats }
}

/// Own loop length of scene `id`: the current scene's, a waiting scene's,
/// or 16 beats for an unknown id.
pub fn scene_beats(current_id: u32, current_beats: u32, ids: &[u32], loop_beats: &[u32], id: u32) -> (b: u32)
    requires
        ids@.len() == loop_beats@.len(),
    ensures
        b == (if id == current_id {
            loop_len(current_beats)
        } else {
            match first_scene(ids@, id) {
                Some(j) => loop_len(loop_beats@[j]),
                None => 16,
            }
        }),
{
    if id == current_id {
        return if current_beats == 0 { 1 } else { current_beats };
    }
    match find_scene(ids, id) {
        Some(j) => {
            proof {
                lemma_first_scene(ids@, id);
            }
            if loop_beats[j] == 0 { 1 } else { loop_beats[j] }
        },
        None => 16,
    }
}

/// Name of scene `id`: the current scene's, a waiting scene's, or `?`.
pub fn scene_name(current_id: u32, current_name: &str, ids: &[u32], names: &Vec<String>, id: u32) -> (n: String)
    requires
        ids@.len() == names@.len(),
    ensures
        n@ == (if id == current_id {
            current_name@
        } else {
            match first_scene(ids@, id) {
                Some(j) => names@[j]@,
                None => seq!['?'],
            }
        }),
{
    if id == current_id {
        return string_from(current_name);
    }
    match find_scene(ids, id) {
        Some(j) => {
            proof {
                lemma_first_scene(ids@, id);
            }
            names[j].clone()
        },
        None => {
            let mut q: String = String::new();
            push_char(&mut q, '?');
            q
        },
    }
}

fn string_from(s: &str) -> (r: String)
    ensures
        r@ == s@,
{
    let cs: Vec<char> = chars_of(s);
    crate::text::string_of(cs.as_slice())
}

/// Ids of every scene, the current one first.
pub fn scene_ids(current_id: u32, ids: &[u32]) -> (all: Vec<u32>)
    ensures
        all@ == seq![current_id] + ids@,
{
    let mut all: Vec<u32> = Vec::new();
    all.push(current_id);
    let mut j: usize = 0;
    while j < ids.len()
        invariant
            j <= ids@.len(),
            all@ == seq![current_id] + ids@.take(j as int),
        decreases ids@.len() - j,
    {
        all.push(ids[j]);
        j += 1;
        assert(all@ =~= seq![current_id] + ids@.take(j as int));
    }
    assert(ids@.take(ids@.len() as int) =~= ids@);
    all
}

/// The largest id, starting from the current scene's.
pub open spec fn max_id(current_id: u32, ids: Seq<u32>) -> u32
    decreases ids.len(),
{
    if ids.len() == 0 {
        current_id
    } else {
        let m = max_id(current_id, ids.drop_last());
        if ids.last() > m { ids.last() } else { m }
    }
}

proof fn lemma_max_id(current_id: u32, ids: Seq<u32>)
    ensures
        max_id(current_id, ids) >= current_id,
        forall|k: int| 0 <= k < ids.len() ==> max_id(current_id, ids) >= #[trigger] ids[k],
        max_id(current_id, ids) == current_id || ids.contains(max_id(current_id, ids)),
    decreases ids.len(),
{
    if ids.len() > 0 {
        lemma_max_id(current_id, ids.drop_last());
        assert forall|k: int| 0 <= k < ids.len() implies max_id(current_id, ids) >= #[trigger] ids[k] by {
            if k < ids.len() - 1 {
                assert(ids[k] == ids.drop_last()[k]);
            }
        }
        if ids.drop_last().contains(max_id(current_id, ids.drop_last())) && max_id(current_id, ids) != ids.last() {
            let k = choose|k: int| 0 <= k < ids.drop_last().len() && ids.drop_last()[k] == max_id(current_id, ids.drop_last());
            assert(ids[k] == ids.drop_last()[k]);
        }
    }
}

/// A fresh scene id: one more than the largest in use.
pub fn next_id(current_id: u32, ids: &[u32]) -> (n: u32)
    requires
        max_id(current_id, ids@) < u32::MAX,
    ensures
        n == max_id(current_id, ids@) + 1,
{
    let mut m: u32 = current_id;
    let mut j: usize = 0;
    while j < ids.len()
        invariant
            j <= ids@.len(),
            m == max_id(current_id, ids@.take(j as int)),
        decreases ids@.len() - j,
    {
        assert(ids@.take(j as int + 1).drop_last() =~= ids@.take(j as int));
        if ids[j] > m {
            m = ids[j];
        }
        j += 1;
    }
    assert(ids@.take(ids@.len() as int) =~= ids@);
    m + 1
}

/// A fresh id is used by no scene.
pub proof fn law_next_id_is_fresh(current_id: u32, ids: Seq<u32>)
    requires
        max_id(current_id, ids) < u32::MAX,
    ensures
        max_id(current_id, ids) + 1 != current_id,
        !ids.contains((max_id(current_id, ids) + 1) as u32),
{
    lemma_max_id(current_id, ids);
    if ids.contains((max_id(current_id, ids) + 1) as u32) {
        let k = choose|k: int| 0 <= k < ids.len() && ids[k] == (max_id(current_id, ids) + 1) as u32;
        assert(max_id(current_id, ids) >= ids[k]);
    }
}

/// Name of an added scene: `<current name> copy` for a copy, else
/// `Scene <id>`.
pub open spec fn added_scene_name(copy: bool, current_name: Seq<char>, id: u32) -> Seq<char> {
    if copy {
        current_name + seq![' ', 'c', 'o', 'p', 'y']
    } else {
        seq!['S', 'c', 'e', 'n', 'e', ' '] + decimal_chars(id as nat)
    }
}

/// The name an added scene gets.
pub fn new_scene_name(copy: bool, current_name: &str, id: u32) -> (n: String)
    ensures
        n@ == added_scene_name(copy, current_name@, id),
{
    if copy {
        let mut n = string_from(current_name);
        push_char(&mut n, ' ');
        push_char(&mut n, 'c');
        push_char(&mut n, 'o');
        push_char(&mut n, 'p');
        push_char(&mut n, 'y');
        assert(n@ =~= added_scene_name(copy, current_name@, id));
        n
    } else {
        let mut n: String = String::new();
        push_char(&mut n, 'S');
        push_char(&mut n, 'c');
        push_char(&mut n, 'e');
        push_char(&mut n, 'n');
        push_char(&mut n, 'e');
        push_char(&mut n, ' ');
        push_decimal(&mut n, id as u128);
        assert(n@ =~= added_scene_name(copy, current_name@, id));
        n
    }
}

/// The index of the first scene with id `id`, if any.
pub open spec fn scene_slot<T>(scenes: Seq<(u32, T)>, id: u32) -> Option<nat>
    decreases scenes.len(),
{
    if scenes.len() == 0 {
        None
    } else if scenes[0].0 == id {
        Some(0)
    } else {
        match scene_slot(scenes.drop_first(), id) {
            Some(k) => Some(k + 1),
            None => None,
        }
    }
}

/// The first scene with id `id` is the first index that holds it.
proof fn lemma_scene_slot<T>(scenes: Seq<(u32, T)>, id: u32, k: int)
    requires
        0 <= k <= scenes.len(),
        forall|j: int| 0 <= j < k ==> (#[trigger] scenes[j]).0 != id,
    ensures
        k < scenes.len() && scenes[k].0 == id ==> scene_slot(scenes, id) == Some(k as nat),
        k == scenes.len() ==> scene_slot(scenes, id) is None,
    decreases k,
{
    if k > 0 {
        let rest = scenes.drop_first();
        assert forall|j: int| 0 <= j < k - 1 implies (#[trigger] rest[j]).0 != id by {
            assert(rest[j] == scenes[j + 1]);
        }
        lemma_scene_slot(rest, id, k - 1);
        if k < scenes.len() {
            assert(rest[k - 1] == scenes[k]);
        }
    }
}

/// Make scene `id` the one being edited: the contents of the current
/// scene and of the first scene with that id change places, and so do
/// their ids. Nothing changes, and the result is false, when no scene has
/// that id.
pub fn edit_scene<T>(current_id: &mut u32, current: &mut T, scenes: &mut Vec<(u32, T)>, id: u32) -> (found: bool)
    ensures
        found == scene_slot(old(scenes)@, id) is Some,
        match scene_slot(old(scenes)@, id) {
            Some(k) => {
                &&& *final(current_id) == id
                &&& *final(current) == old(scenes)@[k as int].1
                &&& final(scenes)@ == old(scenes)@.update(k as int, (*old(current_id), *old(current)))
            },
            None => {
                &&& *final(current_id) == *old(current_id)
                &&& *final(current) == *old(current)
                &&& final(scenes)@ == old(scenes)@
            },
        },
{
    let mut k: usize = 0;
    while k < scenes.len()
        invariant
            k <= scenes@.len(),
            scenes@ == old(scenes)@,
            forall|j: int| 0 <= j < k ==> (#[trigger] scenes@[j]).0 != id,
        ensures
            k <= scenes@.len(),
            scenes@ == old(scenes)@,
            forall|j: int| 0 <= j < k ==> (#[trigger] scenes@[j]).0 != id,
            k < scenes@.len() ==> scenes@[k as int].0 == id,
        decreases scenes@.len() - k,
    {
        if scenes[k].0 == id {
            break;
        }
        k += 1;
    }
    proof {
        lemma_scene_slot(old(scenes)@, id, k as int);
    }
    if k == scenes.len() {
        return false;
    }
    let ghost before = scenes@;
    let (sid, mut st) = scenes.remove(k);
    std::mem::swap(current, &mut st);
    scenes.insert(k, (*current_id, st));
    *current_id = sid;
    assert(scenes@ =~= before.update(k as int, (*old(current_id), *old(current))));
    true
}

/// Switching to scene `b` and back to the scene edited before gives back
/// the same scenes: the second switch finds the first one's scene where it
/// put it, when no other scene had the first one's id.
pub proof fn law_edit_scene_round_trip<T>(a: u32, current: T, scenes: Seq<(u32, T)>, b: u32)
    requires
        scene_slot(scenes, a) is None,
        scene_slot(scenes, b) is Some,
    ensures
        ({
            let k = scene_slot(scenes, b)->0 as int;
            let after = scenes.update(k, (a, current));
            &&& scene_slot(after, a) == Some(k as nat)
            &&& after.update(k, (b, scenes[k].1)) == scenes
        }),
{
    let k = scene_slot(scenes, b)->0 as int;
    let after = scenes.update(k, (a, current));
    lemma_scene_slot_facts(scenes, b);
    lemma_scene_slot_facts(scenes, a);
    assert forall|j: int| 0 <= j < k implies (#[trigger] after[j]).0 != a by {
        assert(after[j] == scenes[j]);
    }
    lemma_scene_slot(after, a, k);
    assert(after.update(k, (b, scenes[k].1)) =~= scenes);
}

/// What [`scene_slot`] finds: the id at that index and at no index
/// before; when it finds nothing, the id is nowhere.
proof fn lemma_scene_slot_facts<T>(scenes: Seq<(u32, T)>, id: u32)
    ensures
        scene_slot(scenes, id) matches Some(k) ==> k < scenes.len() && scenes[k as int].0 == id
            && forall|j: int| 0 <= j < k ==> (#[trigger] scenes[j]).0 != id,
        scene_slot(scenes, id) is None ==> forall|j: int| 0 <= j < scenes.len() ==> (#[trigger] scenes[j]).0 != id,
    decreases scenes.len(),
{
    if scenes.len() > 0 && scenes[0].0 != id {
        let rest = scenes.drop_first();
        lemma_scene_slot_facts(rest, id);
        match scene_slot(rest, id) {
            Some(k) => {
                assert(scenes[k + 1 as int] == rest[k as int]);
                assert forall|j: int| 0 <= j < k + 1 implies (#[trigger] scenes[j]).0 != id by {
                    if j > 0 {
                        assert(scenes[j] == rest[j - 1]);
                    }
                }
            },
            None => {
                assert forall|j: int| 0 <= j < scenes.len() implies (#[trigger] scenes[j]).0 != id by {
                    if j > 0 {
                        assert(scenes[j] == rest[j - 1]);
                    }
                }
            },
        }
    }
}

} // verus!
