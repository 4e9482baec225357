//! Matching the gamepads of the last update with the ones the platform reports now.
use vstd::prelude::*;

verus! {

/// One step of matching two id-ordered gamepad lists.
#[derive(Clone, Copy, PartialEq, Eq, Structural, Debug)]
pub enum GamepadChange {
    /// Gamepad `.0` of the old list is gamepad `.1` of the new list
    Matched(usize, usize),
    /// An event that the gamepad with this id of the new list was disconnected
    Disconnected(i32),
    /// An event that the gamepad with this id of the old list was connected
    Connected(i32),
}

/// The steps of matching `old` from position `i` with `new` from position `j`: equal ids
/// are matched; otherwise the smaller id of the two is reported and passed, until one
/// list runs out.
pub open spec fn gamepad_steps(old: Seq<i32>, new: Seq<i32>, i: int, j: int) -> Seq<GamepadChange>
    decreases old.len() - i + new.len() - j,
{
    if 0 <= i < old.len() && 0 <= j < new.len() {
        if old[i] == new[j] {
            seq![GamepadChange::Matched(i as usize, j as usize)] + gamepad_steps(old, new, i + 1, j + 1)
        } else if old[i] > new[j] {
            seq![GamepadChange::Disconnected(new[j])] + gamepad_steps(old, new, i, j + 1)
        } else {
            seq![GamepadChange::Connected(old[i])] + gamepad_steps(old, new, i + 1, j)
        }
    } else {
        seq![]
    }
}

/// Match the ids of the gamepads of the last update (`old`) with those reported now
/// (`new`), both in increasing order: which pairs are the same gamepad, and the events
/// that the differences raise.
pub fn gamepad_changes(old: &Vec<i32>, new: &Vec<i32>) -> (steps: Vec<GamepadChange>)
    ensures
        steps@ == gamepad_steps(old@, new@, 0, 0),
{
    let mut steps: Vec<GamepadChange> = Vec::new();
    let mut i: usize = 0;
    let mut j: usize = 0;
    while i < old.len() && j < new.len()
        invariant
            i <= old@.len(),
            j <= new@.len(),
            gamepad_steps(old@, new@, 0, 0) == steps@ + gamepad_steps(old@, new@, i as int, j as int),
        decreases old@.len() - i + new@.len() - j,
    {
        let ghost before = steps@;
        if old[i] == new[j] {
            steps.push(GamepadChange::Matched(i, j));
            assert(before + gamepad_steps(old@, new@, i as int, j as int) =~= steps@
                + gamepad_steps(old@, new@, i + 1, j + 1));
            i = i + 1;
            j = j + 1;
        } else if old[i] > new[j] {
            steps.push(GamepadChange::Disconnected(new[j]));
            assert(before + gamepad_steps(old@, new@, i as int, j as int) =~= steps@
                + gamepad_steps(old@, new@, i as int, j + 1));
            j = j + 1;
        } else {
            steps.push(GamepadChange::Connected(old[i]));
            assert(before + gamepad_steps(old@, new@, i as int, j as int) =~= steps@
                + gamepad_steps(old@, new@, i + 1, j as int));
            i = i + 1;
        }
    }
    assert(steps@ + gamepad_steps(old@, new@, i as int, j as int) =~= steps@);
    steps
}

proof fn lemma_steps_from_sound(old: Seq<i32>, new: Seq<i32>, i: int, j: int)
    requires
        0 <= i,
        0 <= j,
        old.len() <= usize::MAX,
        new.len() <= usize::MAX,
    ensures
        forall|k: int|
            0 <= k < gamepad_steps(old, new, i, j).len() ==> match #[trigger] gamepad_steps(
                old,
                new,
                i,
                j,
            )[k] {
                GamepadChange::Matched(a, b) => i <= a < old.len() && j <= b < new.len() && old[a as int]
                    == new[b as int],
                GamepadChange::Disconnected(x) => exists|b: int| j <= b < new.len() && new[b] == x,
                GamepadChange::Connected(x) => exists|a: int| i <= a < old.len() && old[a] == x,
            },
    decreases old.len() - i + new.len() - j,
{
    if 0 <= i < old.len() && 0 <= j < new.len() {
        let s = gamepad_steps(old, new, i, j);
        if old[i] == new[j] {
            lemma_steps_from_sound(old, new, i + 1, j + 1);
            let rest = gamepad_steps(old, new, i + 1, j + 1);
            assert forall|k: int| 0 <= k < s.len() implies match #[trigger] s[k] {
                GamepadChange::Matched(a, b) => i <= a < old.len() && j <= b < new.len() && old[a as int]
                    == new[b as int],
                GamepadChange::Disconnected(x) => exists|b: int| j <= b < new.len() && new[b] == x,
                GamepadChange::Connected(x) => exists|a: int| i <= a < old.len() && old[a] == x,
            } by {
                if k > 0 {
                    assert(s[k] == rest[k - 1]);
                }
            }
        } else if old[i] > new[j] {
            lemma_steps_from_sound(old, new, i, j + 1);
            let rest = gamepad_steps(old, new, i, j + 1);
            assert forall|k: int| 0 <= k < s.len() implies match #[trigger] s[k] {
                GamepadChange::Matched(a, b) => i <= a < old.len() && j <= b < new.len() && old[a as int]
                    == new[b as int],
                GamepadChange::Disconnected(x) => exists|b: int| j <= b < new.len() && new[b] == x,
                GamepadChange::Connected(x) => exists|a: int| i <= a < old.len() && old[a] == x,
            } by {
                if k > 0 {
                    assert(s[k] == rest[k - 1]);
                }
            }
        } else {
            lemma_steps_from_sound(old, new, i + 1, j);
            let rest = gamepad_steps(old, new, i + 1, j);
            assert forall|k: int| 0 <= k < s.len() implies match #[trigger] s[k] {
                GamepadChange::Matched(a, b) => i <= a < old.len() && j <= b < new.len() && old[a as int]
                    == new[b as int],
                GamepadChange::Disconnected(x) => exists|b: int| j <= b < new.len() && new[b] == x,
                GamepadChange::Connected(x) => exists|a: int| i <= a < old.len() && old[a] == x,
            } by {
                if k > 0 {
                    assert(s[k] == rest[k - 1]);
                }
            }
        }
    }
}

/// Matching only pairs gamepads that are the same: every matched pair names a gamepad of
/// the old list and one of the new list with the same id, and every event names the id
/// of a gamepad of the list it comes from (disconnection events ids of the new list,
/// connection events ids of the old list, as the matching reports them).
pub proof fn lemma_matches_are_same_gamepad(old: Seq<i32>, new: Seq<i32>, k: int)
    requires
        old.len() <= usize::MAX,
        new.len() <= usize::MAX,
        0 <= k < gamepad_steps(old, new, 0, 0).len(),
    ensures
        match gamepad_steps(old, new, 0, 0)[k] {
            GamepadChange::Matched(a, b) => a < old.len() && b < new.len() && old[a as int] == new[b as int],
            GamepadChange::Disconnected(x) => new.contains(x),
            GamepadChange::Connected(x) => old.contains(x),
        },
{
    lemma_steps_from_sound(old, new, 0, 0);
    let s = gamepad_steps(old, new, 0, 0);
    match s[k] {
        GamepadChange::Matched(a, b) => {},
        GamepadChange::Disconnected(x) => {
            let b = choose|b: int| 0 <= b < new.len() && new[b] == x;
            assert(new[b] == x);
        },
        GamepadChange::Connected(x) => {
            let a = choose|a: int| 0 <= a < old.len() && old[a] == x;
            assert(old[a] == x);
        },
    }
}

/// Every gamepad present in both lists is matched: when the two lists are in increasing
/// order of id, an id found in both is matched with its own position in each.
pub proof fn lemma_common_gamepads_matched(old: Seq<i32>, new: Seq<i32>, a: int, b: int)
    requires
        forall|x: int, y: int| 0 <= x < y < old.len() ==> old[x] < old[y],
        forall|x: int, y: int| 0 <= x < y < new.len() ==> new[x] < new[y],
        0 <= a < old.len(),
        0 <= b < new.len(),
        old[a] == new[b],
    ensures
        gamepad_steps(old, new, 0, 0).contains(GamepadChange::Matched(a as usize, b as usize)),
{
    lemma_common_from(old, new, 0, 0, a, b);
}

proof fn lemma_common_from(old: Seq<i32>, new: Seq<i32>, i: int, j: int, a: int, b: int)
    requires
        forall|x: int, y: int| 0 <= x < y < old.len() ==> old[x] < old[y],
        forall|x: int, y: int| 0 <= x < y < new.len() ==> new[x] < new[y],
        0 <= i <= a < old.len(),
        0 <= j <= b < new.len(),
        old[a] == new[b],
    ensures
        gamepad_steps(old, new, i, j).contains(GamepadChange::Matched(a as usize, b as usize)),
    decreases old.len() - i + new.len() - j,
{
    let s = gamepad_steps(old, new, i, j);
    if old[i] == new[j] {
        if i == a && j == b {
            assert(s[0] == GamepadChange::Matched(a as usize, b as usize));
        } else {
            if i == a {
                assert(new[j] < new[b]);
            }
            if j == b {
                assert(old[i] < old[a]);
            }
            lemma_common_from(old, new, i + 1, j + 1, a, b);
            let rest = gamepad_steps(old, new, i + 1, j + 1);
            let k = choose|k: int| 0 <= k < rest.len() && rest[k] == GamepadChange::Matched(a as usize, b as usize);
            assert(s[k + 1] == rest[k]);
        }
    } else if old[i] > new[j] {
        if j == b {
            if i < a {
                assert(old[i] < old[a]);
            }
        }
        lemma_common_from(old, new, i, j + 1, a, b);
        let rest = gamepad_steps(old, new, i, j + 1);
        let k = choose|k: int| 0 <= k < rest.len() && rest[k] == GamepadChange::Matched(a as usize, b as usize);
        assert(s[k + 1] == rest[k]);
    } else {
        if i == a {
            if j < b {
                assert(new[j] < new[b]);
            }
        }
        lemma_common_from(old, new, i + 1, j, a, b);
        let rest = gamepad_steps(old, new, i + 1, j);
        let k = choose|k: int| 0 <= k < rest.len() && rest[k] == GamepadChange::Matched(a as usize, b as usize);
        assert(s[k + 1] == rest[k]);
    }
}

} // verus!
